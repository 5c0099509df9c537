//! Table engine edge cases: schema violations, filters overriding
//! default visibility, headers and separators, and builder helpers.

use hiercmd::table::{Row, TableBuilder, TableError};

fn named_row(pairs: &[(&str, &str)]) -> Row {
    let mut row = Row::default();
    for (k, v) in pairs {
        row.add_str(k, v);
    }
    row
}

#[test]
fn filter_overrides_default_visibility() {
    let mut t = TableBuilder::default()
        .add_column("id", 4, true)
        .add_column("name", 8, false)
        .output_from_list(Some("name"))
        .build();
    let mut row = Row::default();
    row.add_u64("id", 1);
    row.add_str("name", "x");
    t.add_row(row);
    assert_eq!(t.output().expect("output"), "NAME\nx\n");
}

#[test]
fn default_visibility_hides_columns_without_filter() {
    let mut t = TableBuilder::default()
        .add_column("id", 4, true)
        .add_column("name", 8, false)
        .build();
    let mut row = Row::default();
    row.add_u64("id", 1);
    row.add_str("name", "x");
    t.add_row(row);
    assert_eq!(t.output().expect("output"), "ID\n1\n");
}

#[test]
fn header_suppressed() {
    let mut t = TableBuilder::default()
        .show_header(true)
        .disable_header(true)
        .add_column("id", 4, true)
        .build();
    let mut row = Row::default();
    row.add_u64("id", 9);
    t.add_row(row);
    assert_eq!(t.output().expect("output"), "9\n");
}

#[test]
fn bytes_column_humanized_and_parseable() {
    let mut t = TableBuilder::default()
        .show_header(false)
        .add_column("size", 8, true)
        .build();
    let mut row = Row::default();
    row.add_bytes("size", 1048576);
    t.add_row(row);
    assert_eq!(t.output().expect("output"), "1.00M\n");

    let mut t = TableBuilder::default()
        .show_header(false)
        .parseable(true)
        .add_column("size", 8, true)
        .build();
    let mut row = Row::default();
    row.add_bytes("size", 1048576);
    t.add_row(row);
    assert_eq!(t.output().expect("output"), "1048576\n");
}

#[test]
fn missing_sort_value_fails() {
    let mut t = TableBuilder::default()
        .add_column("id", 4, true)
        .sort_from_list_asc(Some("id"))
        .build();
    t.add_row(named_row(&[("id", "a")]));
    t.add_row(named_row(&[("other", "b")]));
    let e = t.output().unwrap_err();
    assert!(matches!(e, TableError::MissingSortValue(_)));
}

#[test]
fn mixed_column_kinds_fail() {
    let mut t = TableBuilder::default()
        .add_column("id", 4, true)
        .sort_from_list_asc(Some("id"))
        .build();
    let mut a = Row::default();
    a.add_u64("id", 1);
    t.add_row(a);
    let mut b = Row::default();
    b.add_str("id", "two");
    t.add_row(b);
    let e = t.output().unwrap_err();
    assert!(matches!(e, TableError::MixedColumnKinds(_)));
}

#[test]
fn unknown_output_column_fails_at_render() {
    let mut t = TableBuilder::default()
        .add_column("id", 4, true)
        .output_from_list(Some("ghost"))
        .build();
    t.add_row(named_row(&[("id", "1")]));
    let e = t.output().unwrap_err();
    assert!(matches!(e, TableError::UnknownOutputColumn(_)));
}

#[test]
fn missing_output_value_fails_at_render() {
    let mut t = TableBuilder::default()
        .add_column("id", 4, true)
        .add_column("name", 8, true)
        .build();
    t.add_row(named_row(&[("id", "1")]));
    let e = t.output().unwrap_err();
    assert!(matches!(e, TableError::MissingOutputValue(_)));
}

#[test]
fn filter_list_is_trimmed_and_lowercased() {
    let mut t = TableBuilder::default()
        .add_column("id", 4, true)
        .add_column("name", 8, true)
        .output_from_list(Some(" NAME , ID "))
        .build();
    let mut row = Row::default();
    row.add_u64("id", 1);
    row.add_str("name", "x");
    t.add_row(row);
    assert_eq!(t.output().expect("output"), "NAME     ID\nx        1\n");
}

#[test]
fn column_names_are_sorted() {
    let b = TableBuilder::default()
        .add_column("name", 8, true)
        .add_column("id", 4, true)
        .add_column("age", 4, false);
    assert_eq!(b.column_names(), vec!["age", "id", "name"]);
}

#[test]
fn missing_column_names_sorted() {
    let b = TableBuilder::default()
        .add_column("id", 4, true)
        .output_from_list(Some("zz,id,aa"));
    assert_eq!(b.missing_column_names(), vec!["aa", "zz"]);
    let none = TableBuilder::default().add_column("id", 4, true);
    assert!(none.missing_column_names().is_empty());
}

#[test]
fn set_column_default_changes_visibility() {
    let mut t = TableBuilder::default()
        .add_column("id", 4, true)
        .add_column("name", 8, true)
        .set_column_default("name", false)
        .build();
    let mut row = Row::default();
    row.add_u64("id", 1);
    row.add_str("name", "x");
    t.add_row(row);
    assert_eq!(t.output().expect("output"), "ID\n1\n");
}

#[test]
fn second_render_after_sort_is_stable() {
    let mut t = TableBuilder::default()
        .show_header(false)
        .add_column("id", 4, true)
        .sort_from_list_asc(Some("id"))
        .build();
    let mut a = Row::default();
    a.add_u64("id", 2);
    t.add_row(a);
    let mut b = Row::default();
    b.add_u64("id", 1);
    t.add_row(b);
    let first = t.output().expect("output");
    let second = t.output().expect("output");
    assert_eq!(first, "1\n2\n");
    assert_eq!(first, second);
}

#[test]
fn render_errors_name_the_column() {
    let mut t = TableBuilder::default()
        .add_column("id", 4, true)
        .output_from_list(Some("ghost"))
        .build();
    t.add_row(named_row(&[("id", "1")]));
    let e = t.output().unwrap_err();
    assert_eq!(e.message(), "column \"ghost\" is not defined");
}
