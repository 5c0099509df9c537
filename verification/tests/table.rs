//! Table rendering: sorting, filtering and age humanization end to end.

use hiercmd::table::{Row, Table, TableBuilder};

fn longer_row(id: u64, name: &str, colour: &str, rating: u64) -> Row {
    let mut row = Row::default();
    row.add_u64("id", id);
    row.add_str("name", name);
    row.add_str("colour", colour);
    row.add_u64("rating", rating);
    row
}

fn longer_data(table: &mut Table) {
    table.add_row(longer_row(2, "chocolate", "brown", 5));
    table.add_row(longer_row(1, "vanilla", "white", 4));
    table.add_row(longer_row(3, "strawberry", "pink", 8));
    table.add_row(longer_row(4, "pistachio", "green", 4));
    table.add_row(longer_row(5, "lemon", "yellow", 6));
}

fn basic_row(id: u64, name: &str) -> Row {
    let mut row = Row::default();
    row.add_u64("id", id);
    row.add_str("name", name);
    row
}

fn basic_data(table: &mut Table) {
    table.add_row(basic_row(1, "john"));
    table.add_row(basic_row(4, "bruce"));
    table.add_row(basic_row(2, "albert"));
    table.add_row(basic_row(3, "zeta"));
}

fn basic_data_dups(table: &mut Table) {
    table.add_row(basic_row(1, "john"));
    table.add_row(basic_row(4, "bruce"));
    table.add_row(basic_row(2, "albert"));
    table.add_row(basic_row(2, "demonstration"));
    table.add_row(basic_row(3, "zeta"));
    table.add_row(basic_row(5, "almond"));
    table.add_row(basic_row(1, "almond"));
    table.add_row(basic_row(2, "carrot"));
}

fn aged_row(id: u64, age: u64) -> Row {
    let mut row = Row::default();
    row.add_u64("id", id);
    row.add_age("age", age);
    row
}

fn aged_data(table: &mut Table) {
    table.add_row(aged_row(1, 86401));
    table.add_row(aged_row(2, 47));
    table.add_row(aged_row(3, 3 * 86400 + 7 * 3600));
    table.add_row(aged_row(4, 13 * 3600 + 23 * 60));
}

#[test]
fn basic_nosort() {
    let mut t = TableBuilder::default()
        .show_header(true)
        .add_column("id", 8, true)
        .add_column("name", 24, true)
        .build();

    basic_data(&mut t);

    assert_eq!(
        t.output().expect("output"),
        "ID       NAME\n\
        1        john\n\
        4        bruce\n\
        2        albert\n\
        3        zeta\n\
        "
    );
}

#[test]
fn basic_sort_id() {
    let mut t = TableBuilder::default()
        .show_header(true)
        .add_column("id", 9, true)
        .add_column("name", 24, true)
        .sort_from_list_asc(Some("id"))
        .build();

    basic_data(&mut t);

    assert_eq!(
        t.output().expect("output"),
        "ID        NAME\n\
        1         john\n\
        2         albert\n\
        3         zeta\n\
        4         bruce\n\
        "
    );
}

#[test]
fn basic_sort_name() {
    let mut t = TableBuilder::default()
        .show_header(true)
        .add_column("id", 8, true)
        .add_column("name", 24, true)
        .sort_from_list_asc(Some("name"))
        .build();

    basic_data(&mut t);

    assert_eq!(
        t.output().expect("output"),
        "ID       NAME\n\
        2        albert\n\
        4        bruce\n\
        1        john\n\
        3        zeta\n\
        "
    );
}

#[test]
fn basic_sort_idname() {
    let mut t = TableBuilder::default()
        .show_header(true)
        .add_column("id", 8, true)
        .add_column("name", 24, true)
        .sort_from_list_asc(Some("id,name"))
        .build();

    basic_data_dups(&mut t);

    assert_eq!(
        t.output().expect("output"),
        "ID       NAME\n\
        1        almond\n\
        1        john\n\
        2        albert\n\
        2        carrot\n\
        2        demonstration\n\
        3        zeta\n\
        4        bruce\n\
        5        almond\n\
        "
    );
}

#[test]
fn basic_sort_nameid() {
    let mut t = TableBuilder::default()
        .show_header(true)
        .add_column("id", 8, true)
        .add_column("name", 24, true)
        .sort_from_list_asc(Some("name,id"))
        .build();

    basic_data_dups(&mut t);

    assert_eq!(
        t.output().expect("output"),
        "ID       NAME\n\
        2        albert\n\
        1        almond\n\
        5        almond\n\
        4        bruce\n\
        2        carrot\n\
        2        demonstration\n\
        1        john\n\
        3        zeta\n\
        "
    );
}

#[test]
fn longer_name_rating() {
    let mut t = TableBuilder::default()
        .show_header(true)
        .add_column("id", 8, true)
        .add_column("name", 16, true)
        .add_column("colour", 16, true)
        .add_column("rating", 8, true)
        .output_from_list(Some("rating,name"))
        .build();

    longer_data(&mut t);

    assert_eq!(
        t.output().expect("output"),
        "RATING   NAME\n\
        5        chocolate\n\
        4        vanilla\n\
        8        strawberry\n\
        4        pistachio\n\
        6        lemon\n\
        "
    );
}

#[test]
fn longer_best_with_colour() {
    let mut t = TableBuilder::default()
        .show_header(true)
        .add_column("id", 8, true)
        .add_column("name", 16, true)
        .add_column("colour", 16, true)
        .add_column("rating", 8, true)
        .sort_from_list_desc(Some("rating"))
        .output_from_list(Some("rating,name,colour"))
        .build();

    longer_data(&mut t);

    assert_eq!(
        t.output().expect("output"),
        "RATING   NAME             COLOUR\n\
        8        strawberry       pink\n\
        6        lemon            yellow\n\
        5        chocolate        brown\n\
        4        vanilla          white\n\
        4        pistachio        green\n\
        "
    );
}

#[test]
fn longer_worst_with_colour() {
    let mut t = TableBuilder::default()
        .show_header(true)
        .add_column("id", 8, true)
        .add_column("name", 16, true)
        .add_column("colour", 16, true)
        .add_column("rating", 8, true)
        .sort_from_list_asc(Some("rating"))
        .output_from_list(Some("rating,name,colour"))
        .build();

    longer_data(&mut t);

    assert_eq!(
        t.output().expect("output"),
        "RATING   NAME             COLOUR\n\
        4        vanilla          white\n\
        4        pistachio        green\n\
        5        chocolate        brown\n\
        6        lemon            yellow\n\
        8        strawberry       pink\n\
        "
    );
}

#[test]
fn some_ages() {
    let mut t = TableBuilder::default()
        .show_header(true)
        .add_column("id", 8, true)
        .add_column("age", 8, true)
        .sort_from_list_desc(Some("age"))
        .build();

    aged_data(&mut t);

    assert_eq!(
        t.output().expect("output"),
        "ID       AGE\n\
        3         3d07h\n\
        1         1d00h\n\
        4        13h23m\n\
        2        47s\n\
        "
    );
}
