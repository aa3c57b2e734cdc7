//! Escaped values, link paths, CSV records and the order of paths.

use notion_backup::json::Json;
use notion_backup::markup::{
    cell, csv_field, csv_of_rows, csv_row, encode_path, front_matter, md_label, relative_path,
    render_table, value_columns, yaml_scalar,
};
use notion_backup::order::{path_comes_first, sort_order};

fn json(text: &str) -> Json {
    Json::parse(text).unwrap()
}

fn path(text: &str) -> Vec<String> {
    if text.is_empty() {
        Vec::new()
    } else {
        text.split('/').map(|p| p.to_string()).collect()
    }
}

#[test]
fn values_are_escaped_for_their_place() {
    assert_eq!(cell("a|b\r\nc"), "a\\|b  c");
    assert_eq!(md_label("[x]"), "\\[x\\]");
    assert_eq!(yaml_scalar("a\"b\\c\r\n\t"), "\"a\\\"b\\\\c\\r\\n\\t\"");
    assert_eq!(yaml_scalar(""), "\"\"");
}

#[test]
fn backslashes_in_front_of_a_bar_are_doubled() {
    assert_eq!(cell("a\\|b"), "a\\\\\\|b");
    assert_eq!(cell("\\\\||"), "\\\\\\\\\\|\\|");
    assert_eq!(cell("C:\\dir\\"), "C:\\dir\\");
}

#[test]
fn backslashes_do_not_open_a_label() {
    assert_eq!(md_label("C:\\"), "C:\\\\");
    assert_eq!(md_label("a\\]b"), "a\\\\\\]b");
    assert_eq!(md_label("a\\b"), "a\\b");
    let rows = vec![(
        "r".to_string(),
        json(r#"{"properties": {"N": {"type": "title", "title": [{"plain_text": "C:\\ a|b"}]}}}"#),
    )];
    assert!(render_table(&rows).ends_with("| [C:\\ a\\|b](r/index.md) |"));
}

#[test]
fn yaml_scalars_hold_no_control_characters() {
    assert_eq!(yaml_scalar("a\u{7}b"), "\"a\\u0007b\"");
    assert_eq!(yaml_scalar("\u{0}\u{1f}\u{7f}\u{85}\u{9f}"),
        "\"\\u0000\\u001F\\u007F\\u0085\\u009F\"");
    assert_eq!(yaml_scalar("\u{2028}\u{2029}\u{ffff}"), "\"\\u2028\\u2029\\uFFFF\"");
    assert_eq!(yaml_scalar("\u{a0}\u{e9}\u{1f4c4}"), "\"\u{a0}\u{e9}\u{1f4c4}\"");
}

#[test]
fn csv_fields_are_quoted_where_needed() {
    assert_eq!(csv_field("plain"), "plain");
    assert_eq!(csv_field("a,b"), "\"a,b\"");
    assert_eq!(csv_field("a\"b"), "\"a\"\"b\"");
    assert_eq!(csv_field("a\nb"), "\"a\nb\"");
    assert_eq!(csv_field("a\rb"), "\"a\rb\"");
    assert_eq!(csv_row(&vec!["a".to_string(), "b,c".to_string()]), "a,\"b,c\"\r\n");
    assert_eq!(csv_row(&vec![String::new(), String::new()]), ",\r\n");
    assert_eq!(csv_row(&Vec::new()), "\r\n");
}

#[test]
fn a_lone_empty_field_is_quoted() {
    assert_eq!(csv_row(&vec![String::new()]), "\"\"\r\n");
    let rows = vec![("r".to_string(), json("{}"))];
    assert_eq!(csv_of_rows(&rows), "_url\r\n\"\"\r\n");
}

#[test]
fn paths_are_percent_encoded() {
    assert_eq!(encode_path("a-b_c.d~e/F9"), "a-b_c.d~e/F9");
    assert_eq!(encode_path("a b(c)"), "a%20b%28c%29");
    assert_eq!(encode_path("\u{e9}\u{1F4C4}"), "%C3%A9%F0%9F%93%84");
    assert_eq!(encode_path("%"), "%25");
}

#[test]
fn relative_paths_go_up_and_down() {
    assert_eq!(relative_path(&path("a/b"), &path("a/c/index.md")), "../c/index.md");
    assert_eq!(relative_path(&path("a"), &path("a/index.md")), "index.md");
    assert_eq!(relative_path(&path(""), &path("x/index.md")), "x/index.md");
    assert_eq!(relative_path(&path("a/b"), &path("index.md")), "../../index.md");
    assert_eq!(relative_path(&path("a"), &path("a")), ".");
}

fn rows() -> Vec<(String, Json)> {
    vec![
        (
            "r 1".to_string(),
            json(
                r#"{"url": "u1", "properties": {
                    "N": {"type": "title", "title": [{"plain_text": "[a]|"}]},
                    "X": {"type": "number", "number": 1}}}"#,
            ),
        ),
        (
            "r2".to_string(),
            json(
                r#"{"properties": {
                    "Y": {"type": "rich_text", "rich_text": [{"plain_text": "p|q\nr"}]},
                    "X": {"type": "number", "number": 2}}}"#,
            ),
        ),
    ]
}

#[test]
fn columns_come_in_order_of_first_use() {
    assert_eq!(value_columns(&rows(), true), vec!["N", "X", "Y"]);
    assert_eq!(value_columns(&rows(), false), vec!["X", "Y"]);
}

#[test]
fn tables_link_their_rows() {
    assert_eq!(
        render_table(&rows()),
        "| Name | X | Y |\n| --- | --- | --- |\n\
         | [\\[a\\]\\|](r%201/index.md) | 1 |  |\n\
         | [Untitled](r2/index.md) | 2 | p\\|q r |"
    );
    assert_eq!(render_table(&Vec::new()), "_No rows._");
}

#[test]
fn the_csv_index_has_every_column() {
    assert_eq!(
        csv_of_rows(&rows()),
        "_url,N,X,Y\r\nu1,[a]|,1,\r\n,,2,\"p|q\nr\"\r\n"
    );
    assert_eq!(csv_of_rows(&Vec::new()), "");
}

#[test]
fn databases_have_no_properties_in_front() {
    let db = json(
        r#"{"object": "database", "id": "d", "properties": {"X": {"type": "number", "number": {}}}}"#,
    );
    assert_eq!(
        front_matter(&db, "T"),
        "---\ntitle: \"T\"\nid: \"d\"\nobject: \"database\"\nurl: \"\"\ncreated_time: \"\"\n\
         last_edited_time: \"\"\n---"
    );
}

#[test]
fn paths_sort_by_component() {
    assert!(path_comes_first(&path("a"), &path("a/b")));
    assert!(path_comes_first(&path("a/b"), &path("a-b")));
    assert!(!path_comes_first(&path("b"), &path("a/z")));
    let keys = vec![path("b"), path("a/b"), path("b"), path("a"), path("")];
    assert_eq!(sort_order(&keys), vec![4, 3, 1, 0, 2]);
}
