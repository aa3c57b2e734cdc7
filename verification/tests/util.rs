//! The shared pure helpers.

use notion_backup::json::Json;
use notion_backup::util::{
    database_title, normalize_notion_id, page_title, property_to_text, slugify,
};

fn json(text: &str) -> Json {
    Json::parse(text).unwrap()
}

fn text_of(prop: &str) -> String {
    property_to_text(&json(prop))
}

#[test]
fn normalize_id_from_uuid() {
    assert_eq!(
        normalize_notion_id(Some("20a938a1-68e1-8045-a43f-c5dafa63e1cc")).as_deref(),
        Some("20a938a168e18045a43fc5dafa63e1cc")
    );
}

#[test]
fn normalize_id_from_url_strips_query() {
    let url = "https://www.notion.so/My-Page-20a938a168e18045a43fc5dafa63e1cc?v=abc123";
    assert_eq!(
        normalize_notion_id(Some(url)).as_deref(),
        Some("20a938a168e18045a43fc5dafa63e1cc")
    );
}

#[test]
fn normalize_id_returns_none_for_non_id() {
    assert_eq!(normalize_notion_id(Some("just text")), None);
    assert_eq!(normalize_notion_id(Some("")), None);
    assert_eq!(normalize_notion_id(None), None);
}

#[test]
fn slugify_replaces_unsafe_chars() {
    assert_eq!(slugify("Q3/Q4: Plans?"), "Q3 Q4 Plans");
}

#[test]
fn slugify_empty_defaults_to_untitled() {
    assert_eq!(slugify("   "), "untitled");
}

#[test]
fn property_select() {
    let prop = json(r#"{"type": "select", "select": {"name": "In progress"}}"#);
    assert_eq!(property_to_text(&prop), "In progress");
}

#[test]
fn property_multi_select() {
    let prop =
        json(r#"{"type": "multi_select", "multi_select": [{"name": "a"}, {"name": "b"}]}"#);
    assert_eq!(property_to_text(&prop), "a, b");
}

#[test]
fn property_date_range() {
    let prop =
        json(r#"{"type": "date", "date": {"start": "2026-01-01", "end": "2026-01-31"}}"#);
    assert_eq!(property_to_text(&prop), "2026-01-01 \u{2192} 2026-01-31");
}

#[test]
fn property_checkbox() {
    assert_eq!(
        property_to_text(&json(r#"{"type": "checkbox", "checkbox": true}"#)),
        "true"
    );
}

#[test]
fn property_number_zero() {
    assert_eq!(
        property_to_text(&json(r#"{"type": "number", "number": 0}"#)),
        "0"
    );
}

#[test]
fn property_empty_select_is_blank() {
    assert_eq!(
        property_to_text(&json(r#"{"type": "select", "select": null}"#)),
        ""
    );
}

#[test]
fn relation_with_schema_shaped_value_does_not_crash() {
    let prop = json(
        r#"{"type": "relation", "relation": {"single_property": {}, "type": "single_property"}}"#,
    );
    assert_eq!(property_to_text(&prop), "");
}

#[test]
fn verification_renders_state() {
    let prop = json(
        r#"{"type": "verification", "verification": {"state": "verified", "verified_by": null}}"#,
    );
    assert_eq!(property_to_text(&prop), "verified");
}

#[test]
fn people_empty_dict_is_blank() {
    assert_eq!(
        property_to_text(&json(r#"{"type": "people", "people": {}}"#)),
        ""
    );
}

#[test]
fn relation_list_of_ids_still_works() {
    let prop = json(r#"{"type": "relation", "relation": [{"id": "a"}, {"id": "b"}]}"#);
    assert_eq!(property_to_text(&prop), "a, b");
}

#[test]
fn page_title_extracted_from_title_property() {
    let page = json(
        r#"{
        "properties": {
            "Name": {"type": "title", "title": [{"plain_text": "My Page"}]},
            "Other": {"type": "rich_text", "rich_text": []}
        }
    }"#,
    );
    assert_eq!(page_title(&page), "My Page");
}

#[test]
fn ids_are_lowered_and_taken_from_the_end() {
    assert_eq!(
        normalize_notion_id(Some("https://notion.so/Face-20A938A168E18045A43FC5DAFA63E1CC#deadbeef"))
            .as_deref(),
        Some("20a938a168e18045a43fc5dafa63e1cc")
    );
    assert_eq!(normalize_notion_id(Some("20a938a168e18045a43fc5dafa63e1c")), None);
}

#[test]
fn normalizing_an_id_again_changes_nothing() {
    let id = normalize_notion_id(Some("20A938A1-68e1-8045-a43f-c5dafa63e1cc")).unwrap();
    assert_eq!(normalize_notion_id(Some(&id)), Some(id.clone()));
}

#[test]
fn slugs_collapse_trim_and_truncate() {
    assert_eq!(slugify("  a \t\n b\u{a0}c  "), "a b c");
    assert_eq!(slugify("...hidden..."), "hidden");
    assert_eq!(slugify("..."), "untitled");
    assert_eq!(slugify(". . ."), "untitled");
    assert_eq!(slugify(". .. ."), "untitled");
    assert_eq!(slugify(". .foo"), ".foo");
    assert_eq!(slugify(". ... ."), "...");
    assert_eq!(slugify(" . a.b . c. "), "a.b . c");
    let dotted = format!("{}.z", "y".repeat(79));
    assert_eq!(slugify(&dotted), format!("{}.", "y".repeat(79)));
    assert_eq!(slugify("a\\b:c*d?e\"f<g>h|i\u{1}j"), "a b c d e f g h i j");
    assert_eq!(slugify(&"x".repeat(100)), "x".repeat(80));
    let cut = format!("{} {}", "y".repeat(79), "z".repeat(20));
    assert_eq!(slugify(&cut), "y".repeat(79));
    assert_eq!(slugify("\u{e9}t\u{e9}"), "\u{e9}t\u{e9}");
}

#[test]
fn database_title_joins_spans() {
    let db = json(r#"{"title": [{"plain_text": "Ta"}, {"plain_text": "sks"}]}"#);
    assert_eq!(database_title(&db), "Tasks");
    assert_eq!(database_title(&json("{}")), "");
}

#[test]
fn scalars_are_written_bare() {
    assert_eq!(text_of(r#"{"type": "number", "number": 1.5}"#), "1.5");
    assert_eq!(text_of(r#"{"type": "number", "number": -7}"#), "-7");
    assert_eq!(text_of(r#"{"type": "odd", "odd": true}"#), "True");
    assert_eq!(text_of(r#"{"type": "odd", "odd": false}"#), "False");
    assert_eq!(text_of(r#"{"type": "odd", "odd": null}"#), "");
    assert_eq!(text_of(r#"{"type": "odd", "odd": "s"}"#), "s");
    assert_eq!(text_of(r#"{"type": "odd"}"#), "");
}

#[test]
fn other_values_are_written_as_compact_json() {
    assert_eq!(
        text_of(r#"{"type": "odd", "odd": {"b": [1, "x"], "a": null}}"#),
        r#"{"b":[1,"x"],"a":null}"#
    );
}

#[test]
fn every_kind_of_property_has_a_text() {
    assert_eq!(
        text_of(r#"{"type": "rich_text", "rich_text": [{"plain_text": "a"}, {"plain_text": "b"}]}"#),
        "ab"
    );
    assert_eq!(text_of(r#"{"type": "status", "status": {"name": "Open"}}"#), "Open");
    assert_eq!(text_of(r#"{"type": "checkbox", "checkbox": false}"#), "false");
    assert_eq!(text_of(r#"{"type": "url", "url": "https://x"}"#), "https://x");
    assert_eq!(text_of(r#"{"type": "email", "email": null}"#), "");
    assert_eq!(
        text_of(r#"{"type": "people", "people": [{"name": "N", "id": "1"}, {"id": "2"}, 3]}"#),
        "N, 2"
    );
    assert_eq!(
        text_of(r#"{"type": "files", "files": [{"name": "a.pdf"}, {"name": "b.pdf"}]}"#),
        "a.pdf, b.pdf"
    );
    assert_eq!(text_of(r#"{"type": "created_time", "created_time": "t"}"#), "t");
    assert_eq!(text_of(r#"{"type": "created_by", "created_by": {"id": "u"}}"#), "u");
    assert_eq!(
        text_of(r#"{"type": "unique_id", "unique_id": {"prefix": "T", "number": 12}}"#),
        "T12"
    );
    assert_eq!(text_of(r#"{"type": "date", "date": {"start": "s", "end": null}}"#), "s");
    assert_eq!(
        text_of(r#"{"type": "formula", "formula": {"type": "boolean", "boolean": true}}"#),
        "true"
    );
    assert_eq!(
        text_of(r#"{"type": "formula", "formula": {"type": "number", "number": 3}}"#),
        "3"
    );
    assert_eq!(
        text_of(r#"{"type": "formula", "formula": {"type": "date", "date": {"start": "s"}}}"#),
        "s"
    );
}

#[test]
fn rollups_flatten_their_items() {
    assert_eq!(
        text_of(
            r#"{"type": "rollup", "rollup": {"type": "array", "array": [
                {"type": "number", "number": 1},
                {"type": "select", "select": {"name": "x"}}]}}"#
        ),
        "1; x"
    );
    assert_eq!(
        text_of(r#"{"type": "rollup", "rollup": {"type": "number", "number": 9}}"#),
        "9"
    );
}
