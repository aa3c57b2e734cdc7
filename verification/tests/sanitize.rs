//! Stripping of volatile fields (request_id, signed file URLs/expiry), and the node files.

use notion_backup::dump::{
    make_page_node, node_text, progress_line, sanitize, shorten, stored_blocks,
};
use notion_backup::json::Json;

fn json(text: &str) -> Json {
    Json::parse(text).unwrap()
}

#[test]
fn removes_request_id_anywhere() {
    let payload = json(
        r#"{"object": "page", "request_id": "abc", "data": {"id": "1", "request_id": "x"}}"#,
    );
    assert_eq!(
        sanitize(payload),
        json(r#"{"object": "page", "data": {"id": "1"}}"#)
    );
}

#[test]
fn strips_signed_file_url_and_expiry() {
    let block = json(
        r#"{"type": "image", "image": {"type": "file", "file": {
        "url": "https://prod-files.s3/...?X-Amz-Signature=deadbeef",
        "expiry_time": "2026-06-25T12:00:00.000Z"
    }}}"#,
    );
    assert_eq!(
        sanitize(block),
        json(r#"{"type": "image", "image": {"type": "file", "file": {}}}"#)
    );
}

#[test]
fn strips_signed_url_in_files_property() {
    let prop = json(
        r#"{"type": "files", "files": [
        {"name": "a.pdf", "type": "file", "file": {"url": "https://s3/x?sig", "expiry_time": "t"}}
    ]}"#,
    );
    let clean = sanitize(prop);
    assert_eq!(
        clean.items_at("files").unwrap()[0],
        json(r#"{"name": "a.pdf", "type": "file", "file": {}}"#)
    );
}

#[test]
fn keeps_external_url_without_expiry() {
    let cover =
        json(r#"{"type": "external", "external": {"url": "https://example.com/banner.png"}}"#);
    assert_eq!(sanitize(cover.duplicate()), cover);
}

#[test]
fn keeps_page_permalink_url() {
    // The page-level url has no expiry_time sibling, so it must survive.
    let data = json(r#"{"id": "1", "url": "https://notion.so/My-Page-1"}"#);
    assert_eq!(sanitize(data.duplicate()), data);
}

#[test]
fn sanitizing_again_changes_nothing() {
    let once = sanitize(json(
        r#"[{"url": "u", "expiry_time": "t", "request_id": 1, "x": [{"request_id": 2, "y": 3}]}]"#,
    ));
    assert_eq!(once, json(r#"[{"x": [{"y": 3}]}]"#));
    assert_eq!(sanitize(once.duplicate()), once);
}

#[test]
fn a_lone_expiry_time_stays() {
    let v = json(r#"{"expiry_time": "t"}"#);
    assert_eq!(sanitize(v.duplicate()), v);
}

#[test]
fn node_files_are_indented_and_read_back() {
    let page = json(r#"{"id": "1", "request_id": "r", "n": -3}"#);
    let blocks = vec![json(r#"{"type": "divider"}"#)];
    let text = node_text(make_page_node(page, blocks));
    assert_eq!(
        text,
        "{\n  \"object\": \"page\",\n  \"data\": {\n    \"id\": \"1\",\n    \"n\": -3\n  },\n  \
         \"blocks\": [\n    {\n      \"type\": \"divider\"\n    }\n  ]\n}\n"
    );
    let back = json(&text);
    assert_eq!(
        back,
        json(r#"{"object": "page", "data": {"id": "1", "n": -3}, "blocks": [{"type": "divider"}]}"#)
    );
    assert_eq!(stored_blocks(&back), vec![json(r#"{"type": "divider"}"#)]);
    assert_eq!(stored_blocks(&json("{}")), Vec::<Json>::new());
}

#[test]
fn text_that_is_no_json_is_refused() {
    assert!(Json::parse("{").is_err());
    assert!(Json::parse("").is_err());
    assert!(!Json::parse("nope").unwrap_err().is_empty());
}

#[test]
fn the_last_of_two_equal_keys_counts() {
    assert_eq!(json(r#"{"a": 1, "b": 2, "a": 3}"#), json(r#"{"a": 3, "b": 2}"#));
}

#[test]
fn numbers_keep_their_text() {
    assert_eq!(json("18446744073709551615").number().unwrap(), "18446744073709551615");
    assert_eq!(Json::integer(42).number().unwrap(), "42");
    assert_eq!(json("0.25").number().unwrap(), "0.25");
    assert_eq!(Json::Null.number(), None);
}

#[test]
fn long_titles_are_shortened() {
    assert_eq!(shorten(" a\nb ", 60), "a b");
    assert_eq!(shorten("abcdef", 4), "abc\u{2026}");
    assert_eq!(shorten("abcd", 4), "abcd");
    assert_eq!(shorten("ab", 1), "\u{2026}");
}

#[test]
fn progress_is_reported_on_one_line() {
    assert_eq!(
        progress_line(42, 310, "fetched", "page", "Project Plan"),
        "[42/310] fetched page: Project Plan"
    );
}
