//! The block -> Markdown converter.

use notion_backup::blocks::{
    block_to_md, blocks_to_md, plain_text, rich_text_to_md, Resolve, CHILD_KEY,
};
use notion_backup::json::Json;

fn json(text: &str) -> Json {
    Json::parse(text).unwrap()
}

fn block(btype: &str, data: &str) -> Json {
    json(&format!("{{\"type\": \"{btype}\", \"{btype}\": {data}}}"))
}

fn with_children(block: Json, children: Vec<Json>) -> Json {
    let mut pairs = Vec::new();
    let fields = block.as_object().unwrap();
    for i in 0..fields.len() {
        pairs.push((fields.key(i).to_string(), fields.value(i).duplicate()));
    }
    pairs.push((CHILD_KEY.to_string(), Json::array(children)));
    Json::object(pairs)
}

/// Pretends that any reference mentioning "tid" is a known local page.
struct Tid;

impl Resolve for Tid {
    fn resolve(&self, reference: &str) -> Option<(String, String)> {
        if reference.contains("tid") {
            Some(("../Target/index.md".to_string(), "Target Page".to_string()))
        } else {
            None
        }
    }
}

const NONE: Option<&Tid> = None;

#[test]
fn rich_text_annotations() {
    let spans = json(
        r#"[
        {"plain_text": "bold", "annotations": {"bold": true}},
        {"plain_text": " and ", "annotations": {}},
        {"plain_text": "code", "annotations": {"code": true}}
    ]"#,
    );
    assert_eq!(rich_text_to_md(Some(&spans), NONE), "**bold** and `code`");
}

#[test]
fn rich_text_link() {
    let spans = json(r#"[{"plain_text": "SPL", "annotations": {}, "href": "https://spl.nl"}]"#);
    assert_eq!(rich_text_to_md(Some(&spans), NONE), "[SPL](https://spl.nl)");
}

#[test]
fn plain_text_strips_formatting() {
    let spans = json(r#"[{"plain_text": "Hello "}, {"plain_text": "world"}]"#);
    assert_eq!(plain_text(Some(&spans)), "Hello world");
}

#[test]
fn headings() {
    let b = block(
        "heading_2",
        r#"{"rich_text": [{"plain_text": "Title", "annotations": {}}]}"#,
    );
    assert_eq!(block_to_md(&b, 0, NONE), "## Title");
}

#[test]
fn bulleted_list_item() {
    let b = block(
        "bulleted_list_item",
        r#"{"rich_text": [{"plain_text": "item", "annotations": {}}]}"#,
    );
    assert_eq!(block_to_md(&b, 0, NONE), "- item");
}

#[test]
fn to_do_checked() {
    let b = block(
        "to_do",
        r#"{"checked": true, "rich_text": [{"plain_text": "done", "annotations": {}}]}"#,
    );
    assert_eq!(block_to_md(&b, 0, NONE), "- [x] done");
}

#[test]
fn code_block_fenced() {
    let b = block(
        "code",
        r#"{"language": "python", "rich_text": [{"plain_text": "print(1)"}]}"#,
    );
    assert_eq!(block_to_md(&b, 0, NONE), "```python\nprint(1)\n```");
}

#[test]
fn nested_children_indented() {
    let parent = with_children(
        block(
            "bulleted_list_item",
            r#"{"rich_text": [{"plain_text": "parent", "annotations": {}}]}"#,
        ),
        vec![block(
            "bulleted_list_item",
            r#"{"rich_text": [{"plain_text": "child", "annotations": {}}]}"#,
        )],
    );
    assert_eq!(block_to_md(&parent, 0, NONE), "- parent\n  - child");
}

#[test]
fn table_renders_with_separator() {
    let table = with_children(
        block("table", r#"{"has_column_header": true}"#),
        vec![
            json(
                r#"{"type": "table_row", "table_row": {"cells": [
            [{"plain_text": "A", "annotations": {}}],
            [{"plain_text": "B", "annotations": {}}]
        ]}}"#,
            ),
            json(
                r#"{"type": "table_row", "table_row": {"cells": [
            [{"plain_text": "1", "annotations": {}}],
            [{"plain_text": "2", "annotations": {}}]
        ]}}"#,
            ),
        ],
    );
    assert_eq!(
        block_to_md(&table, 0, NONE),
        "| A | B |\n| --- | --- |\n| 1 | 2 |"
    );
}

#[test]
fn rich_text_link_localized_with_resolver() {
    let spans = json(
        r#"[{"plain_text": "see", "annotations": {}, "href": "https://notion.so/x-tid"}]"#,
    );
    assert_eq!(
        rich_text_to_md(Some(&spans), Some(&Tid)),
        "[see](../Target/index.md)"
    );
}

#[test]
fn rich_text_link_external_kept_without_resolver() {
    let spans =
        json(r#"[{"plain_text": "see", "annotations": {}, "href": "https://example.com/x"}]"#);
    assert_eq!(
        rich_text_to_md(Some(&spans), NONE),
        "[see](https://example.com/x)"
    );
}

#[test]
fn child_page_links_with_resolver() {
    let b = json(r#"{"type": "child_page", "id": "tid", "child_page": {"title": "Sub"}}"#);
    assert_eq!(
        block_to_md(&b, 0, Some(&Tid)),
        "- \u{1F4C4} [Sub](../Target/index.md)"
    );
}

#[test]
fn child_page_plain_without_resolver() {
    let b = json(r#"{"type": "child_page", "id": "tid", "child_page": {"title": "Sub"}}"#);
    assert_eq!(block_to_md(&b, 0, NONE), "- \u{1F4C4} Sub");
}

#[test]
fn link_to_page_uses_target_title() {
    let b = json(
        r#"{"type": "link_to_page", "link_to_page": {"type": "page_id", "page_id": "tid"}}"#,
    );
    assert_eq!(
        block_to_md(&b, 0, Some(&Tid)),
        "- \u{1F517} [Target Page](../Target/index.md)"
    );
}

#[test]
fn unknown_block_falls_back_to_comment() {
    let b = block("some_future_type", r#"{"foo": "bar"}"#);
    assert_eq!(
        block_to_md(&b, 0, NONE),
        "<!-- unhandled block type: some_future_type -->"
    );
}

#[test]
fn blocks_to_md_joins_and_skips_empty() {
    let blocks = vec![
        block(
            "paragraph",
            r#"{"rich_text": [{"plain_text": "one", "annotations": {}}]}"#,
        ),
        block("paragraph", r#"{"rich_text": []}"#), // empty -> skipped
        block(
            "paragraph",
            r#"{"rich_text": [{"plain_text": "two", "annotations": {}}]}"#,
        ),
    ];
    assert_eq!(blocks_to_md(&blocks, 0, NONE), "one\ntwo");
}

fn rich(text: &str) -> String {
    format!(r#"{{"rich_text": [{{"plain_text": "{text}"}}]}}"#)
}

#[test]
fn every_block_type_has_its_markdown() {
    let md = |btype: &str, data: &str, depth: usize| block_to_md(&block(btype, data), depth, NONE);
    assert_eq!(md("paragraph", &rich("p"), 1), "  p");
    assert_eq!(md("heading_1", &rich("h"), 2), "# h");
    assert_eq!(md("heading_3", &rich("h"), 0), "### h");
    assert_eq!(md("numbered_list_item", &rich("n"), 1), "  1. n");
    assert_eq!(md("to_do", &rich("t"), 0), "- [ ] t");
    assert_eq!(md("toggle", &rich("t"), 0), "- t");
    assert_eq!(md("quote", &rich("q"), 0), "> q");
    assert_eq!(md("divider", "{}", 3), "---");
    assert_eq!(md("equation", r#"{"expression": "e=mc^2"}"#, 0), "$$\ne=mc^2\n$$");
    assert_eq!(md("unsupported", "{}", 1), "  <!-- unsupported block -->");
    assert_eq!(
        md(
            "callout",
            r#"{"icon": {"type": "emoji", "emoji": "!"}, "rich_text": [{"plain_text": "c"}]}"#,
            0
        ),
        "> ! c"
    );
    assert_eq!(md("callout", r#"{"icon": {"type": "file"}, "rich_text": []}"#, 0), "> ");
}

#[test]
fn media_and_bookmarks_are_links() {
    let md = |btype: &str, data: &str| block_to_md(&block(btype, data), 0, NONE);
    assert_eq!(
        md("image", r#"{"type": "external", "external": {"url": "u"}}"#),
        "![image](u)"
    );
    assert_eq!(
        md("pdf", r#"{"type": "file", "file": {"url": "u"}, "caption": [{"plain_text": "c"}]}"#),
        "[c](u)"
    );
    assert_eq!(md("video", "{}"), "<!-- video (no url) -->");
    assert_eq!(md("bookmark", r#"{"url": "u"}"#), "[u](u)");
    assert_eq!(md("bookmark", "{}"), "");
}

#[test]
fn annotations_nest_around_code() {
    let spans = json(
        r#"[{"plain_text": "x", "annotations":
            {"code": true, "bold": true, "italic": true, "strikethrough": true}},
            {"plain_text": ""}, {"plain_text": 5}]"#,
    );
    assert_eq!(rich_text_to_md(Some(&spans), NONE), "~~***`x`***~~");
    assert_eq!(rich_text_to_md(None, NONE), "");
}

#[test]
fn mentions_resolve_by_their_page() {
    let spans = json(
        r#"[{"plain_text": "m", "mention": {"type": "page", "page": {"id": "tid"}}},
            {"plain_text": "n", "mention": {"type": "page", "page": {"id": "other"}}},
            {"plain_text": "o", "mention": {"type": "user"}, "href": "h"}]"#,
    );
    assert_eq!(rich_text_to_md(Some(&spans), Some(&Tid)), "[m](../Target/index.md)n[o](h)");
}

#[test]
fn tables_are_filled_up() {
    let row = |cells: &str| json(&format!(r#"{{"table_row": {{"cells": {cells}}}}}"#));
    let table = with_children(
        block("table", "{}"),
        vec![row("[]"), row(r#"[[{"plain_text": "a"}], []]"#), json("{}")],
    );
    assert_eq!(
        block_to_md(&table, 4, NONE),
        "|  |  |\n| --- | --- |\n| a |  |\n|  |  |"
    );
    assert_eq!(block_to_md(&block("table", "{}"), 0, NONE), "");
}

#[test]
fn children_stand_alone_below_a_silent_parent() {
    let parent = with_children(
        json(r#"{"type": "bookmark", "bookmark": {}}"#),
        vec![block("toggle", &rich("c"))],
    );
    assert_eq!(block_to_md(&parent, 0, NONE), "  - c");
    let known = json(r#"{"type": "child_database", "id": "tid", "child_database": {"title": ""}}"#);
    assert_eq!(
        block_to_md(&known, 1, Some(&Tid)),
        "  - \u{1F4CA} [Target Page](../Target/index.md)"
    );
    assert_eq!(block_to_md(&known, 1, NONE), "");
}
