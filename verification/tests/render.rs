//! The render stage: JSON tree -> Markdown/CSV.

use notion_backup::json::Json;
use notion_backup::render::{stray_rows, MarkdownRenderer, NodeDir, NodeFile, Output, Rendering};

fn json(text: &str) -> Json {
    Json::parse(text).unwrap()
}

fn path(text: &str) -> Vec<String> {
    if text.is_empty() {
        Vec::new()
    } else {
        text.split('/').map(|p| p.to_string()).collect()
    }
}

fn page(dir: &str, payload: &str) -> NodeDir {
    NodeDir {
        dir: path(dir),
        page: NodeFile::Loaded(json(payload)),
        database: NodeFile::Missing,
        strays: Vec::new(),
    }
}

fn database(dir: &str, payload: &str) -> NodeDir {
    NodeDir {
        dir: path(dir),
        page: NodeFile::Missing,
        database: NodeFile::Loaded(json(payload)),
        strays: Vec::new(),
    }
}

fn bare(dir: &str) -> NodeDir {
    NodeDir {
        dir: path(dir),
        page: NodeFile::Missing,
        database: NodeFile::Missing,
        strays: Vec::new(),
    }
}

fn title_prop(text: &str) -> String {
    format!(r#""Name": {{"type": "title", "title": [{{"plain_text": "{text}"}}]}}"#)
}

fn render(dirs: &Vec<NodeDir>) -> Rendering {
    MarkdownRenderer::new("json".to_string(), "markdown".to_string()).run(Some(dirs))
}

/// The text of a rendered file.
fn find(rendering: &Rendering, wanted: &str) -> Option<String> {
    for output in &rendering.outputs {
        if let Output::File(dir, name, text) = output {
            let mut full = dir.clone();
            full.push(name.clone());
            if full.join("/") == wanted {
                return Some(text.clone());
            }
        }
    }
    None
}

fn build_json_tree() -> Vec<NodeDir> {
    let mut dirs = vec![
        bare(""),
        page(
            "My Page",
            &format!(
                r#"{{
            "object": "page",
            "data": {{"id": "p1", "url": "https://notion.so/p1", "properties": {{{}}}}},
            "blocks": [{{"type": "paragraph", "paragraph": {{"rich_text": [{{"plain_text": "Hello", "annotations": {{}}}}]}}}}]
        }}"#,
                title_prop("My Page")
            ),
        ),
        database(
            "Tasks",
            r#"{"object": "database", "data": {"id": "db1", "title": [{"plain_text": "Tasks"}]}, "row_order": ["Row A", "Row B"]}"#,
        ),
    ];
    for (name, status) in [("Row A", "Open"), ("Row B", "Done")] {
        dirs.push(page(
            &format!("Tasks/{name}"),
            &format!(
                r#"{{"object": "page", "data": {{"id": "{name}", "url": "https://notion.so/{name}", "properties": {{{}, "Status": {{"type": "select", "select": {{"name": "{status}"}}}}}}}}, "blocks": []}}"#,
                title_prop(name)
            ),
        ));
    }
    dirs
}

#[test]
fn render_produces_markdown_and_csv() {
    let out = render(&build_json_tree());
    assert!(out.failure.is_none());

    let page_md = find(&out, "My Page/index.md").unwrap();
    assert!(page_md.contains("# My Page"));
    assert!(page_md.contains("Hello"));
    assert!(page_md.contains("id: \"p1\""));

    let csv_text = find(&out, "Tasks/_index.csv").unwrap();
    let lines: Vec<&str> = csv_text.lines().collect();
    assert_eq!(lines[0], "_url,Name,Status");
    assert_eq!(lines[1], "https://notion.so/Row A,Row A,Open");
    assert_eq!(lines[2], "https://notion.so/Row B,Row B,Done");

    // Rows are also rendered as their own Markdown pages.
    assert!(find(&out, "Tasks/Row A/index.md").is_some());

    // A top-level README links to each root page/database.
    let readme = find(&out, "README.md").unwrap();
    assert!(readme.contains("# Notion backup"));
    assert!(readme.contains("[My Page](My%20Page/index.md)"));
    assert!(readme.contains("[Tasks](Tasks/index.md)"));

    // The database index.md renders rows as a Markdown table with URL-encoded links.
    let db_md = find(&out, "Tasks/index.md").unwrap();
    assert!(db_md.contains("| Name | Status |"));
    assert!(db_md.contains("| --- | --- |"));
    assert!(db_md.contains("[Row A](Row%20A/index.md)"));
    assert!(db_md.contains("| Open |"));
}

#[test]
fn resolved_links_are_url_encoded() {
    let id_a = "aaaaaaaaaaaaaaaaaaaaaaaaaaaaaaaa";
    let id_b = "bbbbbbbbbbbbbbbbbbbbbbbbbbbbbbbb";
    let dirs = vec![
        page(
            "A",
            &format!(
                r#"{{"object": "page", "data": {{"id": "{id_a}", "object": "page", "properties": {{{}}}}},
         "blocks": [{{"type": "paragraph", "paragraph": {{"rich_text": [
             {{"plain_text": "B", "annotations": {{}}, "href": "https://notion.so/{id_b}"}}]}}}}]}}"#,
                title_prop("A")
            ),
        ),
        page(
            "B Folder",
            &format!(
                r#"{{"object": "page", "data": {{"id": "{id_b}", "object": "page", "properties": {{{}}}}}, "blocks": []}}"#,
                title_prop("B")
            ),
        ),
    ];

    let md_a = find(&render(&dirs), "A/index.md").unwrap();
    assert!(md_a.contains("[B](../B%20Folder/index.md)"));
}

#[test]
fn frontmatter_includes_properties_and_links_are_relative() {
    let id_a = "aaaaaaaaaaaaaaaaaaaaaaaaaaaaaaaa";
    let id_b = "bbbbbbbbbbbbbbbbbbbbbbbbbbbbbbbb";
    let dirs = vec![
        page(
            "A",
            &format!(
                r#"{{
            "object": "page",
            "data": {{"id": "{id_a}", "object": "page", "url": "https://notion.so/A", "properties": {{{}, "Status": {{"type": "select", "select": {{"name": "Active"}}}}}}}},
            "blocks": [{{"type": "paragraph", "paragraph": {{"rich_text": [
                {{"plain_text": "go to B", "annotations": {{}}, "href": "https://notion.so/B-{id_b}"}}
            ]}}}}]
        }}"#,
                title_prop("Page A")
            ),
        ),
        page(
            "B",
            &format!(
                r#"{{"object": "page", "data": {{"id": "{id_b}", "object": "page", "url": "https://notion.so/B", "properties": {{{}}}}}, "blocks": []}}"#,
                title_prop("Page B")
            ),
        ),
    ];

    let md_a = find(&render(&dirs), "A/index.md").unwrap();

    assert!(md_a.contains("properties:"));
    assert!(md_a.contains("\"Status\": \"Active\""));
    assert!(md_a.contains("[go to B](../B/index.md)"));
}

#[test]
fn render_without_json_tree_raises() {
    let result = MarkdownRenderer::new("missing".to_string(), "md".to_string()).run(None);
    assert!(result.failure.is_some());
    assert!(result.outputs.is_empty());
    assert_eq!(
        result.failure.unwrap(),
        "No JSON tree at missing; run the dump stage first."
    );
}

#[test]
fn the_whole_page_is_exact() {
    let dirs = vec![page(
        "P",
        r#"{"data": {"id": "p", "object": "page", "url": "u", "created_time": "c",
            "last_edited_time": "l", "properties": {
                "Name": {"type": "title", "title": [{"plain_text": "T \"q\""}]},
                "Note": {"type": "rich_text", "rich_text": [{"plain_text": "a\nb\t\\"}]}}},
            "blocks": [{"type": "divider", "divider": {}}]}"#,
    )];
    assert_eq!(
        find(&render(&dirs), "P/index.md").unwrap(),
        "---\ntitle: \"T \\\"q\\\"\"\nid: \"p\"\nobject: \"page\"\nurl: \"u\"\n\
         created_time: \"c\"\nlast_edited_time: \"l\"\nproperties:\n  \
         \"Note\": \"a\\nb\\t\\\\\"\n---\n# T \"q\"\n\n---\n"
    );
}

#[test]
fn outputs_come_in_order() {
    let dirs = vec![
        page("b/c", r#"{"data": {}}"#),
        bare(""),
        page(".hidden", r#"{"data": {}}"#),
        bare("b"),
        database("a", r#"{"data": {}}"#),
    ];
    let out = render(&dirs);
    let names: Vec<String> = out
        .outputs
        .iter()
        .map(|o| match o {
            Output::Reset => "reset".to_string(),
            Output::Dir(dir) => format!("{}/", dir.join("/")),
            Output::File(dir, name, _) => format!("{}:{}", dir.join("/"), name),
        })
        .collect();
    assert_eq!(
        names,
        vec![
            "reset",
            "a/",
            "a:_index.csv",
            "a:index.md",
            "b/",
            "b/c/",
            "b/c:index.md",
            ":README.md"
        ]
    );
}

#[test]
fn an_unreadable_node_ends_the_rendering() {
    let mut dirs = vec![page("a", r#"{"data": {}}"#), bare("b"), page("c", r#"{"data": {}}"#)];
    dirs[1].page = NodeFile::Unreadable("bad".to_string());
    let out = render(&dirs);
    assert_eq!(out.failure.as_deref(), Some("bad"));
    assert!(find(&out, "a/index.md").is_some());
    assert!(find(&out, "c/index.md").is_none());
    assert!(find(&out, "README.md").is_none());
}

#[test]
fn an_empty_database_has_no_rows() {
    let dirs = vec![database("d", r#"{"data": {}, "row_order": ["gone"]}"#)];
    let out = render(&dirs);
    assert_eq!(find(&out, "d/_index.csv").unwrap(), "");
    assert_eq!(
        find(&out, "d/index.md").unwrap(),
        "---\ntitle: \"untitled-database\"\nid: \"\"\nobject: \"\"\nurl: \"\"\n\
         created_time: \"\"\nlast_edited_time: \"\"\n---\n# untitled-database\n\n\
         0 rows - full data in [`_index.csv`](_index.csv).\n\n_No rows._\n"
    );
}

#[test]
fn row_names_with_slashes_are_paths() {
    let dirs = vec![
        database("D", r#"{"data": {}, "row_order": ["a/b-Row", "./c"]}"#),
        page("D/a/b-Row", &format!(r#"{{"data": {{"properties": {{{}}}}}}}"#, title_prop("R"))),
        page("D/c", &format!(r#"{{"data": {{"properties": {{{}}}}}}}"#, title_prop("S"))),
    ];
    let out = render(&dirs);
    let md = find(&out, "D/index.md").unwrap();
    assert!(md.contains("| [R](a/b-Row/index.md) |"));
    assert!(md.contains("| [S](./c/index.md) |"));
    assert_eq!(find(&out, "D/_index.csv").unwrap(), "_url,Name\r\n,R\r\n,S\r\n");
}

#[test]
fn row_names_may_lead_elsewhere() {
    let payload = r#"{"data": {}, "row_order": ["../E/r", "s", "/t", "../gone", "u/.."]}"#;
    assert_eq!(stray_rows(&json(payload)), vec!["../E/r", "/t", "../gone", "u/.."]);
    let titled = |title: &str| {
        json(&format!(r#"{{"data": {{"properties": {{{}}}}}}}"#, title_prop(title)))
    };
    let mut dirs = vec![
        database("D", payload),
        page("D/s", &format!(r#"{{"data": {{"properties": {{{}}}}}}}"#, title_prop("S"))),
        // A name with a leading slash does not lead here.
        page("D/t", &format!(r#"{{"data": {{"properties": {{{}}}}}}}"#, title_prop("Not T"))),
    ];
    dirs[0].strays = vec![
        ("../E/r".to_string(), NodeFile::Loaded(titled("R"))),
        ("/t".to_string(), NodeFile::Loaded(titled("T"))),
        ("../gone".to_string(), NodeFile::Missing),
        // A torn row counts, with nothing in it.
        ("u/..".to_string(), NodeFile::Unreadable("torn".to_string())),
    ];
    let out = render(&dirs);
    assert!(out.failure.is_none());
    assert_eq!(find(&out, "D/_index.csv").unwrap(), "_url,Name\r\n,R\r\n,S\r\n,T\r\n,\r\n");
    let md = find(&out, "D/index.md").unwrap();
    assert!(md.contains("| [R](../E/r/index.md) |"));
    assert!(md.contains("| [T](/t/index.md) |"));
}

#[test]
fn the_readme_is_sorted_by_title_whatever_the_case() {
    let titled = |dir: &str, title: &str| {
        page(dir, &format!(r#"{{"data": {{"properties": {{{}}}}}}}"#, title_prop(title)))
    };
    let dirs = vec![titled("1", "beta"), titled("2", "Alpha"), titled("3", "\u{c9}tude"),
        database("4", r#"{"data": {"title": [{"plain_text": "ALPHA"}]}}"#)];
    assert_eq!(
        find(&render(&dirs), "README.md").unwrap(),
        "# Notion backup\n\nMarkdown render of the Notion workspace. Root pages:\n\n\
         - \u{1F4C4} [Alpha](2/index.md)\n- \u{1F4CA} [ALPHA](4/index.md)\n\
         - \u{1F4C4} [beta](1/index.md)\n- \u{1F4C4} [\u{c9}tude](3/index.md)\n"
    );
    assert!(find(&render(&Vec::new()), "README.md").unwrap().ends_with("\n_No pages found._\n"));
}

#[test]
fn lower_case_goes_beyond_ascii() {
    let titled = |dir: &str, title: &str| {
        page(dir, &format!(r#"{{"data": {{"properties": {{{}}}}}}}"#, title_prop(title)))
    };
    // In lower case the accented letter comes before the other one; in upper case it would not.
    let dirs = vec![titled("1", "\u{e0}"), titled("2", "\u{c0}b"), titled("3", "\u{c0}")];
    let readme = find(&render(&dirs), "README.md").unwrap();
    let lines: Vec<&str> = readme.lines().skip(4).collect();
    assert_eq!(
        lines,
        vec![
            "- \u{1F4C4} [\u{e0}](1/index.md)",
            "- \u{1F4C4} [\u{c0}](3/index.md)",
            "- \u{1F4C4} [\u{c0}b](2/index.md)"
        ]
    );
}

#[test]
fn of_two_nodes_with_one_id_the_later_is_linked() {
    let id = "cccccccccccccccccccccccccccccccc";
    let dirs = vec![
        page("x/y", &format!(r#"{{"data": {{"id": "{id}"}}}}"#)),
        page("w", &format!(r#"{{"data": {{"id": "{id}"}}}}"#)),
        page(
            "z",
            &format!(
                r#"{{"data": {{}}, "blocks": [{{"type": "link_to_page", "link_to_page": {{"type": "page_id", "page_id": "{id}"}}}}]}}"#
            ),
        ),
    ];
    assert!(find(&render(&dirs), "z/index.md")
        .unwrap()
        .contains("- \u{1F517} [untitled](../x/y/index.md)"));
}
