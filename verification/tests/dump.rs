//! The JSON dumper: the 2025-09-03 data-source model, error resilience, and incremental
//! reuse/change-detection/deletion, driven over a tree in memory.

use std::cell::RefCell;
use std::collections::{BTreeMap, HashMap};

use notion_backup::client::{Api, ClientError};
use notion_backup::dump::{is_hidden, node_text, scan_prev_tree, stored_blocks, StoredNode};
use notion_backup::dumper::{answer, JsonDumper};
use notion_backup::json::Json;
use notion_backup::walk::{Notice, Reply, Request};

fn json(text: &str) -> Json {
    Json::parse(text).unwrap()
}

fn copies(list: &[Json]) -> Vec<Json> {
    list.iter().map(|v| v.duplicate()).collect()
}

/// Configurable in-memory stand-in covering pages, databases, data sources.
#[derive(Default)]
struct FakeApi {
    search_results: Vec<Json>,
    pages: HashMap<String, Json>,
    databases: HashMap<String, Json>,
    data_sources: HashMap<String, Vec<Json>>,
    blocks: HashMap<String, Vec<Json>>,
    fail_blocks: Vec<String>,
    block_calls: RefCell<Vec<String>>,
}

impl Api for FakeApi {
    fn search(&self) -> Result<Vec<Json>, ClientError> {
        Ok(copies(&self.search_results))
    }

    fn get_block_children(&self, block_id: &str) -> Result<Vec<Json>, ClientError> {
        self.block_calls.borrow_mut().push(block_id.to_string());
        if self.fail_blocks.iter().any(|b| b == block_id) {
            return Err(ClientError::Http(404));
        }
        Ok(self.blocks.get(block_id).map(|b| copies(b)).unwrap_or_default())
    }

    fn get_page(&self, page_id: &str) -> Result<Json, ClientError> {
        match self.pages.get(page_id) {
            Some(page) => Ok(page.duplicate()),
            None => Err(ClientError::Http(404)),
        }
    }

    fn get_database(&self, database_id: &str) -> Result<Json, ClientError> {
        match self.databases.get(database_id) {
            Some(db) => Ok(db.duplicate()),
            None => Err(ClientError::Http(403)),
        }
    }

    fn query_data_source(&self, data_source_id: &str) -> Result<Vec<Json>, ClientError> {
        Ok(self.data_sources.get(data_source_id).map(|r| copies(r)).unwrap_or_default())
    }
}

/// A tree in memory: the directories that are there, and the texts of their files.
#[derive(Default)]
struct Tree {
    root: Vec<String>,
    dirs: BTreeMap<Vec<String>, BTreeMap<String, String>>,
}

impl Tree {
    fn text(&self, path: &str) -> Option<&String> {
        let mut parts: Vec<String> = path.split('/').map(|p| p.to_string()).collect();
        let file = parts.pop().unwrap();
        self.dirs.get(&parts).and_then(|files| files.get(&file))
    }

    fn has_dir(&self, path: &str) -> bool {
        let parts: Vec<String> = path.split('/').map(|p| p.to_string()).collect();
        self.dirs.contains_key(&parts)
    }

    /// The directory that a path leads to.
    fn place(dir: &[String]) -> Vec<String> {
        let mut out: Vec<String> = Vec::new();
        for name in dir {
            if name == ".." {
                out.pop();
            } else {
                out.push(name.clone());
            }
        }
        out
    }

    fn stored(&self) -> Vec<StoredNode> {
        let mut out = Vec::new();
        for (dir, files) in self.dirs.iter().filter(|(dir, _)| dir.starts_with(&self.root)) {
            for name in ["database.json", "page.json"] {
                if let Some(text) = files.get(name) {
                    out.push(StoredNode { dir: dir.clone(), content: Json::parse(text).ok() });
                }
            }
        }
        out
    }

    fn remove(&mut self, dir: &[String]) {
        self.dirs.retain(|d, _| !d.starts_with(dir));
    }

    /// Runs a dump to its end; gives the lines that it reports.
    fn dump(&mut self, api: &FakeApi, incremental: bool) -> Result<Vec<String>, ClientError> {
        let mut dumper = JsonDumper::new(&self.root, incremental, &self.stored());
        let mut lines = Vec::new();
        let mut reply = Reply::Done;
        loop {
            let request = dumper.step(reply);
            if let Some(next) = answer(api, &request) {
                reply = next;
                continue;
            }
            reply = Reply::Done;
            match request {
                Request::Stored(dir) => {
                    let text = self.dirs.get(&Tree::place(&dir)).and_then(|f| f.get("page.json"));
                    let content = text.and_then(|t| Json::parse(t).ok());
                    reply = Reply::Stored(content.map(|c| stored_blocks(&c)));
                }
                Request::MakeDir(dir) => {
                    self.dirs.entry(Tree::place(&dir)).or_default();
                }
                Request::Clean => {
                    let root = &self.root;
                    self.dirs.retain(|d, _| {
                        !d.starts_with(root) || d == root || is_hidden(&d[root.len()])
                    });
                }
                Request::Write(dir, file, content) => {
                    let files = self.dirs.get_mut(&Tree::place(&dir)).unwrap();
                    files.insert(file, node_text(content));
                }
                Request::Report(line) => lines.push(line),
                Request::Remove(dir) => self.remove(&dir),
                Request::Failed(e) => return Err(e),
                Request::Finished => return Ok(lines),
                _ => {}
            }
        }
    }
}

fn row(page_id: &str, title: &str, ds_id: &str) -> Json {
    json(&format!(
        r#"{{
        "object": "page", "id": "{page_id}", "last_edited_time": "2026-01-01T00:00:00.000Z",
        "url": "https://notion.so/{page_id}",
        "parent": {{"type": "data_source_id", "data_source_id": "{ds_id}"}},
        "properties": {{"Name": {{"type": "title", "title": [{{"plain_text": "{title}"}}]}}}}
    }}"#
    ))
}

fn data_source(id: &str, db: &str) -> Json {
    json(&format!(
        r#"{{"object": "data_source", "id": "{id}", "parent": {{"type": "database_id", "database_id": "{db}"}}}}"#
    ))
}

#[test]
fn data_source_is_dumped_as_database_not_page() {
    let mut tree = Tree::default();
    let (ds_id, db_id) = ("ds1", "db1");
    let mut api = FakeApi::default();
    // /search returns a data_source object (never a database) under 2025-09-03.
    api.search_results = vec![data_source(ds_id, db_id)];
    api.databases.insert(
        db_id.to_string(),
        json(
            r#"{
            "object": "database", "id": "db1", "title": [{"plain_text": "Tasks"}],
            "parent": {"type": "workspace", "workspace": true},
            "data_sources": [{"id": "ds1", "name": "Tasks"}]
        }"#,
        ),
    );
    api.data_sources.insert(ds_id.to_string(), vec![row("r1", "First", ds_id)]);
    api.blocks.insert("r1".to_string(), vec![]);

    tree.dump(&api, false).unwrap();

    assert!(tree.text("db1-Tasks/database.json").is_some());
    assert!(tree.text("db1-Tasks/r1-First/page.json").is_some());
    // The data source id must never be treated as a block (that was the 404 bug).
    assert!(!api.block_calls.borrow().contains(&ds_id.to_string()));
}

#[test]
fn data_source_in_query_results_is_not_dumped_as_a_page() {
    let mut tree = Tree::default();
    let (ds, db) = ("ds1", "db1");
    let (sub_ds, sub_db) = ("subds", "subdb");
    let mut api = FakeApi::default();
    api.search_results = vec![data_source(ds, db)];
    api.databases.insert(
        db.to_string(),
        json(
            r#"{
            "object": "database", "id": "db1", "title": [{"plain_text": "Operations"}],
            "parent": {"type": "workspace", "workspace": true},
            "data_sources": [{"id": "ds1", "name": "Operations"}]
        }"#,
        ),
    );
    api.databases.insert(
        sub_db.to_string(),
        json(
            r#"{
            "object": "database", "id": "subdb", "title": [{"plain_text": "Sub"}],
            "parent": {"type": "page_id", "page_id": "x"},
            "data_sources": [{"id": "subds", "name": "Sub"}]
        }"#,
        ),
    );
    // The query returns a normal page row AND a nested data_source object.
    api.data_sources.insert(
        ds.to_string(),
        vec![row("r1", "Real Row", ds), data_source(sub_ds, sub_db)],
    );
    api.data_sources.insert(sub_ds.to_string(), vec![row("r2", "Sub Row", sub_ds)]);
    api.blocks.insert("r1".to_string(), vec![]);
    api.blocks.insert("r2".to_string(), vec![]);

    tree.dump(&api, false).unwrap();

    // The page row is dumped; the nested data source becomes a database node.
    assert!(tree.text("db1-Operations/r1-Real Row/page.json").is_some());
    assert!(tree.text("db1-Operations/subdb-Sub/database.json").is_some());
    // No page.json anywhere holds a data_source object.
    let mut pages = 0;
    for files in tree.dirs.values() {
        if let Some(text) = files.get("page.json") {
            pages += 1;
            let node = json(text);
            assert_eq!(node.get("data").unwrap().text_at("object"), Some("page"));
        }
    }
    assert_eq!(pages, 2);
}

#[test]
fn inaccessible_blocks_are_skipped_not_fatal() {
    let mut tree = Tree::default();
    let mut api = FakeApi::default();
    let page = json(
        r#"{
        "object": "page", "id": "p1", "last_edited_time": "2026-01-01T00:00:00.000Z",
        "url": "https://notion.so/p1", "parent": {"type": "workspace", "workspace": true},
        "properties": {"Name": {"type": "title", "title": [{"plain_text": "Broken"}]}}
    }"#,
    );
    api.search_results = vec![page.duplicate()];
    api.pages.insert("p1".to_string(), page);
    api.fail_blocks.push("p1".to_string()); // get_block_children raises 404

    // Must not error; the node is still written with an empty block list.
    tree.dump(&api, false).unwrap();

    let node = json(tree.text("p1-Broken/page.json").unwrap());
    assert_eq!(node.get("blocks"), Some(&json("[]")));
}

// -- incremental dumping -----------------------------------------------------

fn page(page_id: &str, title: &str, edited: &str) -> Json {
    json(&format!(
        r#"{{
        "object": "page", "id": "{page_id}", "last_edited_time": "{edited}",
        "url": "https://notion.so/{page_id}",
        "parent": {{"type": "workspace", "workspace": true}},
        "properties": {{"Name": {{"type": "title", "title": [{{"plain_text": "{title}"}}]}}}}
    }}"#
    ))
}

fn para(text: &str) -> Json {
    json(&format!(
        r#"{{"type": "paragraph", "has_children": false,
           "paragraph": {{"rich_text": [{{"plain_text": "{text}", "annotations": {{}}}}]}}}}"#
    ))
}

/// FakeApi where `search` returns the pages (mirrors the workspace).
fn page_api(pages: &[(&str, Json)], blocks: &[(&str, Vec<Json>)]) -> FakeApi {
    let mut api = FakeApi::default();
    for (id, page) in pages {
        api.search_results.push(page.duplicate());
        api.pages.insert(id.to_string(), page.duplicate());
    }
    for (id, list) in blocks {
        api.blocks.insert(id.to_string(), copies(list));
    }
    api
}

#[test]
fn incremental_reuses_unchanged_and_refetches_changed() {
    let mut tree = Tree::default();
    let mut pages = vec![
        ("a", page("a", "Alpha", "2026-01-01T00:00:00.000Z")),
        ("b", page("b", "Beta", "2026-01-01T00:00:00.000Z")),
    ];
    let mut blocks = vec![("a", vec![para("alpha v1")]), ("b", vec![para("beta v1")])];

    // First run: full dump, both bodies fetched.
    let api = page_api(&pages, &blocks);
    tree.dump(&api, true).unwrap();
    let mut fetched = api.block_calls.borrow().clone();
    fetched.sort();
    assert_eq!(fetched, vec!["a", "b"]);

    // Page B is edited (new last_edited_time + new content); A is untouched.
    pages[1].1 = page("b", "Beta", "2026-02-01T00:00:00.000Z");
    blocks[1].1 = vec![para("beta v2")];

    let api = page_api(&pages, &blocks);
    let lines = tree.dump(&api, true).unwrap();

    // Only B's body is re-fetched; A is reused from disk.
    assert_eq!(*api.block_calls.borrow(), vec!["b".to_string()]);
    let node = json(tree.text("b-Beta/page.json").unwrap());
    assert_eq!(
        node.get("data").unwrap().text_at("last_edited_time"),
        Some("2026-02-01T00:00:00.000Z")
    );
    assert!(tree.text("b-Beta/page.json").unwrap().contains("beta v2"));
    assert!(tree.text("a-Alpha/page.json").unwrap().contains("alpha v1"));
    assert_eq!(lines, vec!["[1/2] reused page: Alpha", "[2/2] fetched page: Beta"]);
}

#[test]
fn incremental_removes_deleted_pages() {
    let mut tree = Tree::default();
    let mut pages = vec![
        ("a", page("a", "Alpha", "2026-01-01T00:00:00.000Z")),
        ("b", page("b", "Beta", "2026-01-01T00:00:00.000Z")),
    ];
    let blocks = vec![("a", vec![]), ("b", vec![])];

    let api = page_api(&pages, &blocks);
    tree.dump(&api, true).unwrap();
    assert!(tree.has_dir("b-Beta"));

    // Beta is deleted from Notion (no longer returned by search).
    pages.pop();
    let api = page_api(&pages, &blocks);
    tree.dump(&api, true).unwrap();

    assert!(tree.has_dir("a-Alpha"));
    assert!(!tree.has_dir("b-Beta"));
}

#[test]
fn node_dirs_are_prefixed_with_id() {
    let mut tree = Tree::default();
    let pages = vec![("abc-123", page("abc-123", "My Page", "2026-01-01T00:00:00.000Z"))];
    let blocks = vec![("abc-123", vec![])];

    let api = page_api(&pages, &blocks);
    tree.dump(&api, true).unwrap();

    // Dashes are stripped from the id and it always prefixes the slug.
    assert!(tree.text("abc123-My Page/page.json").is_some());
}

#[test]
fn full_mode_refetches_everything() {
    let mut tree = Tree::default();
    let pages = vec![("a", page("a", "Alpha", "2026-01-01T00:00:00.000Z"))];
    let blocks = vec![("a", vec![])];

    let api = page_api(&pages, &blocks);
    tree.dump(&api, true).unwrap();

    // incremental=false forces a full re-fetch even though nothing changed.
    let api = page_api(&pages, &blocks);
    tree.dump(&api, false).unwrap();
    assert_eq!(*api.block_calls.borrow(), vec!["a".to_string()]);
}

// -- the walk ----------------------------------------------------------------

fn child(kind: &str, id: &str) -> Json {
    json(&format!(r#"{{"type": "{kind}", "id": "{id}", "has_children": true, "{kind}": {{}}}}"#))
}

fn nested(id: &str) -> Json {
    json(&format!(r#"{{"type": "toggle", "id": "{id}", "has_children": true, "toggle": {{}}}}"#))
}

#[test]
fn nested_blocks_are_fetched_and_attached() {
    let mut tree = Tree::default();
    let pages = vec![("p", page("p", "P", "t"))];
    let blocks = vec![
        ("p", vec![para("x"), nested("t1"), child("child_page", "q")]),
        ("t1", vec![nested("t2"), para("y")]),
        ("t2", vec![para("z")]),
    ];
    let api = page_api(&pages, &blocks);
    tree.dump(&api, false).unwrap();

    assert_eq!(*api.block_calls.borrow(), vec!["p", "t1", "t2"]);
    let node = json(tree.text("p-P/page.json").unwrap());
    let list = node.items_at("blocks").unwrap();
    assert_eq!(list.len(), 3);
    let inner = list[1].items_at("_children").unwrap();
    assert_eq!(inner.len(), 2);
    assert_eq!(inner[0].items_at("_children").unwrap()[0], para("z"));
    assert_eq!(inner[1], para("y"));
    assert!(list[2].items_at("_children").is_none());
}

#[test]
fn child_objects_are_dumped_below_their_page() {
    let mut tree = Tree::default();
    let mut api = page_api(
        &[("p", page("p", "Parent", "t"))],
        &[("p", vec![child("child_page", "q"), child("child_database", "d")])],
    );
    api.pages.insert("q".to_string(), page("q", "Child", "t"));
    api.databases.insert("d".to_string(), json(r#"{"id": "d", "title": []}"#));
    let lines = tree.dump(&api, false).unwrap();

    assert!(tree.text("p-Parent/q-Child/page.json").is_some());
    assert!(tree.text("p-Parent/d-untitled-database/database.json").is_some());
    assert_eq!(
        lines,
        vec![
            "[1/1] fetched page: Parent",
            "[2/1] fetched page: Child",
            "[3/1] dumped database: untitled-database (0 rows)"
        ]
    );
}

#[test]
fn child_pages_are_dumped_however_deep_they_are_nested() {
    let mut tree = Tree::default();
    let mut api = page_api(
        &[("p", page("p", "Parent", "t"))],
        &[
            ("p", vec![nested("t1"), child("child_database", "d")]),
            ("t1", vec![child("child_page", "x"), nested("t2")]),
            ("t2", vec![child("child_page", "y"), child("child_page", "gone")]),
        ],
    );
    api.pages.insert("x".to_string(), page("x", "X", "t"));
    api.pages.insert("y".to_string(), page("y", "Y", "t"));
    api.databases.insert("d".to_string(), json(r#"{"id": "d", "title": []}"#));
    let lines = tree.dump(&api, false).unwrap();

    assert!(tree.text("p-Parent/x-X/page.json").is_some());
    assert!(tree.text("p-Parent/y-Y/page.json").is_some());
    // The objects are taken up in the order of the blocks.
    assert_eq!(
        lines,
        vec![
            "[1/1] fetched page: Parent",
            "[2/1] fetched page: X",
            "[3/1] fetched page: Y",
            "[4/1] dumped database: untitled-database (0 rows)"
        ]
    );

    // They are found in stored blocks too.
    tree.dump(&api, true).unwrap();
    assert!(tree.text("p-Parent/x-X/page.json").is_some());
}

#[test]
fn ids_with_slashes_are_split_and_spared() {
    let mut tree = Tree::default();
    let api = page_api(&[("a/b", page("a/b", "P", "1"))], &[("a/b", vec![])]);
    tree.dump(&api, true).unwrap();
    assert!(tree.text("a/b-P/page.json").is_some());
    // A second run finds the node where it stands, and keeps it.
    tree.dump(&api, true).unwrap();
    assert!(tree.text("a/b-P/page.json").is_some());
    assert_eq!(*api.block_calls.borrow(), vec!["a/b"]);
}

#[test]
fn rows_with_slashes_in_their_ids_keep_their_names() {
    let mut tree = Tree::default();
    let mut api = FakeApi::default();
    api.search_results = vec![data_source("s", "d")];
    api.databases.insert("d".to_string(), json(r#"{"title": [{"plain_text": "D"}]}"#));
    api.data_sources.insert("s".to_string(), vec![row("r/1", "R", "s")]);
    tree.dump(&api, false).unwrap();
    assert!(tree.text("d-D/r/1-R/page.json").is_some());
    let node = json(tree.text("d-D/database.json").unwrap());
    assert_eq!(node.get("row_order"), Some(&json(r#"["r/1-R"]"#)));
}

fn parts(names: &[&str]) -> Vec<String> {
    names.iter().map(|n| n.to_string()).collect()
}

#[test]
fn an_id_with_a_leading_slash_leads_from_the_top() {
    let mut tree = Tree { root: parts(&["backup", "json"]), ..Tree::default() };
    let pages = [("/x/y", page("/x/y", "P", "1")), ("a", page("a", "A", "1"))];
    let api = page_api(&pages, &[("/x/y", vec![child("child_page", "c")])]);
    tree.dump(&api, true).unwrap();
    assert!(tree.dirs.contains_key(&parts(&["/", "x", "y-P"])));
    assert!(tree.text("backup/json/a-A/page.json").is_some());
    assert_eq!(tree.dirs.len(), 3);
}

#[test]
fn a_node_reached_from_the_top_is_spared() {
    let mut tree = Tree { root: parts(&["/", "b"]), ..Tree::default() };
    let api = page_api(&[("/b/c", page("/b/c", "P", "1"))], &[("/b/c", vec![])]);
    tree.dump(&api, true).unwrap();
    let dir = parts(&["/", "b", "c-P"]);
    assert!(tree.dirs.contains_key(&dir));
    tree.dump(&api, true).unwrap();
    assert!(tree.dirs.contains_key(&dir));
    assert_eq!(*api.block_calls.borrow(), vec!["/b/c"]);
}

#[test]
fn an_id_with_dots_leads_up() {
    let mut tree = Tree { root: parts(&["/", "b"]), ..Tree::default() };
    let pages = [("../x", page("../x", "P", "1")), ("q/../y", page("q/../y", "Q", "1"))];
    let api = page_api(&pages, &[]);
    tree.dump(&api, true).unwrap();
    assert!(tree.dirs.contains_key(&parts(&["/", "x-P"])));
    assert!(tree.dirs.contains_key(&parts(&["/", "b", "y-Q"])));
    // The second node stands in the tree: the next run finds it there, and keeps it.
    tree.dump(&api, true).unwrap();
    assert!(tree.dirs.contains_key(&parts(&["/", "b", "y-Q"])));
    assert_eq!(*api.block_calls.borrow(), vec!["../x", "q/../y", "../x"]);
}

#[test]
fn what_is_passed_over_is_noticed() {
    let mut api = FakeApi::default();
    api.search_results = vec![data_source("s", "d"), page("p", "P", "1")];
    api.databases.insert("d".to_string(), json(r#"{"title": [{"plain_text": "D"}]}"#));
    api.databases.insert("e".to_string(), json(r#"{"id": "e"}"#));
    api.data_sources.insert(
        "s".to_string(),
        vec![json(r#"{"object": "user"}"#), row("r", "R", "s"), json("{}"), data_source("t", "d")],
    );
    api.blocks.insert("p".to_string(), vec![child("child_database", "e")]);
    let mut dumper = JsonDumper::new(&Vec::new(), false, &Vec::new());
    let mut reply = Reply::Done;
    let mut notices = Vec::new();
    loop {
        let before = dumper.notice();
        let request = dumper.step(reply);
        if let Some(notice) = before {
            notices.push(match notice {
                Notice::NoSources(title) => format!("{title}: no sources"),
                Notice::UnexpectedRow(kind, title) => format!("{title}: {kind:?}"),
            });
        }
        if matches!(request, Request::Finished) {
            break;
        }
        reply = answer(&api, &request).unwrap_or(Reply::Done);
    }
    assert_eq!(notices, vec!["D: Some(\"user\")", "D: None", "untitled-database: no sources"]);
    assert!(dumper.notice().is_none());
}

#[test]
fn a_node_file_in_the_root_does_not_cost_the_tree() {
    let mut tree = Tree::default();
    let stray = r#"{"data": {"id": "z", "last_edited_time": "1"}}"#.to_string();
    tree.dirs.insert(Vec::new(), BTreeMap::from([("page.json".to_string(), stray)]));
    let api = page_api(&[("a", page("a", "A", "1"))], &[]);
    tree.dump(&api, true).unwrap();
    assert!(tree.text("a-A/page.json").is_some());
    assert!(tree.text("page.json").is_some());
}

#[test]
fn inaccessible_objects_are_skipped() {
    let mut tree = Tree::default();
    let api = page_api(
        &[("p", page("p", "P", "t"))],
        &[("p", vec![child("child_page", "gone"), child("child_database", "lost"), para("x")])],
    );
    tree.dump(&api, false).unwrap();
    assert_eq!(tree.dirs.len(), 2);
    assert!(tree.text("p-P/page.json").is_some());
}

#[test]
fn what_the_walk_does_not_reach_is_swept_up_at_the_root() {
    let mut tree = Tree::default();
    // Two pages that name each other as parents: neither is a root.
    let orphan = |id: &str, parent: &str| {
        json(&format!(
            r#"{{"object": "page", "id": "{id}", "parent": {{"type": "page_id", "page_id": "{parent}"}}}}"#
        ))
    };
    let mut api = FakeApi::default();
    api.search_results = vec![orphan("a", "b"), orphan("b", "a"), data_source("s", "d")];
    api.databases.insert(
        "d".to_string(),
        json(r#"{"id": "d", "parent": {"type": "page_id", "page_id": "a"}}"#),
    );
    tree.dump(&api, false).unwrap();
    assert!(tree.text("a-untitled/page.json").is_some());
    assert!(tree.text("b-untitled/page.json").is_some());
    assert!(tree.text("d-untitled-database/database.json").is_some());
}

#[test]
fn a_page_is_written_once() {
    let mut tree = Tree::default();
    let mut api = page_api(
        &[("p", page("p", "P", "t")), ("q", page("q", "Q", "t"))],
        &[("p", vec![child("child_page", "q"), child("child_page", "p")])],
    );
    api.search_results[1] = json(
        r#"{"object": "page", "id": "q", "parent": {"type": "page_id", "page_id": "p"}}"#,
    );
    tree.dump(&api, false).unwrap();
    assert!(tree.text("p-P/q-untitled/page.json").is_some());
    assert_eq!(tree.dirs.len(), 3);
    assert_eq!(*api.block_calls.borrow(), vec!["p", "q"]);
}

#[test]
fn row_order_follows_the_query() {
    let mut tree = Tree::default();
    let mut api = FakeApi::default();
    api.search_results = vec![data_source("s1", "d"), data_source("s2", "d")];
    // Without sources of its own the database takes those that the search found.
    api.databases.insert("d".to_string(), json(r#"{"title": [{"plain_text": "D"}]}"#));
    api.data_sources.insert("s1".to_string(), vec![row("z", "Z", "s1"), row("y", "Y", "s1")]);
    api.data_sources.insert(
        "s2".to_string(),
        vec![row("x", "X", "s2"), row("z", "Again", "s2"), json(r#"{"object": "user"}"#)],
    );
    let lines = tree.dump(&api, false).unwrap();
    let node = json(tree.text("d-D/database.json").unwrap());
    assert_eq!(node.get("row_order"), Some(&json(r#"["z-Z", "y-Y", "x-X"]"#)));
    assert_eq!(lines[0], "[1/6] dumped database: D (5 rows)");
}

#[test]
fn moved_pages_leave_their_old_place() {
    let mut tree = Tree::default();
    let api = page_api(&[("a", page("a", "Old", "1"))], &[("a", vec![para("v")])]);
    tree.dump(&api, true).unwrap();
    let api = page_api(&[("a", page("a", "New", "1"))], &[("a", vec![])]);
    tree.dump(&api, true).unwrap();
    assert!(!tree.has_dir("a-Old"));
    // The body was reused from the old place before that was removed.
    assert!(tree.text("a-New/page.json").unwrap().contains("\"v\""));
    assert!(api.block_calls.borrow().is_empty());
}

#[test]
fn fatal_errors_abort() {
    struct Down;
    impl Api for Down {
        fn search(&self) -> Result<Vec<Json>, ClientError> {
            Ok(vec![page("p", "P", "t")])
        }
        fn get_block_children(&self, _: &str) -> Result<Vec<Json>, ClientError> {
            Err(ClientError::Other("no route".to_string()))
        }
        fn get_database(&self, _: &str) -> Result<Json, ClientError> {
            unreachable!()
        }
        fn query_data_source(&self, _: &str) -> Result<Vec<Json>, ClientError> {
            unreachable!()
        }
        fn get_page(&self, _: &str) -> Result<Json, ClientError> {
            unreachable!()
        }
    }
    let mut dumper = JsonDumper::new(&Vec::new(), false, &Vec::new());
    let mut reply = Reply::Done;
    let message = loop {
        let request = dumper.step(reply);
        if let Request::Failed(e) = &request {
            break e.message();
        }
        reply = answer(&Down, &request).unwrap_or(Reply::Done);
    };
    assert_eq!(message, "no route");
    // The failed request can be made again.
    assert!(matches!(dumper.step(Reply::Done), Request::Blocks(id) if id == "p"));
}

#[test]
fn a_refused_search_aborts() {
    let mut dumper = JsonDumper::new(&Vec::new(), false, &Vec::new());
    assert!(matches!(dumper.step(Reply::Done), Request::MakeDir(dir) if dir.is_empty()));
    assert!(matches!(dumper.step(Reply::Done), Request::Clean));
    assert!(matches!(dumper.step(Reply::Done), Request::Search));
    let refused = dumper.step(Reply::List(Err(ClientError::Http(401))));
    assert!(matches!(refused, Request::Failed(ClientError::Http(401))));
}

#[test]
fn unreadable_stored_blocks_are_fetched() {
    let mut tree = Tree::default();
    let api = page_api(&[("a", page("a", "A", "1"))], &[("a", vec![para("v")])]);
    tree.dump(&api, true).unwrap();
    let mut dumper = JsonDumper::new(&Vec::new(), true, &tree.stored());
    assert_eq!(dumper.previously_known(), 1);
    let mut reply = Reply::Done;
    let mut asked = Vec::new();
    loop {
        let request = dumper.step(reply);
        reply = match answer(&api, &request) {
            Some(next) => next,
            None => match request {
                Request::Stored(dir) => {
                    asked.push(dir);
                    Reply::Stored(None)
                }
                Request::Finished => break,
                _ => Reply::Done,
            },
        };
    }
    assert_eq!(asked, vec![vec!["a-A".to_string()]]);
    assert_eq!((dumper.reused(), dumper.fetched()), (0, 1));
}

#[test]
fn dumping_an_unchanged_workspace_again_changes_nothing() {
    let mut tree = Tree::default();
    let signed = json(
        r#"{"type": "image", "id": "i", "image": {"type": "file",
            "file": {"url": "https://s3/1", "expiry_time": "1"}}}"#,
    );
    let pages = vec![("a", page("a", "Alpha", "1")), ("b", page("b", "Beta", "1"))];
    let blocks = vec![("a", vec![signed, para("x")]), ("b", vec![nested("n")]), ("n", vec![])];
    let api = page_api(&pages, &blocks);
    tree.dump(&api, true).unwrap();
    let before = tree.dirs.clone();
    assert!(!tree.text("a-Alpha/page.json").unwrap().contains("https://s3/1"));

    let api = page_api(&pages, &blocks);
    tree.dump(&api, true).unwrap();
    assert!(api.block_calls.borrow().is_empty());
    assert_eq!(tree.dirs, before);
}

#[test]
fn of_two_stored_files_with_one_id_the_last_counts() {
    let node = |edited: &str| {
        json(&format!(r#"{{"data": {{"id": "a", "last_edited_time": "{edited}"}}}}"#))
    };
    let files = vec![
        StoredNode { dir: vec!["old".to_string()], content: Some(node("1")) },
        StoredNode { dir: vec!["torn".to_string()], content: None },
        StoredNode { dir: vec!["new".to_string()], content: Some(node("2")) },
    ];
    let entries = scan_prev_tree(&files);
    assert_eq!(entries.len(), 1);
    assert_eq!(entries[0].id, "a");
    assert_eq!(entries[0].dir, vec!["new".to_string()]);
    assert_eq!(entries[0].last_edited_time, "2");
}

#[test]
fn every_stale_copy_of_a_node_is_removed() {
    let mut tree = Tree::default();
    let api = page_api(&[("a", page("a", "A", "1"))], &[]);
    tree.dump(&api, true).unwrap();
    let files = tree.dirs.get(&vec!["a-A".to_string()]).unwrap().clone();
    tree.dirs.insert(vec!["a-Before".to_string()], files.clone());
    tree.dirs.insert(vec!["a-0".to_string()], files);
    tree.dump(&api, true).unwrap();
    assert!(tree.has_dir("a-A"));
    assert!(!tree.has_dir("a-Before") && !tree.has_dir("a-0"));
}

#[test]
fn a_tree_of_unreadable_files_still_counts_as_one() {
    let mut tree = Tree::default();
    let files = BTreeMap::from([("page.json".to_string(), "{".to_string())]);
    tree.dirs.insert(vec!["x".to_string()], files);
    let api = page_api(&[("a", page("a", "A", "1"))], &[]);
    tree.dump(&api, true).unwrap();
    // Nothing is known of the torn file, so that it stays; a full dump removes it.
    assert!(tree.has_dir("x"));
    tree.dump(&api, false).unwrap();
    assert!(!tree.has_dir("x") && tree.has_dir("a-A"));
}
