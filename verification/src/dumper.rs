//! The walk over an accessible Notion workspace that writes its raw JSON tree.
//!
//! [`JsonDumper`] decides; its caller acts. Each [`JsonDumper::step`] takes the reply to the last
//! request and gives the next [`Request`]: an API call, something to do on disk, or the end.
//!
//! When a prior JSON tree exists, the dump reuses it: every page carries a `last_edited_time` that
//! changes whenever its content does, so unchanged pages keep their stored blocks instead of being
//! fetched. Discovery still enumerates the whole workspace, so deletions and moves are reconciled.

use vstd::hash_set::StringHashSet;
use vstd::prelude::*;
use vstd::string::*;

use crate::blocks::CHILD_KEY;
use crate::client::{Api, ClientError};
use crate::dump::{
    copy_list, copy_path, entry_for, find_entry, is_above, leads_below, make_database_node,
    make_page_node, node_dir, node_file_name, path_view, paths, prev_views, progress_line,
    resolve_path, resolved, scan_prev_tree, stored_dirs, stored_views, PrevEntry, StoredNode,
    DATABASE_FILE, PAGE_FILE,
};
use crate::json::{lemma_items_at_smaller, lemma_view, view_in, views, Json, JsonView};
use crate::text::{cat4, or_empty, or_untitled, same, text_of, texts, to_decimal};
use crate::util::{database_title, page_title};
use crate::walk::{
    add_source, advance, ask_database, cached, children_at, children_in, database_tasks, delivered,
    found, group_ids, grouped, initial, is_at_or_above, is_needed, is_root, nested_id, on_announce,
    on_children, on_database, on_fetch, on_load, on_open_database, on_page, on_prune, on_roots,
    on_rows, on_save, on_search, on_sources, on_sweep, on_tree, owner_of, page_count, passed_over,
    root_page_tasks, source_ids, sources_in, sweep_page_tasks, tally, with_children, ChildView,
    DumpView, Notice, Reply, Request, TaskView,
};

verus! {

// ---------------------------------------------------------------------------
// Discovery
// ---------------------------------------------------------------------------
/// What a list of groups holds.
pub open spec fn group_views(groups: Seq<(String, Vec<Json>)>) -> Seq<(Seq<char>, Seq<JsonView>)> {
    groups.map_values(|g: (String, Vec<Json>)| (g.0@, views(g.1@)))
}

/// What the cache of databases holds.
pub open spec fn cache_views(cache: Seq<(String, Option<Json>)>) -> Seq<
    (Seq<char>, Option<JsonView>),
> {
    cache.map_values(|c: (String, Option<Json>)| (c.0@, held(c.1)))
}

/// What an optional value holds.
pub open spec fn held(value: Option<Json>) -> Option<JsonView> {
    match value {
        Some(v) => Some(v@),
        None => None,
    }
}

fn is_kind(obj: &Json, kind: &str) -> (r: bool)
    ensures
        r == (obj@.text_at("object"@) == Some(kind@)),
{
    match obj.text_at("object") {
        Some(k) => same(k, kind),
        None => false,
    }
}

fn owner(obj: &Json) -> (r: Option<&str>)
    ensures
        text_of(r) == owner_of(obj@),
{
    if !is_kind(obj, "data_source") {
        return None;
    }
    match obj.get("parent") {
        Some(parent) => parent.text_at("database_id"),
        None => None,
    }
}

fn find_object<'a>(objects: &'a Vec<Json>, id: &str) -> (r: Option<&'a Json>)
    ensures
        view_in(r) == found(views(objects@), id@),
{
    let ghost all = views(objects@);
    let mut i: usize = objects.len();
    assert(all.take(i as int) =~= all);
    while i > 0
        invariant
            i <= objects@.len(),
            all == views(objects@),
            found(all, id@) == found(all.take(i as int), id@),
        decreases i,
    {
        proof {
            let part = all.take(i as int);
            assert(part.last() == objects@[i - 1]@);
            assert(part.drop_last() =~= all.take(i - 1));
        }
        i -= 1;
        if let Some(other) = objects[i].text_at("id") {
            if same(other, id) {
                return Some(&objects[i]);
            }
        }
    }
    None
}

fn is_top(obj: &Json, objects: &Vec<Json>) -> (r: bool)
    ensures
        r == is_root(obj@, views(objects@)),
{
    let parent: &Json = match obj.get("parent") {
        Some(p) => p,
        None => {
            return true;
        },
    };
    let kind: &str = match parent.text_at("type") {
        Some(k) => k,
        None => {
            return true;
        },
    };
    if same(kind, "workspace") {
        return true;
    }
    match parent.text_at(kind) {
        Some(id) => find_object(objects, id).is_none(),
        None => true,
    }
}

proof fn lemma_add_source_at(
    groups: Seq<(Seq<char>, Seq<JsonView>)>,
    db: Seq<char>,
    source: JsonView,
    i: int,
)
    requires
        0 <= i <= groups.len(),
        forall|j: int| 0 <= j < i ==> (#[trigger] groups[j]).0 != db,
        i < groups.len() ==> groups[i].0 == db,
    ensures
        add_source(groups, db, source) == if i < groups.len() {
            groups.update(i, (db, groups[i].1.push(source)))
        } else {
            groups.push((db, seq![source]))
        },
        sources_in(groups, db) == if i < groups.len() {
            groups[i].1
        } else {
            Seq::empty()
        },
    decreases i,
{
    let out = add_source(groups, db, source);
    if i == 0 {
        if groups.len() == 0 {
            assert(out =~= groups.push((db, seq![source])));
        } else {
            assert(out =~= groups.update(0, (db, groups[0].1.push(source))));
        }
    } else {
        assert(groups[0].0 != db);
        let rest = groups.skip(1);
        assert forall|j: int| 0 <= j < i - 1 implies (#[trigger] rest[j]).0 != db by {
            assert(rest[j] == groups[j + 1]);
        }
        lemma_add_source_at(rest, db, source, i - 1);
        if i < groups.len() {
            assert(out =~= groups.update(i, (db, groups[i].1.push(source))));
        } else {
            assert(out =~= groups.push((db, seq![source])));
        }
    }
}

/// The position of the group of a database; the number of groups where there is none.
fn find_group(groups: &Vec<(String, Vec<Json>)>, db: &str) -> (r: usize)
    ensures
        r <= groups@.len(),
        forall|j: int| 0 <= j < r ==> (#[trigger] group_views(groups@)[j]).0 != db@,
        r < groups@.len() ==> group_views(groups@)[r as int].0 == db@,
{
    let mut i: usize = 0;
    while i < groups.len() && !same(&groups[i].0, db)
        invariant
            i <= groups@.len(),
            forall|j: int| 0 <= j < i ==> (#[trigger] group_views(groups@)[j]).0 != db@,
        decreases groups@.len() - i,
    {
        i += 1;
    }
    i
}

/// Groups the data sources by their parent database.
fn group_sources(objects: &Vec<Json>) -> (r: Vec<(String, Vec<Json>)>)
    ensures
        group_views(r@) == grouped(views(objects@)),
{
    let ghost all = views(objects@);
    let mut groups: Vec<(String, Vec<Json>)> = Vec::new();
    let mut i: usize = 0;
    assert(group_views(groups@) =~= grouped(all.take(0)));
    while i < objects.len()
        invariant
            i <= objects@.len(),
            all == views(objects@),
            group_views(groups@) == grouped(all.take(i as int)),
        decreases objects@.len() - i,
    {
        let ghost before = group_views(groups@);
        proof {
            let grown = all.take(i + 1);
            assert(grown.drop_last() =~= all.take(i as int));
            assert(grown.last() == objects@[i as int]@);
        }
        if let Some(db) = owner(&objects[i]) {
            let at: usize = find_group(&groups, db);
            let source: Json = objects[i].duplicate();
            let ghost v = source@;
            proof {
                lemma_add_source_at(before, db@, v, at as int);
            }
            if at < groups.len() {
                let mut list: Vec<Json> = copy_list(&groups[at].1);
                let ghost held = views(list@);
                list.push(source);
                assert(views(list@) =~= held.push(v));
                groups.set(at, (db.to_owned(), list));
                assert(group_views(groups@) =~= before.update(at as int, (db@, held.push(v))));
            } else {
                let mut list: Vec<Json> = Vec::new();
                list.push(source);
                assert(views(list@) =~= seq![v]);
                groups.push((db.to_owned(), list));
                assert(group_views(groups@) =~= before.push((db@, seq![v])));
            }
        }
        i += 1;
    }
    assert(all.take(i as int) =~= all);
    groups
}

fn count_pages(objects: &Vec<Json>) -> (r: usize)
    ensures
        r == page_count(views(objects@)),
{
    let ghost all = views(objects@);
    let mut n: usize = 0;
    let mut i: usize = 0;
    while i < objects.len()
        invariant
            i <= objects@.len(),
            all == views(objects@),
            n <= i,
            n == page_count(all.take(i as int)),
        decreases objects@.len() - i,
    {
        proof {
            let grown = all.take(i + 1);
            assert(grown.drop_last() =~= all.take(i as int));
            assert(grown.last() == objects@[i as int]@);
        }
        if is_kind(&objects[i], "page") {
            n += 1;
        }
        i += 1;
    }
    assert(all.take(i as int) =~= all);
    n
}

fn id_or_empty(value: &Json) -> (r: String)
    ensures
        r@ == or_empty(value@.text_at("id"@)),
{
    match value.text_at("id") {
        Some(id) => id.to_owned(),
        None => String::new(),
    }
}

fn ids_of(sources: &Vec<Json>) -> (r: Vec<String>)
    ensures
        texts(r@) == views(sources@).map_values(|src: JsonView| or_empty(src.text_at("id"@))),
{
    let mut out: Vec<String> = Vec::new();
    let mut i: usize = 0;
    while i < sources.len()
        invariant
            i <= sources@.len(),
            out@.len() == i,
            forall|j: int|
                0 <= j < i ==> (#[trigger] out@[j])@ == or_empty(sources@[j]@.text_at("id"@)),
        decreases sources@.len() - i,
    {
        out.push(id_or_empty(&sources[i]));
        i += 1;
    }
    assert(texts(out@) =~= views(sources@).map_values(
        |src: JsonView| or_empty(src.text_at("id"@)),
    ));
    out
}

fn sources_of(db: &Json, id: &str, groups: &Vec<(String, Vec<Json>)>) -> (r: Vec<String>)
    ensures
        texts(r@) == source_ids(db@, id@, group_views(groups@)),
{
    if let Some(own) = db.items_at("data_sources") {
        assert(views(own@).len() == own@.len());
        if own.len() > 0 {
            return ids_of(own);
        }
    }
    let at: usize = find_group(groups, id);
    proof {
        lemma_add_source_at(group_views(groups@), id@, JsonView::Null, at as int);
    }
    if at < groups.len() {
        ids_of(&groups[at].1)
    } else {
        let r: Vec<String> = Vec::new();
        assert(texts(r@) =~= source_ids(db@, id@, group_views(groups@)));
        r
    }
}

fn type_is(block: &Json, kind: &str) -> (r: bool)
    ensures
        r == (block@.text_at("type"@) == Some(kind@)),
{
    match block.text_at("type") {
        Some(t) => same(t, kind),
        None => false,
    }
}

fn nested(block: &Json) -> (r: Option<&str>)
    ensures
        text_of(r) == nested_id(block@),
{
    if block.flag_at("has_children") && !type_is(block, "child_page") && !type_is(
        block,
        "child_database",
    ) {
        block.text_at("id")
    } else {
        None
    }
}

fn attach(block: Json, children: Vec<Json>) -> (r: Json)
    ensures
        r@ == with_children(block@, views(children@)),
{
    proof {
        lemma_view(block);
    }
    match block {
        Json::Object(fields) => Json::from_fields(
            fields.with(CHILD_KEY.to_owned(), Json::array(children)),
        ),
        other => other,
    }
}

/// A page or database that is placed in a page.
pub enum Child {
    Page(String),
    Database(String),
}

impl View for Child {
    type V = ChildView;

    open spec fn view(&self) -> ChildView {
        match *self {
            Child::Page(id) => ChildView::Page(id@),
            Child::Database(id) => ChildView::Database(id@),
        }
    }
}

/// What a list of placed objects holds.
pub open spec fn child_views(children: Seq<Child>) -> Seq<ChildView> {
    children.map_values(|c: Child| c@)
}

fn placed_at(block: &Json) -> (r: Vec<Child>)
    ensures
        child_views(r@) == children_at(block@),
    decreases block@, 1nat,
{
    let mut out: Vec<Child> = Vec::new();
    assert(child_views(out@) =~= Seq::empty());
    if let Some(id) = block.text_at("id") {
        if type_is(block, "child_page") {
            out.push(Child::Page(id.to_owned()));
            assert(child_views(out@) =~= seq![ChildView::Page(id@)]);
        } else if type_is(block, "child_database") {
            out.push(Child::Database(id.to_owned()));
            assert(child_views(out@) =~= seq![ChildView::Database(id@)]);
        }
    }
    if let Some(nested) = block.items_at(CHILD_KEY) {
        proof {
            lemma_items_at_smaller(block@, CHILD_KEY@);
        }
        let mut inner: Vec<Child> = placed(nested);
        let ghost a = child_views(out@);
        let ghost b = child_views(inner@);
        out.append(&mut inner);
        assert(child_views(out@) =~= a + b);
    }
    out
}

fn placed(blocks: &Vec<Json>) -> (r: Vec<Child>)
    ensures
        child_views(r@) == children_in(views(blocks@)),
    decreases views(blocks@), 0nat,
{
    let ghost all = views(blocks@);
    let mut out: Vec<Child> = Vec::new();
    let mut i: usize = 0;
    assert(child_views(out@) =~= children_in(all.take(0)));
    while i < blocks.len()
        invariant
            i <= blocks@.len(),
            all == views(blocks@),
            child_views(out@) == children_in(all.take(i as int)),
        decreases blocks@.len() - i,
    {
        proof {
            let grown = all.take(i + 1);
            assert(grown.drop_last() =~= all.take(i as int));
            assert(grown.last() == blocks@[i as int]@);
            assert(decreases_to!(all => all[i as int]));
        }
        let mut more: Vec<Child> = placed_at(&blocks[i]);
        let ghost a = child_views(out@);
        let ghost b = child_views(more@);
        out.append(&mut more);
        assert(child_views(out@) =~= a + b);
        i += 1;
    }
    assert(all.take(i as int) =~= all);
    out
}

// ---------------------------------------------------------------------------
// The dumper
// ---------------------------------------------------------------------------
/// A piece of work.
enum Task {
    /// Create the root directory.
    MakeRoot,
    /// Remove what an earlier run left.
    Clean,
    /// Enumerate the workspace.
    Search,
    /// Find the databases at the top level: `next` is looked at next, `found` are those so far.
    Roots { next: usize, found: Vec<String> },
    /// Take up whatever the walk did not reach.
    Sweep,
    /// Remove stale nodes.
    Prune { next: usize },
    /// Take up a database.
    Database { id: String, parent: Vec<String> },
    /// Open a database.
    OpenDatabase { id: String, parent: Vec<String> },
    /// Query the rows of a database, source by source.
    Sources {
        db: Json,
        id: String,
        dir: Vec<String>,
        title: String,
        ids: Vec<String>,
        next: usize,
        rows: Vec<Json>,
    },
    /// Take up the rows of a database, one by one.
    Rows {
        db: Json,
        id: String,
        dir: Vec<String>,
        rows: Vec<Json>,
        next: usize,
        order: Vec<String>,
    },
    /// Take up a page.
    Page { page: Json, parent: Vec<String> },
    /// Decide where the blocks of a page come from.
    Load { page: Json, id: String, dir: Vec<String>, title: String },
    /// Await the fetched blocks of a page.
    Gather { page: Json, id: String, dir: Vec<String>, title: String },
    /// Fetch the children of a block.
    Fetch { id: String },
    /// Complete a list of blocks, one by one.
    Tree { listed: Vec<Json>, next: usize, done: Vec<Json> },
    /// Write a page.
    Save {
        page: Json,
        id: String,
        dir: Vec<String>,
        title: String,
        blocks: Vec<Json>,
        reused: bool,
    },
    /// Report a page.
    Announce { dir: Vec<String>, title: String, children: Vec<Child>, reused: bool },
    /// Take up the objects placed in a page, one by one.
    Children { dir: Vec<String>, children: Vec<Child>, next: usize },
}

impl View for Task {
    type V = TaskView;

    closed spec fn view(&self) -> TaskView {
        match *self {
            Task::MakeRoot => TaskView::MakeRoot,
            Task::Clean => TaskView::Clean,
            Task::Search => TaskView::Search,
            Task::Roots { next, found } => TaskView::Roots {
                next: next as nat,
                found: texts(found@),
            },
            Task::Sweep => TaskView::Sweep,
            Task::Prune { next } => TaskView::Prune { next: next as nat },
            Task::Database { id, parent } => TaskView::Database {
                id: id@,
                parent: path_view(parent@),
            },
            Task::OpenDatabase { id, parent } => TaskView::OpenDatabase {
                id: id@,
                parent: path_view(parent@),
            },
            Task::Sources { db, id, dir, title, ids, next, rows } => TaskView::Sources {
                db: db@,
                id: id@,
                dir: path_view(dir@),
                title: title@,
                ids: texts(ids@),
                next: next as nat,
                rows: views(rows@),
            },
            Task::Rows { db, id, dir, rows, next, order } => TaskView::Rows {
                db: db@,
                id: id@,
                dir: path_view(dir@),
                rows: views(rows@),
                next: next as nat,
                order: texts(order@),
            },
            Task::Page { page, parent } => TaskView::Page {
                page: page@,
                parent: path_view(parent@),
            },
            Task::Load { page, id, dir, title } => TaskView::Load {
                page: page@,
                id: id@,
                dir: path_view(dir@),
                title: title@,
            },
            Task::Gather { page, id, dir, title } => TaskView::Gather {
                page: page@,
                id: id@,
                dir: path_view(dir@),
                title: title@,
            },
            Task::Fetch { id } => TaskView::Fetch { id: id@ },
            Task::Tree { listed, next, done } => TaskView::Tree {
                listed: views(listed@),
                next: next as nat,
                done: views(done@),
            },
            Task::Save { page, id, dir, title, blocks, reused } => TaskView::Save {
                page: page@,
                id: id@,
                dir: path_view(dir@),
                title: title@,
                blocks: views(blocks@),
                reused,
            },
            Task::Announce { dir, title, children, reused } => TaskView::Announce {
                dir: path_view(dir@),
                title: title@,
                children: child_views(children@),
                reused,
            },
            Task::Children { dir, children, next } => TaskView::Children {
                dir: path_view(dir@),
                children: child_views(children@),
                next: next as nat,
            },
        }
    }
}

spec fn task_views(tasks: Seq<Task>) -> Seq<TaskView> {
    tasks.map_values(|t: Task| t@)
}

/// Walks the accessible workspace and decides what is written into the raw JSON tree.
pub struct JsonDumper {
    root: Vec<String>,
    prev: Vec<PrevEntry>,
    stored: Vec<Vec<String>>,
    objects: Vec<Json>,
    groups: Vec<(String, Vec<Json>)>,
    cache: Vec<(String, Option<Json>)>,
    visited: StringHashSet,
    seen: Vec<Vec<String>>,
    reused: usize,
    fetched: usize,
    processed: usize,
    total: usize,
    tasks: Vec<Task>,
}

impl View for JsonDumper {
    type V = DumpView;

    closed spec fn view(&self) -> DumpView {
        DumpView {
            root: path_view(self.root@),
            prev: prev_views(self.prev@),
            stored: paths(self.stored@),
            objects: views(self.objects@),
            groups: group_views(self.groups@),
            cache: cache_views(self.cache@),
            visited: self.visited@,
            seen: paths(self.seen@),
            reused: self.reused as nat,
            fetched: self.fetched as nat,
            processed: self.processed as nat,
            total: self.total as nat,
            tasks: task_views(self.tasks@),
        }
    }
}

/// What is known of a database.
enum Known {
    Unasked,
    Inaccessible,
    Object(Json),
}

impl JsonDumper {
    /// A dump into `root`, over the node files of an earlier tree there, if there are any.
    pub fn new(root: &Vec<String>, incremental: bool, files: &Vec<StoredNode>) -> (r: JsonDumper)
        ensures
            r@ == initial(path_view(root@), incremental, stored_views(files@)),
    {
        let again: bool = incremental && files.len() > 0;
        let mut tasks: Vec<Task> = Vec::new();
        if again {
            tasks.push(Task::Prune { next: 0 });
            tasks.push(Task::Sweep);
            tasks.push(Task::Search);
        } else {
            tasks.push(Task::Sweep);
            tasks.push(Task::Search);
            tasks.push(Task::Clean);
        }
        tasks.push(Task::MakeRoot);
        let r = JsonDumper {
            root: copy_path(root),
            prev: if again {
                scan_prev_tree(files)
            } else {
                Vec::new()
            },
            stored: if again {
                stored_dirs(files)
            } else {
                Vec::new()
            },
            objects: Vec::new(),
            groups: Vec::new(),
            cache: Vec::new(),
            visited: StringHashSet::new(),
            seen: Vec::new(),
            reused: 0,
            fetched: 0,
            processed: 0,
            total: 0,
            tasks,
        };
        proof {
            let wanted = initial(path_view(root@), incremental, stored_views(files@));
            assert(r@.prev =~= wanted.prev);
            assert(r@.stored =~= wanted.stored);
            assert(r@.objects =~= wanted.objects);
            assert(r@.groups =~= wanted.groups);
            assert(r@.cache =~= wanted.cache);
            assert(r@.visited =~= wanted.visited);
            assert(r@.seen =~= wanted.seen);
            assert(r@.tasks =~= wanted.tasks);
        }
        r
    }

    fn pop(&mut self) -> (r: Option<Task>)
        ensures
            match r {
                Some(task) => old(self)@.tasks.len() > 0 && old(self)@.tasks.last() == task@
                    && final(self)@ == old(self)@.popped(),
                None => old(self)@.tasks.len() == 0 && final(self)@ == old(self)@,
            },
    {
        let ghost before = self@;
        let r = self.tasks.pop();
        if r.is_some() {
            assert(self@.tasks =~= before.popped().tasks);
        }
        r
    }

    fn push(&mut self, task: Task)
        ensures
            final(self)@ == old(self)@.pushed(task@),
    {
        let ghost before = self@;
        self.tasks.push(task);
        assert(self@.tasks =~= before.pushed(task@).tasks);
    }

    fn push_all(&mut self, tasks: Vec<Task>)
        ensures
            final(self)@ == old(self)@.pushed_all(task_views(tasks@)),
    {
        let ghost before = self@;
        let ghost all = task_views(tasks@);
        let mut rest: Vec<Task> = tasks;
        assert(all.skip(all.len() as int).reverse() =~= Seq::empty());
        assert(self@.tasks =~= before.tasks + all.skip(all.len() as int).reverse());
        while rest.len() > 0
            invariant
                rest@.len() <= all.len(),
                task_views(rest@) == all.take(rest@.len() as int),
                self@ == (DumpView {
                    tasks: before.tasks + all.skip(rest@.len() as int).reverse(),
                    ..before
                }),
            decreases rest@.len(),
        {
            let ghost n = rest@.len() as int;
            let ghost t = task_views(rest@).last();
            if let Some(task) = rest.pop() {
                self.push(task);
                proof {
                    assert(task_views(rest@) =~= all.take(n - 1));
                    assert(all.skip(n - 1).reverse() =~= all.skip(n).reverse().push(t));
                    assert(self@.tasks =~= before.tasks + all.skip(n - 1).reverse());
                }
            }
        }
        assert(all.skip(0) =~= all);
    }

    fn mark(&mut self, id: &str)
        ensures
            final(self)@ == old(self)@.marked(id@),
    {
        self.visited.insert(id.to_owned());
    }

    fn learn(&mut self, id: &str, db: Option<Json>)
        ensures
            final(self)@ == old(self)@.learnt(id@, held(db)),
    {
        let ghost before = self@;
        let ghost v = held(db);
        self.cache.push((id.to_owned(), db));
        assert(self@.cache =~= before.learnt(id@, v).cache);
    }

    fn record(&mut self, dir: &Vec<String>)
        ensures
            final(self)@ == old(self)@.written(path_view(dir@)),
    {
        let ghost before = self@;
        self.seen.push(copy_path(dir));
        assert(self@.seen =~= before.written(path_view(dir@)).seen);
    }

    fn needs(&self, dir: &Vec<String>) -> (r: bool)
        ensures
            r == is_needed(self@.root, self@.seen, path_view(dir@)),
    {
        let place: Vec<String> = resolve_path(dir);
        if is_above(&place, &resolve_path(&self.root)) {
            return true;
        }
        let mut i: usize = 0;
        while i < self.seen.len()
            invariant
                i <= self.seen@.len(),
                self@.seen.len() == self.seen@.len(),
                path_view(place@) == resolved(path_view(dir@)),
                forall|j: int|
                    0 <= j < i ==> !is_at_or_above(path_view(dir@), #[trigger] self@.seen[j]),
            decreases self.seen@.len() - i,
        {
            assert(self@.seen[i as int] == path_view(self.seen@[i as int]@));
            if leads_below(&place, &self.seen[i]) {
                return true;
            }
            i += 1;
        }
        false
    }

    fn known(&self, id: &str) -> (r: Known)
        ensures
            cached(self@.cache, id@) == match r {
                Known::Unasked => None,
                Known::Inaccessible => Some(None),
                Known::Object(db) => Some(Some(db@)),
            },
    {
        let ghost all = self@.cache;
        let mut i: usize = self.cache.len();
        assert(all.take(i as int) =~= all);
        while i > 0
            invariant
                i <= self.cache@.len(),
                all == self@.cache,
                all.len() == self.cache@.len(),
                cached(all, id@) == cached(all.take(i as int), id@),
            decreases i,
        {
            proof {
                let part = all.take(i as int);
                assert(part.last() == all[i - 1]);
                assert(part.drop_last() =~= all.take(i - 1));
            }
            i -= 1;
            if same(&self.cache[i].0, id) {
                return match &self.cache[i].1 {
                    Some(db) => Known::Object(db.duplicate()),
                    None => Known::Inaccessible,
                };
            }
        }
        Known::Unasked
    }

    /// Asks for a database that is not known yet, or learns from the reply. The task that needs the
    /// database is put back.
    fn ask(&mut self, id: &str, task: Task, reply: Reply) -> (r: Request)
        ensures
            (final(self)@, r@) == ask_database(old(self)@.pushed(task@), id@, reply@),
    {
        self.push(task);
        match reply {
            Reply::One(Ok(db)) => {
                self.learn(id, Some(db));
                Request::Proceed
            },
            Reply::One(Err(e)) => match e {
                ClientError::Http(_) => {
                    self.learn(id, None);
                    Request::Proceed
                },
                ClientError::Other(text) => Request::Failed(ClientError::Other(text)),
            },
            _ => Request::Database(id.to_owned()),
        }
    }

    fn search(&mut self, reply: Reply) -> (r: Request)
        ensures
            (final(self)@, r@) == on_search(old(self)@.pushed(TaskView::Search), reply@),
    {
        proof {
            lemma_pushed_popped(self@, TaskView::Search);
        }
        match reply {
            Reply::List(Ok(objects)) => {
                let groups: Vec<(String, Vec<Json>)> = group_sources(&objects);
                self.total = add_up(count_pages(&objects), groups.len());
                self.groups = groups;
                self.objects = objects;
                let found: Vec<String> = Vec::new();
                assert(texts(found@) =~= Seq::empty());
                self.push(Task::Roots { next: 0, found });
                Request::Proceed
            },
            Reply::List(Err(e)) => {
                self.push(Task::Search);
                Request::Failed(e)
            },
            _ => {
                self.push(Task::Search);
                Request::Search
            },
        }
    }

    fn roots(&mut self, next: usize, found: Vec<String>, reply: Reply) -> (r: Request)
        ensures
            (final(self)@, r@) == on_roots(
                old(self)@.pushed(TaskView::Roots { next: next as nat, found: texts(found@) }),
                next as nat,
                texts(found@),
                reply@,
            ),
    {
        proof {
            lemma_pushed_popped(
                self@,
                TaskView::Roots { next: next as nat, found: texts(found@) },
            );
        }
        if next < self.groups.len() {
            let id: String = self.groups[next].0.clone();
            let is_top: bool = match self.known(&id) {
                Known::Unasked => {
                    return self.ask(&id, Task::Roots { next, found }, reply);
                },
                Known::Inaccessible => false,
                Known::Object(db) => is_top(&db, &self.objects),
            };
            let ghost before = texts(found@);
            let ghost name = id@;
            let mut all: Vec<String> = found;
            if is_top {
                all.push(id);
                assert(texts(all@) =~= before.push(name));
            }
            self.push(Task::Roots { next: next + 1, found: all });
            Request::Proceed
        } else {
            let mut tasks: Vec<Task> = root_databases(&found, &self.root);
            let mut pages: Vec<Task> = self.root_pages();
            let ghost a = task_views(tasks@);
            let ghost b = task_views(pages@);
            tasks.append(&mut pages);
            assert(task_views(tasks@) =~= a + b);
            self.push_all(tasks);
            Request::Proceed
        }
    }

    fn root_pages(&self) -> (r: Vec<Task>)
        ensures
            task_views(r@) == root_page_tasks(self@.objects, self@.objects, self@.root),
    {
        let ghost all = self@.objects;
        let mut out: Vec<Task> = Vec::new();
        let mut i: usize = 0;
        assert(task_views(out@) =~= root_page_tasks(all.take(0), all, self@.root));
        while i < self.objects.len()
            invariant
                i <= self.objects@.len(),
                all == self@.objects,
                task_views(out@) == root_page_tasks(all.take(i as int), all, self@.root),
            decreases self.objects@.len() - i,
        {
            let ghost before = task_views(out@);
            proof {
                let grown = all.take(i + 1);
                assert(grown.drop_last() =~= all.take(i as int));
                assert(grown.last() == all[i as int]);
            }
            if is_kind(&self.objects[i], "page") && is_top(&self.objects[i], &self.objects) {
                let task = page_at(&self.objects[i], &self.root);
                let ghost t = task@;
                out.push(task);
                assert(task_views(out@) =~= before.push(t));
            }
            i += 1;
        }
        assert(all.take(i as int) =~= all);
        out
    }

    fn sweep_pages(&self) -> (r: Vec<Task>)
        ensures
            task_views(r@) == sweep_page_tasks(self@.objects, self@.objects, self@.root),
    {
        let ghost all = self@.objects;
        let mut out: Vec<Task> = Vec::new();
        let mut i: usize = 0;
        assert(task_views(out@) =~= sweep_page_tasks(all.take(0), all, self@.root));
        while i < self.objects.len()
            invariant
                i <= self.objects@.len(),
                all == self@.objects,
                task_views(out@) == sweep_page_tasks(all.take(i as int), all, self@.root),
            decreases self.objects@.len() - i,
        {
            let ghost before = task_views(out@);
            proof {
                let grown = all.take(i + 1);
                assert(grown.drop_last() =~= all.take(i as int));
                assert(grown.last() == all[i as int]);
            }
            if let Some(id) = self.objects[i].text_at("id") {
                if let Some(page) = find_object(&self.objects, id) {
                    if is_kind(page, "page") {
                        let task = page_at(page, &self.root);
                        let ghost t = task@;
                        out.push(task);
                        assert(task_views(out@) =~= before.push(t));
                    }
                }
            }
            i += 1;
        }
        assert(all.take(i as int) =~= all);
        out
    }

    fn sweep(&mut self) -> (r: Request)
        ensures
            (final(self)@, r@) == on_sweep(old(self)@.pushed(TaskView::Sweep)),
    {
        proof {
            lemma_pushed_popped(self@, TaskView::Sweep);
        }
        let mut ids: Vec<String> = Vec::new();
        let mut i: usize = 0;
        while i < self.groups.len()
            invariant
                i <= self.groups@.len(),
                ids@.len() == i,
                forall|j: int| 0 <= j < i ==> (#[trigger] ids@[j])@ == self@.groups[j].0,
            decreases self.groups@.len() - i,
        {
            ids.push(self.groups[i].0.clone());
            i += 1;
        }
        assert(texts(ids@) =~= group_ids(self@.groups));
        let mut tasks: Vec<Task> = root_databases(&ids, &self.root);
        let mut pages: Vec<Task> = self.sweep_pages();
        let ghost a = task_views(tasks@);
        let ghost b = task_views(pages@);
        tasks.append(&mut pages);
        assert(task_views(tasks@) =~= a + b);
        self.push_all(tasks);
        Request::Proceed
    }

    fn prune(&mut self, next: usize) -> (r: Request)
        ensures
            (final(self)@, r@) == on_prune(
                old(self)@.pushed(TaskView::Prune { next: next as nat }),
                next as nat,
            ),
    {
        proof {
            lemma_pushed_popped(self@, TaskView::Prune { next: next as nat });
        }
        if next < self.stored.len() {
            let dir: Vec<String> = copy_path(&self.stored[next]);
            assert(self@.stored[next as int] == path_view(dir@));
            let kept: bool = self.needs(&dir);
            self.push(Task::Prune { next: next + 1 });
            if kept {
                Request::Proceed
            } else {
                Request::Remove(dir)
            }
        } else {
            Request::Proceed
        }
    }

    fn database(&mut self, id: String, parent: Vec<String>) -> (r: Request)
        ensures
            (final(self)@, r@) == on_database(
                old(self)@.pushed(TaskView::Database { id: id@, parent: path_view(parent@) }),
                id@,
                path_view(parent@),
            ),
    {
        proof {
            lemma_pushed_popped(
                self@,
                TaskView::Database { id: id@, parent: path_view(parent@) },
            );
            lemma_pushed_popped(
                self@.marked(id@),
                TaskView::Database { id: id@, parent: path_view(parent@) },
            );
        }
        if !self.visited.contains(&id) {
            self.mark(&id);
            self.push(Task::OpenDatabase { id, parent });
        }
        Request::Proceed
    }

    fn open_database(&mut self, id: String, parent: Vec<String>, reply: Reply) -> (r: Request)
        ensures
            (final(self)@, r@) == on_open_database(
                old(self)@.pushed(TaskView::OpenDatabase { id: id@, parent: path_view(parent@) }),
                id@,
                path_view(parent@),
                reply@,
            ),
    {
        proof {
            lemma_pushed_popped(
                self@,
                TaskView::OpenDatabase { id: id@, parent: path_view(parent@) },
            );
        }
        let db: Json = match self.known(&id) {
            Known::Unasked => {
                let key: String = id.clone();
                return self.ask(&key, Task::OpenDatabase { id, parent }, reply);
            },
            Known::Inaccessible => {
                return Request::Proceed;
            },
            Known::Object(db) => db,
        };
        let title: String = or_untitled(database_title(&db), "untitled-database");
        let dir: Vec<String> = node_dir(&parent, &title, &id);
        let ids: Vec<String> = sources_of(&db, &id, &self.groups);
        let rows: Vec<Json> = Vec::new();
        assert(views(rows@) =~= Seq::empty());
        let made: Vec<String> = copy_path(&dir);
        self.push(Task::Sources { db, id, dir, title, ids, next: 0, rows });
        Request::MakeDir(made)
    }

    fn sources(
        &mut self,
        db: Json,
        id: String,
        dir: Vec<String>,
        title: String,
        ids: Vec<String>,
        next: usize,
        rows: Vec<Json>,
        reply: Reply,
    ) -> (r: Request)
        ensures
            (final(self)@, r@) == on_sources(
                old(self)@.pushed(
                    TaskView::Sources {
                        db: db@,
                        id: id@,
                        dir: path_view(dir@),
                        title: title@,
                        ids: texts(ids@),
                        next: next as nat,
                        rows: views(rows@),
                    },
                ),
                db@,
                id@,
                path_view(dir@),
                title@,
                texts(ids@),
                next as nat,
                views(rows@),
                reply@,
            ),
    {
        let ghost task = TaskView::Sources {
            db: db@,
            id: id@,
            dir: path_view(dir@),
            title: title@,
            ids: texts(ids@),
            next: next as nat,
            rows: views(rows@),
        };
        proof {
            lemma_pushed_popped(self@, task);
        }
        if next < ids.len() {
            match reply {
                Reply::List(Ok(more)) => {
                    let ghost a = views(rows@);
                    let ghost b = views(more@);
                    let mut all: Vec<Json> = rows;
                    let mut more: Vec<Json> = more;
                    all.append(&mut more);
                    assert(views(all@) =~= a + b);
                    self.push(
                        Task::Sources { db, id, dir, title, ids, next: next + 1, rows: all },
                    );
                    Request::Proceed
                },
                Reply::List(Err(e)) => match e {
                    ClientError::Http(_) => {
                        self.push(Task::Sources { db, id, dir, title, ids, next: next + 1, rows });
                        Request::Proceed
                    },
                    ClientError::Other(text) => {
                        self.push(Task::Sources { db, id, dir, title, ids, next, rows });
                        Request::Failed(ClientError::Other(text))
                    },
                },
                _ => {
                    let source: String = ids[next].clone();
                    self.push(Task::Sources { db, id, dir, title, ids, next, rows });
                    Request::Rows(source)
                },
            }
        } else {
            let n: usize = rows.len();
            self.processed = add_up(self.processed, 1);
            self.total = add_up(self.total, n);
            proof {
                lemma_pushed_popped(self@, task);
            }
            let label: String = cat4(&title, " (", &to_decimal(n), " rows)");
            let line: String = progress_line(
                self.processed,
                self.total,
                "dumped",
                "database",
                &label,
            );
            let order: Vec<String> = Vec::new();
            assert(texts(order@) =~= Seq::empty());
            self.push(Task::Rows { db, id, dir, rows, next: 0, order });
            Request::Report(line)
        }
    }

    fn rows(
        &mut self,
        db: Json,
        id: String,
        dir: Vec<String>,
        rows: Vec<Json>,
        next: usize,
        order: Vec<String>,
    ) -> (r: Request)
        ensures
            (final(self)@, r@) == on_rows(
                old(self)@.pushed(
                    TaskView::Rows {
                        db: db@,
                        id: id@,
                        dir: path_view(dir@),
                        rows: views(rows@),
                        next: next as nat,
                        order: texts(order@),
                    },
                ),
                db@,
                id@,
                path_view(dir@),
                views(rows@),
                next as nat,
                texts(order@),
            ),
    {
        proof {
            lemma_pushed_popped(
                self@,
                TaskView::Rows {
                    db: db@,
                    id: id@,
                    dir: path_view(dir@),
                    rows: views(rows@),
                    next: next as nat,
                    order: texts(order@),
                },
            );
        }
        if next >= rows.len() {
            self.record(&dir);
            let content: Json = make_database_node(db, &order);
            return Request::Write(dir, DATABASE_FILE.to_owned(), content);
        }
        let row: Json = rows[next].duplicate();
        if is_kind(&row, "page") {
            let name: Option<String> = match row.text_at("id") {
                Some(row_id) => if self.visited.contains(row_id) {
                    None
                } else {
                    Some(node_file_name(&or_untitled(page_title(&row), "untitled"), row_id))
                },
                None => None,
            };
            if let Some(name) = name {
                let ghost before = texts(order@);
                let ghost n = name@;
                let mut order: Vec<String> = order;
                order.push(name);
                assert(texts(order@) =~= before.push(n));
                let parent: Vec<String> = copy_path(&dir);
                self.push(Task::Rows { db, id, dir, rows, next: next + 1, order });
                self.push(Task::Page { page: row, parent });
            } else {
                self.push(Task::Rows { db, id, dir, rows, next: next + 1, order });
            }
        } else {
            let parent: Vec<String> = copy_path(&dir);
            self.push(Task::Rows { db, id, dir, rows, next: next + 1, order });
            if let Some(sub) = owner(&row) {
                self.push(Task::Database { id: sub.to_owned(), parent });
            }
        }
        Request::Proceed
    }

    fn page(&mut self, page: Json, parent: Vec<String>) -> (r: Request)
        ensures
            (final(self)@, r@) == on_page(
                old(self)@.pushed(TaskView::Page { page: page@, parent: path_view(parent@) }),
                page@,
                path_view(parent@),
            ),
    {
        let ghost task = TaskView::Page { page: page@, parent: path_view(parent@) };
        proof {
            lemma_pushed_popped(self@, task);
        }
        let id: String = match page.text_at("id") {
            Some(id) => id.to_owned(),
            None => {
                return Request::Proceed;
            },
        };
        if self.visited.contains(&id) {
            return Request::Proceed;
        }
        proof {
            lemma_pushed_popped(self@.marked(id@), task);
        }
        self.mark(&id);
        let title: String = or_untitled(page_title(&page), "untitled");
        let dir: Vec<String> = node_dir(&parent, &title, &id);
        let made: Vec<String> = copy_path(&dir);
        self.push(Task::Load { page, id, dir, title });
        Request::MakeDir(made)
    }

    /// Where the earlier tree holds the page as it is now: the directory there.
    fn unchanged(&self, id: &str, page: &Json) -> (r: Option<Vec<String>>)
        ensures
            match r {
                Some(dir) => self@.is_unchanged(id@, page@) && path_view(dir@) == entry_for(
                    self@.prev,
                    id@,
                )->0.dir,
                None => !self@.is_unchanged(id@, page@),
            },
    {
        let at: usize = find_entry(&self.prev, id);
        if at < self.prev.len() {
            assert(self@.prev[at as int] == self.prev@[at as int]@);
            if let Some(now) = page.text_at("last_edited_time") {
                if same(now, &self.prev[at].last_edited_time) {
                    return Some(copy_path(&self.prev[at].dir));
                }
            }
        }
        None
    }

    fn load(
        &mut self,
        page: Json,
        id: String,
        dir: Vec<String>,
        title: String,
        reply: Reply,
    ) -> (r: Request)
        ensures
            (final(self)@, r@) == on_load(
                old(self)@.pushed(
                    TaskView::Load {
                        page: page@,
                        id: id@,
                        dir: path_view(dir@),
                        title: title@,
                    },
                ),
                page@,
                id@,
                path_view(dir@),
                title@,
                reply@,
            ),
    {
        let ghost task = TaskView::Load {
            page: page@,
            id: id@,
            dir: path_view(dir@),
            title: title@,
        };
        if let Some(stored) = self.unchanged(&id, &page) {
            match reply {
                Reply::Stored(Some(blocks)) => {
                    self.reused = add_up(self.reused, 1);
                    proof {
                        lemma_pushed_popped(self@, task);
                    }
                    self.push(Task::Save { page, id, dir, title, blocks, reused: true });
                    return Request::Proceed;
                },
                Reply::Stored(None) => {},
                _ => {
                    self.push(Task::Load { page, id, dir, title });
                    return Request::Stored(stored);
                },
            }
        }
        self.fetched = add_up(self.fetched, 1);
        proof {
            lemma_pushed_popped(self@, task);
        }
        self.push(Task::Gather { page, id, dir, title });
        Request::Proceed
    }

    fn fetch(&mut self, id: String, reply: Reply) -> (r: Request)
        ensures
            (final(self)@, r@) == on_fetch(
                old(self)@.pushed(TaskView::Fetch { id: id@ }),
                id@,
                reply@,
            ),
    {
        proof {
            lemma_pushed_popped(self@, TaskView::Fetch { id: id@ });
        }
        let empty: Vec<Json> = Vec::new();
        assert(views(empty@) =~= Seq::empty());
        match reply {
            Reply::List(Ok(children)) => {
                self.push(Task::Tree { listed: children, next: 0, done: empty });
                Request::Proceed
            },
            Reply::List(Err(e)) => match e {
                ClientError::Http(_) => {
                    let none: Vec<Json> = Vec::new();
                    assert(views(none@) =~= Seq::empty());
                    self.push(Task::Tree { listed: none, next: 0, done: empty });
                    Request::Proceed
                },
                ClientError::Other(text) => {
                    self.push(Task::Fetch { id });
                    Request::Failed(ClientError::Other(text))
                },
            },
            _ => {
                let asked: String = id.clone();
                self.push(Task::Fetch { id });
                Request::Blocks(asked)
            },
        }
    }

    fn tree(&mut self, listed: Vec<Json>, next: usize, done: Vec<Json>) -> (r: Request)
        ensures
            (final(self)@, r@) == on_tree(
                old(self)@.pushed(
                    TaskView::Tree {
                        listed: views(listed@),
                        next: next as nat,
                        done: views(done@),
                    },
                ),
                views(listed@),
                next as nat,
                views(done@),
            ),
    {
        proof {
            lemma_pushed_popped(
                self@,
                TaskView::Tree { listed: views(listed@), next: next as nat, done: views(done@) },
            );
        }
        if next < listed.len() {
            let inner: Option<String> = match nested(&listed[next]) {
                Some(id) => Some(id.to_owned()),
                None => None,
            };
            if let Some(id) = inner {
                self.push(Task::Tree { listed, next, done });
                self.push(Task::Fetch { id });
            } else {
                let ghost before = views(done@);
                let block: Json = listed[next].duplicate();
                let ghost b = block@;
                let mut done: Vec<Json> = done;
                done.push(block);
                assert(views(done@) =~= before.push(b));
                self.push(Task::Tree { listed, next: next + 1, done });
            }
        } else {
            self.deliver(done);
        }
        Request::Proceed
    }

    fn deliver(&mut self, blocks: Vec<Json>)
        ensures
            final(self)@ == delivered(old(self)@, views(blocks@)),
    {
        let ghost before = self@;
        match self.pop() {
            None => {},
            Some(task) => {
                proof {
                    lemma_popped_pushed(before);
                }
                match task {
                    Task::Tree { listed, next, done } => {
                        if next < listed.len() {
                            let ghost list = views(done@);
                            let block: Json = attach(listed[next].duplicate(), blocks);
                            let ghost b = block@;
                            let mut done: Vec<Json> = done;
                            done.push(block);
                            assert(views(done@) =~= list.push(b));
                            self.push(Task::Tree { listed, next: next + 1, done });
                        } else {
                            self.push(Task::Tree { listed, next, done });
                        }
                    },
                    Task::Gather { page, id, dir, title } => {
                        self.push(Task::Save { page, id, dir, title, blocks, reused: false });
                    },
                    other => {
                        self.push(other);
                    },
                }
            },
        }
    }

    fn save(
        &mut self,
        page: Json,
        id: String,
        dir: Vec<String>,
        title: String,
        blocks: Vec<Json>,
        reused: bool,
    ) -> (r: Request)
        ensures
            (final(self)@, r@) == on_save(
                old(self)@.pushed(
                    TaskView::Save {
                        page: page@,
                        id: id@,
                        dir: path_view(dir@),
                        title: title@,
                        blocks: views(blocks@),
                        reused,
                    },
                ),
                page@,
                path_view(dir@),
                title@,
                views(blocks@),
                reused,
            ),
    {
        proof {
            lemma_pushed_popped(
                self@,
                TaskView::Save {
                    page: page@,
                    id: id@,
                    dir: path_view(dir@),
                    title: title@,
                    blocks: views(blocks@),
                    reused,
                },
            );
        }
        let children: Vec<Child> = placed(&blocks);
        let written: Vec<String> = copy_path(&dir);
        let content: Json = make_page_node(page, blocks);
        self.push(Task::Announce { dir, title, children, reused });
        self.record(&written);
        Request::Write(written, PAGE_FILE.to_owned(), content)
    }

    fn announce(
        &mut self,
        dir: Vec<String>,
        title: String,
        children: Vec<Child>,
        reused: bool,
    ) -> (r: Request)
        ensures
            (final(self)@, r@) == on_announce(
                old(self)@.pushed(
                    TaskView::Announce {
                        dir: path_view(dir@),
                        title: title@,
                        children: child_views(children@),
                        reused,
                    },
                ),
                path_view(dir@),
                title@,
                child_views(children@),
                reused,
            ),
    {
        self.processed = add_up(self.processed, 1);
        proof {
            lemma_pushed_popped(
                self@,
                TaskView::Announce {
                    dir: path_view(dir@),
                    title: title@,
                    children: child_views(children@),
                    reused,
                },
            );
        }
        let action: &str = if reused {
            "reused"
        } else {
            "fetched"
        };
        let line: String = progress_line(self.processed, self.total, action, "page", &title);
        self.push(Task::Children { dir, children, next: 0 });
        Request::Report(line)
    }

    fn children(
        &mut self,
        dir: Vec<String>,
        children: Vec<Child>,
        next: usize,
        reply: Reply,
    ) -> (r: Request)
        ensures
            (final(self)@, r@) == on_children(
                old(self)@.pushed(
                    TaskView::Children {
                        dir: path_view(dir@),
                        children: child_views(children@),
                        next: next as nat,
                    },
                ),
                path_view(dir@),
                child_views(children@),
                next as nat,
                reply@,
            ),
    {
        proof {
            lemma_pushed_popped(
                self@,
                TaskView::Children {
                    dir: path_view(dir@),
                    children: child_views(children@),
                    next: next as nat,
                },
            );
        }
        if next >= children.len() {
            return Request::Proceed;
        }
        let parent: Vec<String> = copy_path(&dir);
        assert(child_views(children@)[next as int] == children@[next as int]@);
        match &children[next] {
            Child::Database(id) => {
                let id: String = id.clone();
                self.push(Task::Children { dir, children, next: next + 1 });
                self.push(Task::Database { id, parent });
                Request::Proceed
            },
            Child::Page(id) => {
                let id: String = id.clone();
                let known: Option<Json> = match find_object(&self.objects, &id) {
                    Some(page) => Some(page.duplicate()),
                    None => None,
                };
                if let Some(page) = known {
                    self.push(Task::Children { dir, children, next: next + 1 });
                    self.push(Task::Page { page, parent });
                    return Request::Proceed;
                }
                match reply {
                    Reply::One(Ok(page)) => {
                        self.push(Task::Children { dir, children, next: next + 1 });
                        self.push(Task::Page { page, parent });
                        Request::Proceed
                    },
                    Reply::One(Err(e)) => match e {
                        ClientError::Http(_) => {
                            self.push(Task::Children { dir, children, next: next + 1 });
                            Request::Proceed
                        },
                        ClientError::Other(text) => {
                            self.push(Task::Children { dir, children, next });
                            Request::Failed(ClientError::Other(text))
                        },
                    },
                    _ => {
                        self.push(Task::Children { dir, children, next });
                        Request::Page(id)
                    },
                }
            },
        }
    }

    /// Takes the reply to the last request, and gives the next request.
    pub fn step(&mut self, reply: Reply) -> (r: Request)
        ensures
            (final(self)@, r@) == advance(old(self)@, reply@),
    {
        let ghost before = self@;
        let task: Task = match self.pop() {
            Some(task) => task,
            None => {
                return Request::Finished;
            },
        };
        proof {
            lemma_popped_pushed(before);
        }
        match task {
            Task::MakeRoot => {
                let root: Vec<String> = copy_path(&self.root);
                Request::MakeDir(root)
            },
            Task::Clean => Request::Clean,
            Task::Search => self.search(reply),
            Task::Roots { next, found } => self.roots(next, found, reply),
            Task::Sweep => self.sweep(),
            Task::Prune { next } => self.prune(next),
            Task::Database { id, parent } => self.database(id, parent),
            Task::OpenDatabase { id, parent } => self.open_database(id, parent, reply),
            Task::Sources { db, id, dir, title, ids, next, rows } => self.sources(
                db,
                id,
                dir,
                title,
                ids,
                next,
                rows,
                reply,
            ),
            Task::Rows { db, id, dir, rows, next, order } => self.rows(
                db,
                id,
                dir,
                rows,
                next,
                order,
            ),
            Task::Page { page, parent } => self.page(page, parent),
            Task::Load { page, id, dir, title } => self.load(page, id, dir, title, reply),
            Task::Gather { page, id, dir, title } => {
                let start: String = id.clone();
                self.push(Task::Gather { page, id, dir, title });
                self.push(Task::Fetch { id: start });
                Request::Proceed
            },
            Task::Fetch { id } => self.fetch(id, reply),
            Task::Tree { listed, next, done } => self.tree(listed, next, done),
            Task::Save { page, id, dir, title, blocks, reused } => self.save(
                page,
                id,
                dir,
                title,
                blocks,
                reused,
            ),
            Task::Announce { dir, title, children, reused } => self.announce(
                dir,
                title,
                children,
                reused,
            ),
            Task::Children { dir, children, next } => self.children(dir, children, next, reply),
        }
    }

    /// What the next step passes over, if anything.
    pub fn notice(&self) -> (r: Option<Notice>)
        ensures
            match r {
                Some(notice) => passed_over(self@) == Some(notice@),
                None => passed_over(self@) is None,
            },
    {
        let n: usize = self.tasks.len();
        if n == 0 {
            return None;
        }
        match &self.tasks[n - 1] {
            Task::Sources { title, ids, .. } => if ids.len() == 0 {
                Some(Notice::NoSources(title.clone()))
            } else {
                None
            },
            Task::Rows { db, rows, next, .. } => {
                let next: usize = *next;
                if next >= rows.len() {
                    return None;
                }
                let row: &Json = &rows[next];
                if is_kind(row, "page") || is_kind(row, "data_source") {
                    return None;
                }
                let title: String = or_untitled(database_title(db), "untitled-database");
                match row.text_at("object") {
                    Some(kind) => Some(Notice::UnexpectedRow(Some(kind.to_owned()), title)),
                    None => Some(Notice::UnexpectedRow(None, title)),
                }
            },
            _ => None,
        }
    }

    /// How many objects the earlier tree holds.
    pub fn previously_known(&self) -> (r: usize)
        ensures
            r == self@.prev.len(),
    {
        self.prev.len()
    }

    /// How many pages kept their stored blocks.
    pub fn reused(&self) -> (r: usize)
        ensures
            r == self@.reused,
    {
        self.reused
    }

    /// How many pages had their blocks fetched.
    pub fn fetched(&self) -> (r: usize)
        ensures
            r == self@.fetched,
    {
        self.fetched
    }
}

/// Puts a request to the API, where it is one, with the id that it names; the reply is what the API
/// returned.
pub fn answer<A: Api>(api: &A, request: &Request) -> (r: Option<Reply>)
    ensures
        match *request {
            Request::Search => r matches Some(Reply::List(list)) && call_ensures(
                A::search,
                (api,),
                list,
            ),
            Request::Rows(id) => r matches Some(Reply::List(list)) && exists|key: &str|
                key@ == id@ && #[trigger] call_ensures(A::query_data_source, (api, key), list),
            Request::Blocks(id) => r matches Some(Reply::List(list)) && exists|key: &str|
                key@ == id@ && #[trigger] call_ensures(A::get_block_children, (api, key), list),
            Request::Database(id) => r matches Some(Reply::One(object)) && exists|key: &str|
                key@ == id@ && #[trigger] call_ensures(A::get_database, (api, key), object),
            Request::Page(id) => r matches Some(Reply::One(object)) && exists|key: &str|
                key@ == id@ && #[trigger] call_ensures(A::get_page, (api, key), object),
            _ => r is None,
        },
{
    match request {
        Request::Search => Some(Reply::List(api.search())),
        Request::Rows(id) => {
            let key: &str = id.as_str();
            let list = api.query_data_source(key);
            assert(call_ensures(A::query_data_source, (api, key), list));
            Some(Reply::List(list))
        },
        Request::Blocks(id) => {
            let key: &str = id.as_str();
            let list = api.get_block_children(key);
            assert(call_ensures(A::get_block_children, (api, key), list));
            Some(Reply::List(list))
        },
        Request::Database(id) => {
            let key: &str = id.as_str();
            let object = api.get_database(key);
            assert(call_ensures(A::get_database, (api, key), object));
            Some(Reply::One(object))
        },
        Request::Page(id) => {
            let key: &str = id.as_str();
            let object = api.get_page(key);
            assert(call_ensures(A::get_page, (api, key), object));
            Some(Reply::One(object))
        },
        _ => None,
    }
}

fn add_up(a: usize, b: usize) -> (r: usize)
    ensures
        r == tally(a as nat, b as nat),
{
    if a > usize::MAX - b {
        usize::MAX
    } else {
        a + b
    }
}

fn page_at(page: &Json, parent: &Vec<String>) -> (r: Task)
    ensures
        r@ == (TaskView::Page { page: page@, parent: path_view(parent@) }),
{
    Task::Page { page: page.duplicate(), parent: copy_path(parent) }
}

fn root_databases(ids: &Vec<String>, root: &Vec<String>) -> (r: Vec<Task>)
    ensures
        task_views(r@) == database_tasks(texts(ids@), path_view(root@)),
{
    let mut out: Vec<Task> = Vec::new();
    let mut i: usize = 0;
    while i < ids.len()
        invariant
            i <= ids@.len(),
            out@.len() == i,
            forall|j: int|
                0 <= j < i ==> (#[trigger] out@[j])@ == (TaskView::Database {
                    id: ids@[j]@,
                    parent: path_view(root@),
                }),
        decreases ids@.len() - i,
    {
        out.push(Task::Database { id: ids[i].clone(), parent: copy_path(root) });
        i += 1;
    }
    assert(task_views(out@) =~= database_tasks(texts(ids@), path_view(root@)));
    out
}

proof fn lemma_pushed_popped(s: DumpView, task: TaskView)
    ensures
        s.pushed(task).popped() == s,
{
    assert(s.tasks.push(task).drop_last() =~= s.tasks);
}

proof fn lemma_popped_pushed(s: DumpView)
    requires
        s.tasks.len() > 0,
    ensures
        s.popped().pushed(s.tasks.last()) == s,
{
    assert(s.tasks.drop_last().push(s.tasks.last()) =~= s.tasks);
}

} // verus!
