//! What a dump does, step by step.
//!
//! A dump is a state, [`DumpView`], that a reply moves on: [`advance`] gives the next state and the
//! next request. The work still to be done is a stack of tasks, the next one on top.

use vstd::prelude::*;

use crate::blocks::CHILD_KEY;
use crate::client::{ClientError, ErrorView};
use crate::dump::{
    database_node, entry_for, node_dirs, node_name, node_path, page_node, path_view, progress,
    resolved, scanned, PrevView, StoredView, DATABASE_FILE, PAGE_FILE,
};
use crate::json::{lemma_items_at_smaller, put, views, Json, JsonView};
use crate::text::{decimal, or_default, or_empty};
use crate::util::{title_of_database, title_of_page};

verus! {

/// The names on the way to a directory. Where the way starts at the root of the file system, `/` is
/// the first of them.
pub type Path = Seq<Seq<char>>;

// ---------------------------------------------------------------------------
// Requests and replies
// ---------------------------------------------------------------------------
/// What the caller hands back.
pub enum Reply {
    /// The request needed no answer, and is done.
    Done,
    /// The answer to `Search`, `Rows` or `Blocks`.
    List(Result<Vec<Json>, ClientError>),
    /// The answer to `Database` or `Page`.
    One(Result<Json, ClientError>),
    /// The answer to `Stored`: the blocks, where the page file is there and can be read.
    Stored(Option<Vec<Json>>),
}

/// What a reply says.
pub enum ReplyView {
    Done,
    List(Result<Seq<JsonView>, ErrorView>),
    One(Result<JsonView, ErrorView>),
    Stored(Option<Seq<JsonView>>),
}

impl View for Reply {
    type V = ReplyView;

    open spec fn view(&self) -> ReplyView {
        match *self {
            Reply::Done => ReplyView::Done,
            Reply::List(Ok(list)) => ReplyView::List(Ok(views(list@))),
            Reply::List(Err(e)) => ReplyView::List(Err(e@)),
            Reply::One(Ok(value)) => ReplyView::One(Ok(value@)),
            Reply::One(Err(e)) => ReplyView::One(Err(e@)),
            Reply::Stored(Some(blocks)) => ReplyView::Stored(Some(views(blocks@))),
            Reply::Stored(None) => ReplyView::Stored(None),
        }
    }
}

/// What the caller is asked to do.
pub enum Request {
    /// Nothing; go on.
    Proceed,
    /// Enumerate every page and data source.
    Search,
    /// Retrieve a database object.
    Database(String),
    /// Retrieve a page object.
    Page(String),
    /// Query the rows of a data source.
    Rows(String),
    /// Retrieve the direct children of a block.
    Blocks(String),
    /// Read the blocks in the page file of a directory.
    Stored(Vec<String>),
    /// Create a directory.
    MakeDir(Vec<String>),
    /// Remove what an earlier run left, hidden files excepted.
    Clean,
    /// Write a node file.
    Write(Vec<String>, String, Json),
    /// Report progress.
    Report(String),
    /// Remove a directory, where it is still there.
    Remove(Vec<String>),
    /// Stop with this error.
    Failed(ClientError),
    /// The dump is complete.
    Finished,
}

/// What a request asks for.
pub enum RequestView {
    Proceed,
    Search,
    Database(Seq<char>),
    Page(Seq<char>),
    Rows(Seq<char>),
    Blocks(Seq<char>),
    Stored(Path),
    MakeDir(Path),
    Clean,
    Write(Path, Seq<char>, JsonView),
    Report(Seq<char>),
    Remove(Path),
    Failed(ErrorView),
    Finished,
}

impl View for Request {
    type V = RequestView;

    open spec fn view(&self) -> RequestView {
        match *self {
            Request::Proceed => RequestView::Proceed,
            Request::Search => RequestView::Search,
            Request::Database(id) => RequestView::Database(id@),
            Request::Page(id) => RequestView::Page(id@),
            Request::Rows(id) => RequestView::Rows(id@),
            Request::Blocks(id) => RequestView::Blocks(id@),
            Request::Stored(dir) => RequestView::Stored(path_view(dir@)),
            Request::MakeDir(dir) => RequestView::MakeDir(path_view(dir@)),
            Request::Clean => RequestView::Clean,
            Request::Write(dir, file, content) => RequestView::Write(
                path_view(dir@),
                file@,
                content@,
            ),
            Request::Report(line) => RequestView::Report(line@),
            Request::Remove(dir) => RequestView::Remove(path_view(dir@)),
            Request::Failed(e) => RequestView::Failed(e@),
            Request::Finished => RequestView::Finished,
        }
    }
}

// ---------------------------------------------------------------------------
// Discovery
// ---------------------------------------------------------------------------
/// Whether an object is a page.
pub open spec fn is_page(obj: JsonView) -> bool {
    obj.text_at("object"@) == Some("page"@)
}

/// The database that a data source belongs to; nothing for any other object.
pub open spec fn owner_of(obj: JsonView) -> Option<Seq<char>> {
    if obj.text_at("object"@) == Some("data_source"@) {
        match obj.get("parent"@) {
            Some(parent) => parent.text_at("database_id"@),
            None => None,
        }
    } else {
        None
    }
}

/// The object that the search found under an id: the last one.
pub open spec fn found(objects: Seq<JsonView>, id: Seq<char>) -> Option<JsonView>
    decreases objects.len(),
{
    if objects.len() == 0 {
        None
    } else if objects.last().text_at("id"@) == Some(id) {
        Some(objects.last())
    } else {
        found(objects.drop_last(), id)
    }
}

/// The id of the object that another one sits in; nothing at the top of the workspace.
pub open spec fn parent_id(obj: JsonView) -> Option<Seq<char>> {
    match obj.get("parent"@) {
        Some(parent) => match parent.text_at("type"@) {
            Some(kind) => if kind == "workspace"@ {
                None
            } else {
                parent.text_at(kind)
            },
            None => None,
        },
        None => None,
    }
}

/// Whether an object is a root: its parent is the workspace, or is not itself accessible.
pub open spec fn is_root(obj: JsonView, objects: Seq<JsonView>) -> bool {
    match parent_id(obj) {
        Some(id) => found(objects, id) is None,
        None => true,
    }
}

/// The data sources of every database, the databases in the order of their first source.
pub open spec fn grouped(objects: Seq<JsonView>) -> Seq<(Seq<char>, Seq<JsonView>)>
    decreases objects.len(),
{
    if objects.len() == 0 {
        Seq::empty()
    } else {
        let before = grouped(objects.drop_last());
        match owner_of(objects.last()) {
            Some(db) => add_source(before, db, objects.last()),
            None => before,
        }
    }
}

/// The groups with one more source under a database.
pub open spec fn add_source(
    groups: Seq<(Seq<char>, Seq<JsonView>)>,
    db: Seq<char>,
    source: JsonView,
) -> Seq<(Seq<char>, Seq<JsonView>)>
    decreases groups.len(),
{
    if groups.len() == 0 {
        seq![(db, seq![source])]
    } else if groups[0].0 == db {
        seq![(db, groups[0].1.push(source))] + groups.skip(1)
    } else {
        seq![groups[0]] + add_source(groups.skip(1), db, source)
    }
}

/// The sources that the search found for a database.
pub open spec fn sources_in(groups: Seq<(Seq<char>, Seq<JsonView>)>, db: Seq<char>) -> Seq<JsonView>
    decreases groups.len(),
{
    if groups.len() == 0 {
        Seq::empty()
    } else if groups[0].0 == db {
        groups[0].1
    } else {
        sources_in(groups.skip(1), db)
    }
}

/// How many of the objects are pages.
pub open spec fn page_count(objects: Seq<JsonView>) -> nat
    decreases objects.len(),
{
    if objects.len() == 0 {
        0
    } else {
        page_count(objects.drop_last()) + if is_page(objects.last()) {
            1nat
        } else {
            0nat
        }
    }
}

/// The ids of the sources to query for a database: its own, else those that the search found.
pub open spec fn source_ids(
    db: JsonView,
    id: Seq<char>,
    groups: Seq<(Seq<char>, Seq<JsonView>)>,
) -> Seq<Seq<char>> {
    let own = match db.items_at("data_sources"@) {
        Some(list) => list,
        None => Seq::empty(),
    };
    let sources = if own.len() > 0 {
        own
    } else {
        sources_in(groups, id)
    };
    sources.map_values(|src: JsonView| or_empty(src.text_at("id"@)))
}

/// The block whose children are to be fetched: it has some, and is no object of its own.
pub open spec fn nested_id(block: JsonView) -> Option<Seq<char>> {
    let btype = block.text_at("type"@);
    if block.flag_at("has_children"@) && btype != Some("child_page"@) && btype != Some(
        "child_database"@,
    ) {
        block.text_at("id"@)
    } else {
        None
    }
}

/// A block with its children attached.
pub open spec fn with_children(block: JsonView, children: Seq<JsonView>) -> JsonView {
    match block {
        JsonView::Object(fields) => JsonView::Object(
            put(fields, CHILD_KEY@, JsonView::Array(children)),
        ),
        other => other,
    }
}

/// A page or database that is placed in a page.
pub enum ChildView {
    Page(Seq<char>),
    Database(Seq<char>),
}

/// The object that a block stands for.
pub open spec fn child_of(block: JsonView) -> Option<ChildView> {
    match block.text_at("id"@) {
        Some(id) => {
            let btype = block.text_at("type"@);
            if btype == Some("child_page"@) {
                Some(ChildView::Page(id))
            } else if btype == Some("child_database"@) {
                Some(ChildView::Database(id))
            } else {
                None
            }
        },
        None => None,
    }
}

/// The objects that a block and the blocks nested in it stand for.
pub open spec fn children_at(block: JsonView) -> Seq<ChildView>
    decreases block,
{
    let own = match child_of(block) {
        Some(child) => seq![child],
        None => Seq::empty(),
    };
    match block.items_at(CHILD_KEY@) {
        Some(nested) => {
            proof {
                lemma_items_at_smaller(block, CHILD_KEY@);
            }
            own + children_in(nested)
        },
        None => own,
    }
}

/// The objects that the blocks of a page stand for, at any depth and in order.
pub open spec fn children_in(blocks: Seq<JsonView>) -> Seq<ChildView>
    decreases blocks,
{
    if blocks.len() == 0 {
        Seq::empty()
    } else {
        children_in(blocks.drop_last()) + children_at(blocks.last())
    }
}

/// The title that a page is filed under.
pub open spec fn page_label(page: JsonView) -> Seq<char> {
    or_default(title_of_page(page), "untitled"@)
}

/// The title that a database is filed under.
pub open spec fn database_label(db: JsonView) -> Seq<char> {
    or_default(title_of_database(db), "untitled-database"@)
}

/// `a + b`, as far as the machine counts.
pub open spec fn tally(a: nat, b: nat) -> nat {
    if a + b > usize::MAX {
        usize::MAX as nat
    } else {
        a + b
    }
}

// ---------------------------------------------------------------------------
// Tasks
// ---------------------------------------------------------------------------
/// A piece of work. The fields are named as in [`Task`].
pub enum TaskView {
    MakeRoot,
    Clean,
    Search,
    Roots { next: nat, found: Seq<Seq<char>> },
    Sweep,
    Prune { next: nat },
    Database { id: Seq<char>, parent: Path },
    OpenDatabase { id: Seq<char>, parent: Path },
    Sources {
        db: JsonView,
        id: Seq<char>,
        dir: Path,
        title: Seq<char>,
        ids: Seq<Seq<char>>,
        next: nat,
        rows: Seq<JsonView>,
    },
    Rows {
        db: JsonView,
        id: Seq<char>,
        dir: Path,
        rows: Seq<JsonView>,
        next: nat,
        order: Seq<Seq<char>>,
    },
    Page { page: JsonView, parent: Path },
    Load { page: JsonView, id: Seq<char>, dir: Path, title: Seq<char> },
    Gather { page: JsonView, id: Seq<char>, dir: Path, title: Seq<char> },
    Fetch { id: Seq<char> },
    Tree { listed: Seq<JsonView>, next: nat, done: Seq<JsonView> },
    Save {
        page: JsonView,
        id: Seq<char>,
        dir: Path,
        title: Seq<char>,
        blocks: Seq<JsonView>,
        reused: bool,
    },
    Announce { dir: Path, title: Seq<char>, children: Seq<ChildView>, reused: bool },
    Children { dir: Path, children: Seq<ChildView>, next: nat },
}

/// The state of a dump.
pub struct DumpView {
    /// The directory that the dump goes into.
    pub root: Path,
    /// The objects of the earlier tree, where the dump is incremental.
    pub prev: Seq<PrevView>,
    /// The directories of the nodes in that tree.
    pub stored: Seq<Path>,
    /// What the search found.
    pub objects: Seq<JsonView>,
    /// The data sources among it, by database.
    pub groups: Seq<(Seq<char>, Seq<JsonView>)>,
    /// The databases asked for so far; nothing for one that is inaccessible.
    pub cache: Seq<(Seq<char>, Option<JsonView>)>,
    /// The ids of the objects taken up.
    pub visited: Set<Seq<char>>,
    /// The directories of the nodes written.
    pub seen: Seq<Path>,
    pub reused: nat,
    pub fetched: nat,
    pub processed: nat,
    pub total: nat,
    /// What is left to do, the next task last.
    pub tasks: Seq<TaskView>,
}

/// What was learnt about a database; nothing where it was not asked for yet.
pub open spec fn cached(cache: Seq<(Seq<char>, Option<JsonView>)>, id: Seq<char>) -> Option<
    Option<JsonView>,
>
    decreases cache.len(),
{
    if cache.len() == 0 {
        None
    } else if cache.last().0 == id {
        Some(cache.last().1)
    } else {
        cached(cache.drop_last(), id)
    }
}

/// The tasks for the databases, at the root.
pub open spec fn database_tasks(ids: Seq<Seq<char>>, root: Path) -> Seq<TaskView> {
    ids.map_values(|id: Seq<char>| TaskView::Database { id, parent: root })
}

/// The tasks for the pages at the top level.
pub open spec fn root_page_tasks(
    objects: Seq<JsonView>,
    all: Seq<JsonView>,
    root: Path,
) -> Seq<TaskView>
    decreases objects.len(),
{
    if objects.len() == 0 {
        Seq::empty()
    } else {
        let before = root_page_tasks(objects.drop_last(), all, root);
        if is_page(objects.last()) && is_root(objects.last(), all) {
            before.push(TaskView::Page { page: objects.last(), parent: root })
        } else {
            before
        }
    }
}

/// The page that the search found under the id of an object.
pub open spec fn current_page(obj: JsonView, all: Seq<JsonView>) -> Option<JsonView> {
    match obj.text_at("id"@) {
        Some(id) => match found(all, id) {
            Some(page) => if is_page(page) {
                Some(page)
            } else {
                None
            },
            None => None,
        },
        None => None,
    }
}

/// The tasks for every page that the search found.
pub open spec fn sweep_page_tasks(
    objects: Seq<JsonView>,
    all: Seq<JsonView>,
    root: Path,
) -> Seq<TaskView>
    decreases objects.len(),
{
    if objects.len() == 0 {
        Seq::empty()
    } else {
        let before = sweep_page_tasks(objects.drop_last(), all, root);
        match current_page(objects.last(), all) {
            Some(page) => before.push(TaskView::Page { page, parent: root }),
            None => before,
        }
    }
}

/// The databases that the search found, in order.
pub open spec fn group_ids(groups: Seq<(Seq<char>, Seq<JsonView>)>) -> Seq<Seq<char>> {
    groups.map_values(|g: (Seq<char>, Seq<JsonView>)| g.0)
}

impl DumpView {
    /// Without the task on top.
    pub open spec fn popped(self) -> DumpView {
        DumpView { tasks: self.tasks.drop_last(), ..self }
    }

    /// With one more task on top.
    pub open spec fn pushed(self, task: TaskView) -> DumpView {
        DumpView { tasks: self.tasks.push(task), ..self }
    }

    /// With more tasks on top, the first one topmost.
    pub open spec fn pushed_all(self, tasks: Seq<TaskView>) -> DumpView {
        DumpView { tasks: self.tasks + tasks.reverse(), ..self }
    }

    /// With another task in place of the one on top.
    pub open spec fn replaced(self, task: TaskView) -> DumpView {
        self.popped().pushed(task)
    }

    /// With an object taken up.
    pub open spec fn marked(self, id: Seq<char>) -> DumpView {
        DumpView { visited: self.visited.insert(id), ..self }
    }

    /// With what was learnt about a database.
    pub open spec fn learnt(self, id: Seq<char>, db: Option<JsonView>) -> DumpView {
        DumpView { cache: self.cache.push((id, db)), ..self }
    }

    /// With a node written.
    pub open spec fn written(self, dir: Path) -> DumpView {
        DumpView { seen: self.seen.push(dir), ..self }
    }

    /// Whether the earlier tree holds a page as it is now.
    pub open spec fn is_unchanged(self, id: Seq<char>, page: JsonView) -> bool {
        match entry_for(self.prev, id) {
            Some(entry) => page.text_at("last_edited_time"@) == Some(entry.last_edited_time),
            None => false,
        }
    }
}

// ---------------------------------------------------------------------------
// Transitions
// ---------------------------------------------------------------------------
/// Where a database is not known yet: ask for it, and learn from the reply.
pub open spec fn ask_database(s: DumpView, id: Seq<char>, reply: ReplyView) -> (
    DumpView,
    RequestView,
) {
    match reply {
        ReplyView::One(Ok(db)) => (s.learnt(id, Some(db)), RequestView::Proceed),
        ReplyView::One(Err(ErrorView::Http(_))) => (s.learnt(id, None), RequestView::Proceed),
        ReplyView::One(Err(e)) => (s, RequestView::Failed(e)),
        _ => (s, RequestView::Database(id)),
    }
}

/// Enumerate the workspace.
pub open spec fn on_search(s: DumpView, reply: ReplyView) -> (DumpView, RequestView) {
    match reply {
        ReplyView::List(Ok(objects)) => {
            let groups = grouped(objects);
            let t = DumpView {
                objects,
                groups,
                total: tally(page_count(objects), groups.len()),
                ..s.popped()
            };
            (t.pushed(TaskView::Roots { next: 0, found: Seq::empty() }), RequestView::Proceed)
        },
        ReplyView::List(Err(e)) => (s, RequestView::Failed(e)),
        _ => (s, RequestView::Search),
    }
}

/// Find the databases at the top level, then take up what is there: databases first, then pages.
pub open spec fn on_roots(s: DumpView, next: nat, found: Seq<Seq<char>>, reply: ReplyView) -> (
    DumpView,
    RequestView,
) {
    if next < s.groups.len() {
        let id = s.groups[next as int].0;
        match cached(s.cache, id) {
            None => ask_database(s, id, reply),
            Some(known) => {
                let is_top = match known {
                    Some(db) => is_root(db, s.objects),
                    None => false,
                };
                let all = if is_top {
                    found.push(id)
                } else {
                    found
                };
                (
                    s.replaced(TaskView::Roots { next: next + 1, found: all }),
                    RequestView::Proceed,
                )
            },
        }
    } else {
        (
            s.popped().pushed_all(
                database_tasks(found, s.root) + root_page_tasks(s.objects, s.objects, s.root),
            ),
            RequestView::Proceed,
        )
    }
}

/// Take up, at the root, whatever the search found and the walk may have missed.
pub open spec fn on_sweep(s: DumpView) -> (DumpView, RequestView) {
    (
        s.popped().pushed_all(
            database_tasks(group_ids(s.groups), s.root) + sweep_page_tasks(
                s.objects,
                s.objects,
                s.root,
            ),
        ),
        RequestView::Proceed,
    )
}

/// Whether a directory may not be removed: the root, or a node of this dump, stands in it or below
/// it.
pub open spec fn is_needed(root: Path, seen: Seq<Path>, dir: Path) -> bool {
    is_at_or_above(dir, root) || exists|k: int|
        0 <= k < seen.len() && is_at_or_above(dir, #[trigger] seen[k])
}

/// Whether a directory is another one, or stands above it.
pub open spec fn is_at_or_above(dir: Path, other: Path) -> bool {
    resolved(dir).is_prefix_of(resolved(other))
}

/// Remove the nodes of the earlier tree that were not written this time.
pub open spec fn on_prune(s: DumpView, next: nat) -> (DumpView, RequestView) {
    if next < s.stored.len() {
        let dir = s.stored[next as int];
        (
            s.replaced(TaskView::Prune { next: next + 1 }),
            if is_needed(s.root, s.seen, dir) {
                RequestView::Proceed
            } else {
                RequestView::Remove(dir)
            },
        )
    } else {
        (s.popped(), RequestView::Proceed)
    }
}

/// Take up a database, unless it was taken up before.
pub open spec fn on_database(s: DumpView, id: Seq<char>, parent: Path) -> (DumpView, RequestView) {
    if s.visited.contains(id) {
        (s.popped(), RequestView::Proceed)
    } else {
        (s.marked(id).replaced(TaskView::OpenDatabase { id, parent }), RequestView::Proceed)
    }
}

/// Open a database; an inaccessible one is skipped.
pub open spec fn on_open_database(
    s: DumpView,
    id: Seq<char>,
    parent: Path,
    reply: ReplyView,
) -> (DumpView, RequestView) {
    match cached(s.cache, id) {
        None => ask_database(s, id, reply),
        Some(None) => (s.popped(), RequestView::Proceed),
        Some(Some(db)) => {
            let title = database_label(db);
            let dir = node_path(parent, title, id);
            (
                s.replaced(
                    TaskView::Sources {
                        db,
                        id,
                        dir,
                        title,
                        ids: source_ids(db, id, s.groups),
                        next: 0,
                        rows: Seq::empty(),
                    },
                ),
                RequestView::MakeDir(dir),
            )
        },
    }
}

/// Query the rows of every source; an inaccessible source is skipped.
pub open spec fn on_sources(
    s: DumpView,
    db: JsonView,
    id: Seq<char>,
    dir: Path,
    title: Seq<char>,
    ids: Seq<Seq<char>>,
    next: nat,
    rows: Seq<JsonView>,
    reply: ReplyView,
) -> (DumpView, RequestView) {
    if next < ids.len() {
        match reply {
            ReplyView::List(Ok(more)) => (
                s.replaced(
                    TaskView::Sources {
                        db,
                        id,
                        dir,
                        title,
                        ids,
                        next: next + 1,
                        rows: rows + more,
                    },
                ),
                RequestView::Proceed,
            ),
            ReplyView::List(Err(ErrorView::Http(_))) => (
                s.replaced(TaskView::Sources { db, id, dir, title, ids, next: next + 1, rows }),
                RequestView::Proceed,
            ),
            ReplyView::List(Err(e)) => (s, RequestView::Failed(e)),
            _ => (s, RequestView::Rows(ids[next as int])),
        }
    } else {
        let processed = tally(s.processed, 1);
        let total = tally(s.total, rows.len());
        let label = title + " ("@ + decimal(rows.len()) + " rows)"@;
        let t = DumpView { processed, total, ..s };
        (
            t.replaced(TaskView::Rows { db, id, dir, rows, next: 0, order: Seq::empty() }),
            RequestView::Report(progress(processed, total, "dumped"@, "database"@, label)),
        )
    }
}

/// Take up the rows of a database, then write its node.
pub open spec fn on_rows(
    s: DumpView,
    db: JsonView,
    id: Seq<char>,
    dir: Path,
    rows: Seq<JsonView>,
    next: nat,
    order: Seq<Seq<char>>,
) -> (DumpView, RequestView) {
    if next < rows.len() {
        let row = rows[next as int];
        if is_page(row) {
            match row.text_at("id"@) {
                Some(row_id) => if s.visited.contains(row_id) {
                    (
                        s.replaced(TaskView::Rows { db, id, dir, rows, next: next + 1, order }),
                        RequestView::Proceed,
                    )
                } else {
                    let name = node_name(page_label(row), row_id);
                    (
                        s.replaced(
                            TaskView::Rows {
                                db,
                                id,
                                dir,
                                rows,
                                next: next + 1,
                                order: order.push(name),
                            },
                        ).pushed(TaskView::Page { page: row, parent: dir }),
                        RequestView::Proceed,
                    )
                },
                None => (
                    s.replaced(TaskView::Rows { db, id, dir, rows, next: next + 1, order }),
                    RequestView::Proceed,
                ),
            }
        } else {
            let t = s.replaced(TaskView::Rows { db, id, dir, rows, next: next + 1, order });
            match owner_of(row) {
                Some(sub) => (
                    t.pushed(TaskView::Database { id: sub, parent: dir }),
                    RequestView::Proceed,
                ),
                None => (t, RequestView::Proceed),
            }
        }
    } else {
        (
            s.popped().written(dir),
            RequestView::Write(dir, DATABASE_FILE@, database_node(db, order)),
        )
    }
}

/// Take up a page, unless it has no id or was taken up before.
pub open spec fn on_page(s: DumpView, page: JsonView, parent: Path) -> (DumpView, RequestView) {
    match page.text_at("id"@) {
        Some(id) => if s.visited.contains(id) {
            (s.popped(), RequestView::Proceed)
        } else {
            let title = page_label(page);
            let dir = node_path(parent, title, id);
            (
                s.marked(id).replaced(TaskView::Load { page, id, dir, title }),
                RequestView::MakeDir(dir),
            )
        },
        None => (s.popped(), RequestView::Proceed),
    }
}

/// Reuse the stored blocks of an unchanged page, where they can be read; else fetch them.
pub open spec fn on_load(
    s: DumpView,
    page: JsonView,
    id: Seq<char>,
    dir: Path,
    title: Seq<char>,
    reply: ReplyView,
) -> (DumpView, RequestView) {
    let fetching = DumpView { fetched: tally(s.fetched, 1), ..s }.replaced(
        TaskView::Gather { page, id, dir, title },
    );
    if s.is_unchanged(id, page) {
        match reply {
            ReplyView::Stored(Some(blocks)) => (
                DumpView { reused: tally(s.reused, 1), ..s }.replaced(
                    TaskView::Save { page, id, dir, title, blocks, reused: true },
                ),
                RequestView::Proceed,
            ),
            ReplyView::Stored(None) => (fetching, RequestView::Proceed),
            _ => (s, RequestView::Stored(entry_for(s.prev, id)->0.dir)),
        }
    } else {
        (fetching, RequestView::Proceed)
    }
}

/// Fetch the direct children of a block; those of an inaccessible one are skipped.
pub open spec fn on_fetch(s: DumpView, id: Seq<char>, reply: ReplyView) -> (DumpView, RequestView) {
    match reply {
        ReplyView::List(Ok(children)) => (
            s.replaced(TaskView::Tree { listed: children, next: 0, done: Seq::empty() }),
            RequestView::Proceed,
        ),
        ReplyView::List(Err(ErrorView::Http(_))) => (
            s.replaced(TaskView::Tree { listed: Seq::empty(), next: 0, done: Seq::empty() }),
            RequestView::Proceed,
        ),
        ReplyView::List(Err(e)) => (s, RequestView::Failed(e)),
        _ => (s, RequestView::Blocks(id)),
    }
}

/// Go through the children of a block, fetching what is nested in them; hand the finished list to
/// the task that asked for it.
pub open spec fn on_tree(s: DumpView, listed: Seq<JsonView>, next: nat, done: Seq<JsonView>) -> (
    DumpView,
    RequestView,
) {
    if next < listed.len() {
        let block = listed[next as int];
        match nested_id(block) {
            Some(id) => (s.pushed(TaskView::Fetch { id }), RequestView::Proceed),
            None => (
                s.replaced(TaskView::Tree { listed, next: next + 1, done: done.push(block) }),
                RequestView::Proceed,
            ),
        }
    } else {
        (delivered(s.popped(), done), RequestView::Proceed)
    }
}

/// With a finished list of blocks handed to the task on top.
pub open spec fn delivered(s: DumpView, blocks: Seq<JsonView>) -> DumpView {
    if s.tasks.len() == 0 {
        s
    } else {
        match s.tasks.last() {
            TaskView::Tree { listed, next, done } => if next < listed.len() {
                let block = with_children(listed[next as int], blocks);
                s.replaced(TaskView::Tree { listed, next: next + 1, done: done.push(block) })
            } else {
                s
            },
            TaskView::Gather { page, id, dir, title } => s.replaced(
                TaskView::Save { page, id, dir, title, blocks, reused: false },
            ),
            _ => s,
        }
    }
}

/// Write the node of a page.
pub open spec fn on_save(
    s: DumpView,
    page: JsonView,
    dir: Path,
    title: Seq<char>,
    blocks: Seq<JsonView>,
    reused: bool,
) -> (DumpView, RequestView) {
    (
        s.replaced(
            TaskView::Announce { dir, title, children: children_in(blocks), reused },
        ).written(dir),
        RequestView::Write(dir, PAGE_FILE@, page_node(page, blocks)),
    )
}

/// Report a page, then turn to the objects placed in it.
pub open spec fn on_announce(
    s: DumpView,
    dir: Path,
    title: Seq<char>,
    children: Seq<ChildView>,
    reused: bool,
) -> (DumpView, RequestView) {
    let processed = tally(s.processed, 1);
    (
        DumpView { processed, ..s }.replaced(TaskView::Children { dir, children, next: 0 }),
        RequestView::Report(
            progress(
                processed,
                s.total,
                if reused {
                    "reused"@
                } else {
                    "fetched"@
                },
                "page"@,
                title,
            ),
        ),
    )
}

/// Take up the objects placed in a page. A page that the search did not find is asked for; an
/// inaccessible one is skipped.
pub open spec fn on_children(
    s: DumpView,
    dir: Path,
    children: Seq<ChildView>,
    next: nat,
    reply: ReplyView,
) -> (DumpView, RequestView) {
    if next < children.len() {
        let t = s.replaced(TaskView::Children { dir, children, next: next + 1 });
        match children[next as int] {
            ChildView::Database(id) => (
                t.pushed(TaskView::Database { id, parent: dir }),
                RequestView::Proceed,
            ),
            ChildView::Page(id) => match found(s.objects, id) {
                Some(page) => (
                    t.pushed(TaskView::Page { page, parent: dir }),
                    RequestView::Proceed,
                ),
                None => match reply {
                    ReplyView::One(Ok(page)) => (
                        t.pushed(TaskView::Page { page, parent: dir }),
                        RequestView::Proceed,
                    ),
                    ReplyView::One(Err(ErrorView::Http(_))) => (t, RequestView::Proceed),
                    ReplyView::One(Err(e)) => (s, RequestView::Failed(e)),
                    _ => (s, RequestView::Page(id)),
                },
            },
        }
    } else {
        (s.popped(), RequestView::Proceed)
    }
}

/// The next state and request. A request that fails leaves the state as it is.
pub open spec fn advance(s: DumpView, reply: ReplyView) -> (DumpView, RequestView) {
    if s.tasks.len() == 0 {
        (s, RequestView::Finished)
    } else {
        match s.tasks.last() {
            TaskView::MakeRoot => (s.popped(), RequestView::MakeDir(s.root)),
            TaskView::Clean => (s.popped(), RequestView::Clean),
            TaskView::Search => on_search(s, reply),
            TaskView::Roots { next, found } => on_roots(s, next, found, reply),
            TaskView::Sweep => on_sweep(s),
            TaskView::Prune { next } => on_prune(s, next),
            TaskView::Database { id, parent } => on_database(s, id, parent),
            TaskView::OpenDatabase { id, parent } => on_open_database(s, id, parent, reply),
            TaskView::Sources { db, id, dir, title, ids, next, rows } => on_sources(
                s,
                db,
                id,
                dir,
                title,
                ids,
                next,
                rows,
                reply,
            ),
            TaskView::Rows { db, id, dir, rows, next, order } => on_rows(
                s,
                db,
                id,
                dir,
                rows,
                next,
                order,
            ),
            TaskView::Page { page, parent } => on_page(s, page, parent),
            TaskView::Load { page, id, dir, title } => on_load(s, page, id, dir, title, reply),
            TaskView::Gather { page, id, dir, title } => (
                s.pushed(TaskView::Fetch { id }),
                RequestView::Proceed,
            ),
            TaskView::Fetch { id } => on_fetch(s, id, reply),
            TaskView::Tree { listed, next, done } => on_tree(s, listed, next, done),
            TaskView::Save { page, id, dir, title, blocks, reused } => on_save(
                s,
                page,
                dir,
                title,
                blocks,
                reused,
            ),
            TaskView::Announce { dir, title, children, reused } => on_announce(
                s,
                dir,
                title,
                children,
                reused,
            ),
            TaskView::Children { dir, children, next } => on_children(
                s,
                dir,
                children,
                next,
                reply,
            ),
        }
    }
}

/// Something in the workspace that a dump passes over.
pub enum Notice {
    /// No data source of a database is accessible.
    NoSources(String),
    /// A row of a database is neither a page nor a data source, but of this kind.
    UnexpectedRow(Option<String>, String),
}

/// What a notice says.
pub enum NoticeView {
    NoSources(Seq<char>),
    UnexpectedRow(Option<Seq<char>>, Seq<char>),
}

impl View for Notice {
    type V = NoticeView;

    open spec fn view(&self) -> NoticeView {
        match *self {
            Notice::NoSources(title) => NoticeView::NoSources(title@),
            Notice::UnexpectedRow(Some(kind), title) => NoticeView::UnexpectedRow(
                Some(kind@),
                title@,
            ),
            Notice::UnexpectedRow(None, title) => NoticeView::UnexpectedRow(None, title@),
        }
    }
}

/// What the next step passes over, if anything, with the title of the database.
pub open spec fn passed_over(s: DumpView) -> Option<NoticeView> {
    if s.tasks.len() == 0 {
        None
    } else {
        match s.tasks.last() {
            TaskView::Sources { title, ids, .. } => if ids.len() == 0 {
                Some(NoticeView::NoSources(title))
            } else {
                None
            },
            TaskView::Rows { db, rows, next, .. } => if next < rows.len() {
                let kind = rows[next as int].text_at("object"@);
                if kind == Some("page"@) || kind == Some("data_source"@) {
                    None
                } else {
                    Some(NoticeView::UnexpectedRow(kind, database_label(db)))
                }
            } else {
                None
            },
            _ => None,
        }
    }
}

/// The state in which a dump starts. It is incremental where that is wanted and there is an earlier
/// tree; else whatever an earlier run left is removed first.
pub open spec fn initial(root: Path, incremental: bool, files: Seq<StoredView>) -> DumpView {
    let again = incremental && files.len() > 0;
    DumpView {
        root,
        prev: if again {
            scanned(files)
        } else {
            Seq::empty()
        },
        stored: if again {
            node_dirs(files)
        } else {
            Seq::empty()
        },
        objects: Seq::empty(),
        groups: Seq::empty(),
        cache: Seq::empty(),
        visited: Set::empty(),
        seen: Seq::empty(),
        reused: 0,
        fetched: 0,
        processed: 0,
        total: 0,
        tasks: if again {
            seq![TaskView::Prune { next: 0 }, TaskView::Sweep, TaskView::Search, TaskView::MakeRoot]
        } else {
            seq![TaskView::Sweep, TaskView::Search, TaskView::Clean, TaskView::MakeRoot]
        },
    }
}

} // verus!
