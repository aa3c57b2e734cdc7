//! What holds of every dump, whatever the replies are.

use vstd::prelude::*;

use crate::blocks::CHILD_KEY;
use crate::client::ErrorView;
use crate::dump::{
    entry_for, entry_of, node_dirs, node_path, page_node, resolved, sanitized, PrevView, StoredView,
    PAGE_FILE,
};
use crate::dump_laws::{
    is_dashed, law_node_directories_are_dashed, law_nodes_add_no_other_directories,
    law_scan_keeps_the_last_file, law_written_pages_are_known_again,
};
use crate::json::{lemma_items_at_smaller, lemma_put_lookup, JsonView};
use crate::walk::{
    add_source, advance, cached, child_of, children_at, children_in, database_label, database_tasks,
    found, group_ids, grouped, initial, is_at_or_above, is_needed, is_page, is_root, nested_id,
    owner_of, page_label, passed_over, root_page_tasks, sweep_page_tasks, with_children, ChildView,
    DumpView, NoticeView, Path, ReplyView, RequestView, TaskView,
};

verus! {

/// The state after a number of replies.
pub open spec fn after(s: DumpView, replies: Seq<ReplyView>) -> DumpView
    decreases replies.len(),
{
    if replies.len() == 0 {
        s
    } else {
        advance(after(s, replies.drop_last()), replies.last()).0
    }
}

/// The state of a dump over an earlier tree, after a number of replies.
pub open spec fn reached(
    root: Path,
    incremental: bool,
    files: Seq<StoredView>,
    replies: Seq<ReplyView>,
) -> DumpView {
    after(initial(root, incremental, files), replies)
}

// ---------------------------------------------------------------------------
// The stack
// ---------------------------------------------------------------------------
/// Whether the task puts an object up for dumping.
pub open spec fn takes_up(task: TaskView, id: Seq<char>) -> bool {
    match task {
        TaskView::Page { page, parent } => page.text_at("id"@) == Some(id),
        TaskView::Database { id: other, parent } => other == id,
        _ => false,
    }
}

/// How a step treats a task below the top: it stays, a list of blocks goes on, or a page gets the
/// blocks that it awaits.
spec fn moved_on(before: TaskView, now: TaskView) -> bool {
    ||| now == before
    ||| before is Tree && now is Tree
    ||| before is Gather && now is Save && now->Save_page == before->Gather_page && now->Save_id
        == before->Gather_id && now->Save_dir == before->Gather_dir && !now->Save_reused
}

proof fn lemma_root_page_tasks(objects: Seq<JsonView>, all: Seq<JsonView>, root: Path)
    ensures
        forall|j: int|
            0 <= j < root_page_tasks(objects, all, root).len() ==> is_root_page(
                #[trigger] root_page_tasks(objects, all, root)[j],
                root,
            ),
    decreases objects.len(),
{
    if objects.len() > 0 {
        let before = root_page_tasks(objects.drop_last(), all, root);
        let list = root_page_tasks(objects, all, root);
        lemma_root_page_tasks(objects.drop_last(), all, root);
        assert forall|j: int| 0 <= j < list.len() implies is_root_page(#[trigger] list[j], root) by {
            if j < before.len() {
                assert(list[j] == before[j]);
            }
        }
    }
}

proof fn lemma_sweep_page_tasks(objects: Seq<JsonView>, all: Seq<JsonView>, root: Path)
    ensures
        forall|j: int|
            0 <= j < sweep_page_tasks(objects, all, root).len() ==> is_root_page(
                #[trigger] sweep_page_tasks(objects, all, root)[j],
                root,
            ),
    decreases objects.len(),
{
    if objects.len() > 0 {
        let before = sweep_page_tasks(objects.drop_last(), all, root);
        let list = sweep_page_tasks(objects, all, root);
        lemma_sweep_page_tasks(objects.drop_last(), all, root);
        assert forall|j: int| 0 <= j < list.len() implies is_root_page(#[trigger] list[j], root) by {
            if j < before.len() {
                assert(list[j] == before[j]);
            }
        }
    }
}

/// Whether the task takes up a page at the root.
spec fn is_root_page(task: TaskView, root: Path) -> bool {
    task matches TaskView::Page { page, parent } && parent == root
}

/// Whether the task takes up something at the root.
spec fn is_at_root(task: TaskView, root: Path) -> bool {
    match task {
        TaskView::Page { page, parent } => parent == root,
        TaskView::Database { id, parent } => parent == root,
        _ => false,
    }
}

/// What `Roots` and `Sweep` put on the stack.
proof fn lemma_root_tasks(s: DumpView, reply: ReplyView)
    requires
        s.tasks.len() > 0,
        s.tasks.last() is Sweep || (s.tasks.last() matches TaskView::Roots { next, found } && next
            >= s.groups.len()),
    ensures
        ({
            let t = advance(s, reply).0;
            let n = s.tasks.len() - 1;
            &&& t.tasks.len() >= n
            &&& forall|j: int| 0 <= j < n ==> s.tasks[j] == #[trigger] t.tasks[j]
            &&& forall|j: int| n <= j < t.tasks.len() ==> is_at_root(#[trigger] t.tasks[j], s.root)
        }),
{
    let t = advance(s, reply).0;
    let n = s.tasks.len() - 1;
    lemma_root_page_tasks(s.objects, s.objects, s.root);
    lemma_sweep_page_tasks(s.objects, s.objects, s.root);
    let list = match s.tasks.last() {
        TaskView::Roots { next, found } => database_tasks(found, s.root) + root_page_tasks(
            s.objects,
            s.objects,
            s.root,
        ),
        _ => database_tasks(group_ids(s.groups), s.root) + sweep_page_tasks(
            s.objects,
            s.objects,
            s.root,
        ),
    };
    assert(t.tasks == s.tasks.drop_last() + list.reverse());
    assert forall|j: int| n <= j < t.tasks.len() implies is_at_root(#[trigger] t.tasks[j], s.root) by {
        assert(t.tasks[j] == list[list.len() - 1 - (j - n)]);
    }
}

/// What a step leaves of the stack, and what it puts there.
spec fn framed(s: DumpView, t: DumpView) -> bool {
    let n = s.tasks.len() - 1;
    &&& t.tasks.len() >= n
    &&& forall|j: int| 0 <= j < n ==> moved_on(s.tasks[j], #[trigger] t.tasks[j])
    &&& forall|j: int|
        n <= j < t.tasks.len() ==> ((#[trigger] t.tasks[j]) is Search ==> s.tasks[n] is Search)
            && !(t.tasks[j] is Sweep)
}

proof fn lemma_frame(s: DumpView, reply: ReplyView)
    requires
        s.tasks.len() > 0,
    ensures
        framed(s, advance(s, reply).0),
{
    let t = advance(s, reply).0;
    match s.tasks.last() {
        TaskView::Sweep => {
            lemma_root_tasks(s, reply);
        },
        TaskView::Roots { next, found } => {
            if next >= s.groups.len() {
                lemma_root_tasks(s, reply);
            }
        },
        TaskView::Tree { listed, next, done } => {
            assert(framed(s, t));
        },
        TaskView::Rows { db, id, dir, rows, next, order } => {
            assert(framed(s, t));
        },
        TaskView::Children { dir, children, next } => {
            assert(framed(s, t));
        },
        TaskView::Sources { db, id, dir, title, ids, next, rows } => {
            assert(framed(s, t));
        },
        TaskView::OpenDatabase { id, parent } => {
            assert(framed(s, t));
        },
        TaskView::Load { page, id, dir, title } => {
            assert(framed(s, t));
        },
        _ => {
            assert(framed(s, t));
        },
    }
}

// ---------------------------------------------------------------------------
// Completeness
// ---------------------------------------------------------------------------
/// Whether the search knows of an object that is to be dumped: a page, or a database by one of its
/// data sources.
pub open spec fn is_known(s: DumpView, id: Seq<char>) -> bool {
    (found(s.objects, id) is Some && is_page(found(s.objects, id)->0)) || group_ids(
        s.groups,
    ).contains(id)
}

/// Whether the sweep is among the first tasks.
spec fn has_sweep(s: DumpView, within: int) -> bool {
    exists|j: int| 0 <= j < within && (#[trigger] s.tasks[j]) is Sweep
}

/// Taken up already, or put up.
spec fn is_covered(s: DumpView, id: Seq<char>) -> bool {
    s.visited.contains(id) || exists|j: int|
        0 <= j < s.tasks.len() && takes_up(#[trigger] s.tasks[j], id)
}

/// Nothing is forgotten: what the search knows is covered, or the sweep is still to come.
spec fn is_complete(s: DumpView) -> bool {
    &&& forall|j: int|
        0 <= j < s.tasks.len() && (#[trigger] s.tasks[j]) is Search ==> has_sweep(s, j)
    &&& has_sweep(s, s.tasks.len() as int) || forall|id: Seq<char>| #[trigger] is_known(s, id) ==> is_covered(s, id)
}

proof fn lemma_found_id(objects: Seq<JsonView>, id: Seq<char>)
    ensures
        found(objects, id) is Some ==> found(objects, id)->0.text_at("id"@) == Some(id),
    decreases objects.len(),
{
    if objects.len() > 0 {
        lemma_found_id(objects.drop_last(), id);
    }
}

/// The sweep puts up every page that the search knows.
proof fn lemma_sweep_covers(
    objects: Seq<JsonView>,
    all: Seq<JsonView>,
    root: Path,
    id: Seq<char>,
)
    requires
        found(objects, id) is Some,
        found(all, id) is Some,
        is_page(found(all, id)->0),
    ensures
        sweep_page_tasks(objects, all, root).contains(
            TaskView::Page { page: found(all, id)->0, parent: root },
        ),
    decreases objects.len(),
{
    let front = objects.drop_last();
    let task = TaskView::Page { page: found(all, id)->0, parent: root };
    let list = sweep_page_tasks(objects, all, root);
    if objects.last().text_at("id"@) == Some(id) {
        assert(list.last() == task);
    } else {
        lemma_sweep_covers(front, all, root, id);
        let before = sweep_page_tasks(front, all, root);
        let j = choose|j: int| 0 <= j < before.len() && before[j] == task;
        assert(list[j] == task);
    }
}

proof fn lemma_sweep_step(s: DumpView, reply: ReplyView, id: Seq<char>)
    requires
        s.tasks.len() > 0,
        s.tasks.last() is Sweep,
        is_known(s, id),
    ensures
        is_covered(advance(s, reply).0, id),
{
    let t = advance(s, reply).0;
    let databases = database_tasks(group_ids(s.groups), s.root);
    let list = databases + sweep_page_tasks(s.objects, s.objects, s.root);
    assert(t.tasks == s.tasks.drop_last() + list.reverse());
    let k = if group_ids(s.groups).contains(id) {
        let k = choose|k: int| 0 <= k < group_ids(s.groups).len() && group_ids(s.groups)[k] == id;
        assert(databases[k] == (TaskView::Database { id, parent: s.root }));
        k
    } else {
        lemma_sweep_covers(s.objects, s.objects, s.root, id);
        lemma_found_id(s.objects, id);
        let pages = sweep_page_tasks(s.objects, s.objects, s.root);
        let task = TaskView::Page { page: found(s.objects, id)->0, parent: s.root };
        let k = choose|k: int| 0 <= k < pages.len() && pages[k] == task;
        databases.len() + k
    };
    assert(takes_up(list[k], id));
    let j = s.tasks.len() - 1 + (list.len() - 1 - k);
    assert(t.tasks[j] == list[k]);
}

/// What a step does to the records of a dump.
spec fn recorded(s: DumpView, t: DumpView) -> bool {
    let top = s.tasks.last();
    &&& s.visited.subset_of(t.visited)
    &&& !(top is Search) ==> t.objects == s.objects && t.groups == s.groups
    &&& forall|id: Seq<char>| #[trigger] takes_up(top, id) ==> t.visited.contains(id)
}

proof fn lemma_records(s: DumpView, reply: ReplyView)
    requires
        s.tasks.len() > 0,
    ensures
        recorded(s, advance(s, reply).0),
{
    let t = advance(s, reply).0;
    match s.tasks.last() {
        TaskView::Page { page, parent } => {
            assert(recorded(s, t));
        },
        TaskView::Database { id, parent } => {
            assert(recorded(s, t));
        },
        TaskView::Tree { listed, next, done } => {
            assert(t.visited == s.visited);
        },
        TaskView::Rows { db, id, dir, rows, next, order } => {
            assert(t.visited == s.visited);
        },
        TaskView::Children { dir, children, next } => {
            assert(t.visited == s.visited);
        },
        _ => {
            assert(t.visited == s.visited);
        },
    }
}

proof fn lemma_complete_step(s: DumpView, reply: ReplyView)
    requires
        s.tasks.len() > 0,
        is_complete(s),
    ensures
        is_complete(advance(s, reply).0),
{
    let t = advance(s, reply).0;
    lemma_frame(s, reply);
    lemma_records(s, reply);
    if s.tasks.last() is Sweep {
        assert forall|id: Seq<char>| #[trigger] is_known(s, id) implies is_covered(t, id) by {
            lemma_sweep_step(s, reply, id);
        }
    }
    lemma_complete_kept(s, t);
}

proof fn lemma_complete_kept(s: DumpView, t: DumpView)
    requires
        s.tasks.len() > 0,
        is_complete(s),
        framed(s, t),
        recorded(s, t),
        s.tasks.last() is Sweep ==> forall|id: Seq<char>| #[trigger]
            is_known(s, id) ==> is_covered(t, id),
    ensures
        is_complete(t),
{
    let n = s.tasks.len() - 1;
    assert forall|j: int|
        0 <= j < t.tasks.len() && (#[trigger] t.tasks[j]) is Search implies has_sweep(t, j) by {
        let i = if j < n {
            j
        } else {
            n
        };
        if j < n {
            assert(moved_on(s.tasks[j], t.tasks[j]));
        }
        assert(s.tasks[i] is Search);
        let k = choose|k: int| 0 <= k < i && (#[trigger] s.tasks[k]) is Sweep;
        assert(moved_on(s.tasks[k], t.tasks[k]));
        assert(t.tasks[k] is Sweep);
    }
    if has_sweep(s, n + 1) {
        let j = choose|j: int| 0 <= j < s.tasks.len() && (#[trigger] s.tasks[j]) is Sweep;
        if j < n {
            assert(moved_on(s.tasks[j], t.tasks[j]));
            assert(t.tasks[j] is Sweep);
        } else {
            assert forall|id: Seq<char>| #[trigger] is_known(t, id) implies is_covered(t, id) by {
                assert(is_known(s, id));
            }
        }
    } else {
        assert(!(s.tasks[n] is Search));
        assert(t.objects == s.objects && t.groups == s.groups);
        assert forall|id: Seq<char>| #[trigger] is_known(t, id) implies is_covered(t, id) by {
            assert(is_known(s, id));
            if !s.visited.contains(id) {
                let j = choose|j: int|
                    0 <= j < s.tasks.len() && takes_up(#[trigger] s.tasks[j], id);
                if j < n {
                    assert(moved_on(s.tasks[j], t.tasks[j]));
                    assert(takes_up(t.tasks[j], id));
                } else {
                    assert(t.visited.contains(id));
                }
            }
        }
    }
}

proof fn lemma_complete(root: Path, incremental: bool, files: Seq<StoredView>, replies: Seq<ReplyView>)
    ensures
        is_complete(reached(root, incremental, files, replies)),
    decreases replies.len(),
{
    let s = reached(root, incremental, files, replies);
    if replies.len() == 0 {
        let tasks = s.tasks;
        if incremental && files.len() > 0 {
            assert(tasks[1] is Sweep);
        } else {
            assert(tasks[0] is Sweep);
        }
    } else {
        lemma_complete(root, incremental, files, replies.drop_last());
        let before = reached(root, incremental, files, replies.drop_last());
        if before.tasks.len() > 0 {
            lemma_complete_step(before, replies.last());
        }
    }
}

/// When a dump is finished, every page and every database that the search knows of was taken up:
/// nothing is silently dropped.
pub proof fn law_finished_dump_is_complete(
    root: Path,
    incremental: bool,
    files: Seq<StoredView>,
    replies: Seq<ReplyView>,
    reply: ReplyView,
    id: Seq<char>,
)
    requires
        advance(reached(root, incremental, files, replies), reply).1 is Finished,
        is_known(reached(root, incremental, files, replies), id),
    ensures
        reached(root, incremental, files, replies).visited.contains(id),
{
    lemma_complete(root, incremental, files, replies);
    let s = reached(root, incremental, files, replies);
    assert(s.tasks.len() == 0);
    assert(is_covered(s, id));
}

/// What is covered stays covered.
proof fn lemma_covered_kept(s: DumpView, reply: ReplyView, id: Seq<char>)
    requires
        is_covered(s, id),
    ensures
        is_covered(advance(s, reply).0, id),
{
    let t = advance(s, reply).0;
    if s.tasks.len() > 0 {
        let n = s.tasks.len() - 1;
        lemma_frame(s, reply);
        lemma_records(s, reply);
        if !s.visited.contains(id) {
            let j = choose|j: int| 0 <= j < s.tasks.len() && takes_up(#[trigger] s.tasks[j], id);
            if j < n {
                assert(moved_on(s.tasks[j], t.tasks[j]));
                assert(takes_up(t.tasks[j], id));
            }
        }
    }
}

/// The object that a row of a database stands for: a page of its own, or the database that a data
/// source belongs to.
pub open spec fn row_object(row: JsonView) -> Option<Seq<char>> {
    if is_page(row) {
        row.text_at("id"@)
    } else {
        owner_of(row)
    }
}

spec fn is_row_covered(s: DumpView, row: JsonView) -> bool {
    row_object(row) is Some ==> is_covered(s, row_object(row)->0)
}

/// The rows that a database has come past are covered.
spec fn are_rows_covered(s: DumpView, j: int, rows: Seq<JsonView>) -> bool {
    ||| {
        &&& 0 <= j < s.tasks.len()
        &&& s.tasks[j] is Rows
        &&& s.tasks[j]->Rows_rows == rows
        &&& forall|i: int|
            0 <= i < s.tasks[j]->Rows_next && i < rows.len() ==> is_row_covered(
                s,
                #[trigger] rows[i],
            )
    }
    ||| forall|i: int| 0 <= i < rows.len() ==> is_row_covered(s, #[trigger] rows[i])
}

proof fn lemma_rows_step(s: DumpView, reply: ReplyView, j: int, rows: Seq<JsonView>)
    requires
        are_rows_covered(s, j, rows),
    ensures
        are_rows_covered(advance(s, reply).0, j, rows),
{
    let t = advance(s, reply).0;
    assert forall|i: int| 0 <= i < rows.len() && is_row_covered(s, rows[i]) implies is_row_covered(
        t,
        #[trigger] rows[i],
    ) by {
        if row_object(rows[i]) is Some {
            lemma_covered_kept(s, reply, row_object(rows[i])->0);
        }
    }
    if s.tasks.len() > 0 && !(forall|i: int|
        0 <= i < rows.len() ==> is_row_covered(s, #[trigger] rows[i])) {
        let n = s.tasks.len() - 1;
        lemma_frame(s, reply);
        if j < n {
            assert(moved_on(s.tasks[j], t.tasks[j]));
        } else {
            lemma_row_step(s, reply);
        }
    }
}

/// The row that a database comes past is covered.
proof fn lemma_row_step(s: DumpView, reply: ReplyView)
    requires
        s.tasks.len() > 0,
        s.tasks.last() is Rows,
    ensures
        ({
            let t = advance(s, reply).0;
            let n = s.tasks.len() - 1;
            let rows = s.tasks.last()->Rows_rows;
            let next = s.tasks.last()->Rows_next;
            next < rows.len() ==> {
                &&& t.tasks.len() > n
                &&& t.tasks[n] is Rows
                &&& t.tasks[n]->Rows_rows == rows
                &&& t.tasks[n]->Rows_next == next + 1
                &&& is_row_covered(t, rows[next as int])
            }
        }),
{
    let t = advance(s, reply).0;
    let n = s.tasks.len() - 1;
    let rows = s.tasks.last()->Rows_rows;
    let next = s.tasks.last()->Rows_next;
    if next < rows.len() {
        let row = rows[next as int];
        if row_object(row) is Some {
            let id = row_object(row)->0;
            if !(is_page(row) && s.visited.contains(id)) {
                assert(takes_up(t.tasks[n + 1], id));
            }
        }
    }
}

/// Every row of a database is taken up before the dump is finished: the pages, and the databases
/// that data sources among the rows belong to.
pub proof fn law_rows_are_taken_up(
    s: DumpView,
    replies: Seq<ReplyView>,
    db: JsonView,
    id: Seq<char>,
    dir: Path,
    rows: Seq<JsonView>,
    i: int,
)
    requires
        s.tasks.len() > 0,
        s.tasks.last() == (TaskView::Rows { db, id, dir, rows, next: 0, order: Seq::empty() }),
        after(s, replies).tasks.len() == 0,
        0 <= i < rows.len(),
        row_object(rows[i]) is Some,
    ensures
        after(s, replies).visited.contains(row_object(rows[i])->0),
{
    lemma_rows_kept(s, replies, s.tasks.len() - 1, rows);
    assert(is_row_covered(after(s, replies), rows[i]));
}

proof fn lemma_rows_kept(s: DumpView, replies: Seq<ReplyView>, j: int, rows: Seq<JsonView>)
    requires
        are_rows_covered(s, j, rows),
    ensures
        are_rows_covered(after(s, replies), j, rows),
    decreases replies.len(),
{
    if replies.len() > 0 {
        lemma_rows_kept(s, replies.drop_last(), j, rows);
        lemma_rows_step(after(s, replies.drop_last()), replies.last(), j, rows);
    }
}

/// What the API answers when asked for a page.
pub type Pages = spec_fn(Seq<char>) -> Result<JsonView, ErrorView>;

/// The page that a dump asks for next, if it does.
pub open spec fn asked_page(s: DumpView) -> Option<Seq<char>> {
    if s.tasks.len() > 0 {
        match s.tasks.last() {
            TaskView::Children { dir, children, next } => if next < children.len() {
                match children[next as int] {
                    ChildView::Page(id) => if found(s.objects, id) is None {
                        Some(id)
                    } else {
                        None
                    },
                    ChildView::Database(_) => None,
                }
            } else {
                None
            },
            _ => None,
        }
    } else {
        None
    }
}

/// Whether every reply is one that may come, in the state that it comes in.
pub open spec fn may_come(
    allowed: spec_fn(DumpView, ReplyView) -> bool,
    s: DumpView,
    replies: Seq<ReplyView>,
) -> bool {
    forall|i: int|
        0 <= i < replies.len() ==> allowed(after(s, replies.take(i)), #[trigger] replies[i])
}

/// Whether the replies about pages placed in others come from the API.
pub open spec fn pages_come_from(api: Pages, s: DumpView, replies: Seq<ReplyView>) -> bool {
    may_come(|t: DumpView, reply: ReplyView| is_page_of(api, t, reply), s, replies)
}

proof fn lemma_come_last(
    allowed: spec_fn(DumpView, ReplyView) -> bool,
    s: DumpView,
    replies: Seq<ReplyView>,
)
    requires
        replies.len() > 0,
        may_come(allowed, s, replies),
    ensures
        may_come(allowed, s, replies.drop_last()),
        allowed(after(s, replies.drop_last()), replies.last()),
{
    let front = replies.drop_last();
    assert forall|i: int| 0 <= i < front.len() implies allowed(
        after(s, front.take(i)),
        #[trigger] front[i],
    ) by {
        assert(front.take(i) =~= replies.take(i));
        assert(allowed(after(s, replies.take(i)), replies[i]));
    }
    let n = front.len() as int;
    assert(replies.take(n) =~= front);
    assert(allowed(after(s, replies.take(n)), replies[n]));
}

/// Whether a reply is the API's, where a page was asked for.
pub open spec fn is_page_of(api: Pages, s: DumpView, reply: ReplyView) -> bool {
    asked_page(s) is Some && reply is One ==> reply->One_0 == api(asked_page(s)->0)
}

/// The object that is to be dumped for a child of a page: a database, a page that the search found,
/// or else the page that the API has. Nothing where the API refuses it.
pub open spec fn certain_child(api: Pages, s: DumpView, child: ChildView) -> Option<Seq<char>> {
    match child {
        ChildView::Database(id) => Some(id),
        ChildView::Page(id) => if found(s.objects, id) is Some {
            Some(id)
        } else {
            match api(id) {
                Ok(page) => page.text_at("id"@),
                Err(_) => None,
            }
        },
    }
}

spec fn is_child_covered(api: Pages, s: DumpView, child: ChildView) -> bool {
    certain_child(api, s, child) is Some ==> is_covered(s, certain_child(api, s, child)->0)
}

/// The objects placed in a page that the dump has come past are covered.
spec fn are_children_covered(api: Pages, s: DumpView, j: int, children: Seq<ChildView>) -> bool {
    ||| {
        &&& 0 <= j < s.tasks.len()
        &&& s.tasks[j] is Children
        &&& s.tasks[j]->Children_children == children
        &&& forall|i: int|
            0 <= i < s.tasks[j]->Children_next && i < children.len() ==> is_child_covered(
                api,
                s,
                #[trigger] children[i],
            )
    }
    ||| forall|i: int| 0 <= i < children.len() ==> is_child_covered(api, s, #[trigger] children[i])
}

/// The child that a page comes past is covered.
proof fn lemma_child_step(api: Pages, s: DumpView, reply: ReplyView)
    requires
        s.tasks.len() > 0,
        s.tasks.last() is Children,
        is_page_of(api, s, reply),
    ensures
        ({
            let t = advance(s, reply).0;
            let n = s.tasks.len() - 1;
            let children = s.tasks.last()->Children_children;
            let next = s.tasks.last()->Children_next;
            &&& t.objects == s.objects
            &&& next < children.len() ==> {
                &&& t.tasks.len() > n
                &&& t.tasks[n] is Children
                &&& t.tasks[n]->Children_children == children
                &&& t.tasks[n]->Children_next == next || t.tasks[n]->Children_next == next + 1
                    && is_child_covered(api, t, children[next as int])
            }
        }),
{
    let t = advance(s, reply).0;
    let n = s.tasks.len() - 1;
    let children = s.tasks.last()->Children_children;
    let next = s.tasks.last()->Children_next;
    if next < children.len() && t.tasks[n]->Children_next == next + 1 {
        match children[next as int] {
            ChildView::Database(id) => {
                assert(takes_up(t.tasks[n + 1], id));
            },
            ChildView::Page(id) => {
                if found(s.objects, id) is Some {
                    lemma_found_id(s.objects, id);
                    assert(takes_up(t.tasks[n + 1], id));
                } else if let Ok(page) = api(id) {
                    assert(asked_page(s) == Some(id));
                    assert(reply == ReplyView::One(Ok(page)));
                    if let Some(other) = page.text_at("id"@) {
                        assert(takes_up(t.tasks[n + 1], other));
                    }
                }
            },
        }
    }
}

proof fn lemma_children_step(
    api: Pages,
    s: DumpView,
    reply: ReplyView,
    j: int,
    children: Seq<ChildView>,
)
    requires
        are_children_covered(api, s, j, children),
        is_page_of(api, s, reply),
        forall|k: int| 0 <= k < s.tasks.len() ==> !((#[trigger] s.tasks[k]) is Search),
    ensures
        are_children_covered(api, advance(s, reply).0, j, children),
        advance(s, reply).0.objects == s.objects,
        forall|k: int|
            0 <= k < advance(s, reply).0.tasks.len() ==> !((#[trigger] advance(
                s,
                reply,
            ).0.tasks[k]) is Search),
{
    let t = advance(s, reply).0;
    if s.tasks.len() > 0 {
        let n = s.tasks.len() - 1;
        lemma_frame(s, reply);
        lemma_records(s, reply);
        assert(!(s.tasks[n] is Search));
        assert forall|k: int| 0 <= k < t.tasks.len() implies !((#[trigger] t.tasks[k]) is Search) by {
            if k < n {
                assert(moved_on(s.tasks[k], t.tasks[k]));
            }
        }
    }
    assert forall|i: int|
        0 <= i < children.len() && is_child_covered(api, s, children[i]) implies is_child_covered(
        api,
        t,
        #[trigger] children[i],
    ) by {
        if certain_child(api, s, children[i]) is Some {
            lemma_covered_kept(s, reply, certain_child(api, s, children[i])->0);
        }
    }
    if s.tasks.len() > 0 && !(forall|i: int|
        0 <= i < children.len() ==> is_child_covered(api, s, #[trigger] children[i])) {
        let n = s.tasks.len() - 1;
        if j < n {
            assert(moved_on(s.tasks[j], t.tasks[j]));
        } else {
            lemma_child_step(api, s, reply);
        }
    }
}

proof fn lemma_children_kept(
    api: Pages,
    s: DumpView,
    replies: Seq<ReplyView>,
    j: int,
    children: Seq<ChildView>,
)
    requires
        are_children_covered(api, s, j, children),
        pages_come_from(api, s, replies),
        forall|k: int| 0 <= k < s.tasks.len() ==> !((#[trigger] s.tasks[k]) is Search),
    ensures
        are_children_covered(api, after(s, replies), j, children),
        after(s, replies).objects == s.objects,
        forall|k: int|
            0 <= k < after(s, replies).tasks.len() ==> !((#[trigger] after(s, replies).tasks[k])
                is Search),
    decreases replies.len(),
{
    if replies.len() > 0 {
        lemma_come_last(
            |t: DumpView, reply: ReplyView| is_page_of(api, t, reply),
            s,
            replies,
        );
        lemma_children_kept(api, s, replies.drop_last(), j, children);
        lemma_children_step(api, after(s, replies.drop_last()), replies.last(), j, children);
    }
}

/// Every object that is placed in a page is taken up before the dump is finished: every database,
/// every page that the search found, and every other page that the API returns. By then the
/// workspace is enumerated: no search is pending.
pub proof fn law_placed_objects_are_taken_up(
    api: Pages,
    s: DumpView,
    replies: Seq<ReplyView>,
    dir: Path,
    children: Seq<ChildView>,
    i: int,
)
    requires
        pages_come_from(api, s, replies),
        s.tasks.len() > 0,
        s.tasks.last() == (TaskView::Children { dir, children, next: 0 }),
        forall|k: int| 0 <= k < s.tasks.len() ==> !((#[trigger] s.tasks[k]) is Search),
        after(s, replies).tasks.len() == 0,
        0 <= i < children.len(),
        certain_child(api, s, children[i]) is Some,
    ensures
        after(s, replies).visited.contains(certain_child(api, s, children[i])->0),
{
    lemma_children_kept(api, s, replies, s.tasks.len() - 1, children);
    let t = after(s, replies);
    assert(is_child_covered(api, t, children[i]));
    assert(certain_child(api, t, children[i]) == certain_child(api, s, children[i]));
}

/// Whether a block stands among the blocks of a page, at any depth.
pub open spec fn is_among(block: JsonView, blocks: Seq<JsonView>) -> bool
    decreases blocks,
{
    if blocks.len() == 0 {
        false
    } else {
        is_among(block, blocks.drop_last()) || is_within(block, blocks.last())
    }
}

/// Whether a block is another one, or is nested in it.
pub open spec fn is_within(block: JsonView, outer: JsonView) -> bool
    decreases outer,
{
    block == outer || match outer.items_at(CHILD_KEY@) {
        Some(nested) => {
            proof {
                lemma_items_at_smaller(outer, CHILD_KEY@);
            }
            is_among(block, nested)
        },
        None => false,
    }
}

proof fn lemma_child_within(block: JsonView, outer: JsonView, child: ChildView)
    requires
        is_within(block, outer),
        child_of(block) == Some(child),
    ensures
        children_at(outer).contains(child),
    decreases outer, 1nat,
{
    let all = children_at(outer);
    if block == outer {
        assert(all[0] == child);
    } else if let Some(nested) = outer.items_at(CHILD_KEY@) {
        lemma_items_at_smaller(outer, CHILD_KEY@);
        lemma_child_among(block, nested, child);
        let inner = children_in(nested);
        let k = choose|k: int| 0 <= k < inner.len() && inner[k] == child;
        assert(all[all.len() - inner.len() + k] == child);
    }
}

proof fn lemma_child_among(block: JsonView, blocks: Seq<JsonView>, child: ChildView)
    requires
        is_among(block, blocks),
        child_of(block) == Some(child),
    ensures
        children_in(blocks).contains(child),
    decreases blocks, 0nat,
{
    let front = children_in(blocks.drop_last());
    let back = children_at(blocks.last());
    let all = children_in(blocks);
    if is_among(block, blocks.drop_last()) {
        lemma_child_among(block, blocks.drop_last(), child);
        let k = choose|k: int| 0 <= k < front.len() && front[k] == child;
        assert(all[k] == child);
    } else {
        lemma_child_within(block, blocks.last(), child);
        let k = choose|k: int| 0 <= k < back.len() && back[k] == child;
        assert(all[front.len() + k] == child);
    }
}

proof fn lemma_after_later(s: DumpView, replies: Seq<ReplyView>, n: int)
    requires
        0 <= n <= replies.len(),
    ensures
        after(s, replies) == after(after(s, replies.take(n)), replies.skip(n)),
    decreases replies.len(),
{
    if n == replies.len() {
        assert(replies.take(n) =~= replies);
        assert(replies.skip(n).len() == 0);
    } else {
        let front = replies.drop_last();
        lemma_after_later(s, front, n);
        assert(front.take(n) =~= replies.take(n));
        assert(replies.skip(n).drop_last() =~= front.skip(n));
    }
}

proof fn lemma_come_later(
    allowed: spec_fn(DumpView, ReplyView) -> bool,
    s: DumpView,
    replies: Seq<ReplyView>,
    n: int,
)
    requires
        0 <= n <= replies.len(),
        may_come(allowed, s, replies),
    ensures
        may_come(allowed, after(s, replies.take(n)), replies.skip(n)),
{
    let mid = after(s, replies.take(n));
    let later = replies.skip(n);
    assert forall|i: int| 0 <= i < later.len() implies allowed(
        after(mid, later.take(i)),
        #[trigger] later[i],
    ) by {
        let upto = replies.take(n + i);
        assert(allowed(after(s, upto), replies[n + i]));
        lemma_after_later(s, upto, n);
        assert(upto.take(n) =~= replies.take(n));
        assert(upto.skip(n) =~= later.take(i));
    }
}

/// The sub-pages and sub-databases of a page are dumped too, however deep the block that stands for
/// one is nested: from the moment the page is written, whatever object such a block stands for is
/// taken up before the dump is finished, unless it is a page that the API refuses.
pub proof fn law_subpages_are_taken_up(
    api: Pages,
    s: DumpView,
    replies: Seq<ReplyView>,
    page: JsonView,
    id: Seq<char>,
    dir: Path,
    title: Seq<char>,
    blocks: Seq<JsonView>,
    reused: bool,
    block: JsonView,
)
    requires
        pages_come_from(api, s, replies),
        s.tasks.len() > 0,
        s.tasks.last() == (TaskView::Save { page, id, dir, title, blocks, reused }),
        forall|k: int| 0 <= k < s.tasks.len() ==> !((#[trigger] s.tasks[k]) is Search),
        after(s, replies).tasks.len() == 0,
        is_among(block, blocks),
        child_of(block) is Some,
        certain_child(api, s, child_of(block)->0) is Some,
    ensures
        after(s, replies).visited.contains(certain_child(api, s, child_of(block)->0)->0),
{
    let n = s.tasks.len() - 1;
    let children = children_in(blocks);
    reveal_with_fuel(after, 3);
    assert(replies.len() > 0);
    let first = replies.take(1);
    assert(first.drop_last() =~= Seq::empty());
    let s1 = advance(s, replies[0]).0;
    assert(after(s, first) == s1);
    assert(s1.tasks[n] == (TaskView::Announce { dir, title, children, reused }));
    if replies.len() == 1 {
        assert(first =~= replies);
    }
    let both = replies.take(2);
    assert(both.drop_last() =~= first);
    let s2 = advance(s1, replies[1]).0;
    assert(after(s, both) == s2);
    assert(s2.tasks.last() == (TaskView::Children { dir, children, next: 0 }));
    assert(s2.objects == s.objects);
    assert forall|k: int| 0 <= k < s2.tasks.len() implies !((#[trigger] s2.tasks[k]) is Search) by {
        if k < n {
            assert(s2.tasks[k] == s.tasks[k]);
        }
    }
    lemma_after_later(s, replies, 2);
    lemma_come_later(
        |t: DumpView, reply: ReplyView| is_page_of(api, t, reply),
        s,
        replies,
        2,
    );
    let child = child_of(block)->0;
    lemma_child_among(block, blocks, child);
    let i = choose|i: int| 0 <= i < children.len() && children[i] == child;
    law_placed_objects_are_taken_up(api, s2, replies.skip(2), dir, children, i);
}

// ---------------------------------------------------------------------------
// Every object is written
// ---------------------------------------------------------------------------
/// Whether a directory is named for an object.
pub open spec fn named_for(dir: Path, id: Seq<char>) -> bool {
    exists|parent: Path, title: Seq<char>| dir == #[trigger] node_path(parent, title, id)
}

/// Whether a node was written for an object.
pub open spec fn has_node(s: DumpView, id: Seq<char>) -> bool {
    exists|i: int| 0 <= i < s.seen.len() && named_for(#[trigger] s.seen[i], id)
}

/// The directory that a task is going to write a node into.
spec fn writes_into(task: TaskView) -> Option<Path> {
    match task {
        TaskView::Sources { db, id, dir, title, ids, next, rows } => Some(dir),
        TaskView::Rows { db, id, dir, rows, next, order } => Some(dir),
        TaskView::Load { page, id, dir, title } => Some(dir),
        TaskView::Gather { page, id, dir, title } => Some(dir),
        TaskView::Save { page, id, dir, title, blocks, reused } => Some(dir),
        _ => None,
    }
}

/// Whether a task is on the way to write the node of an object.
spec fn carries(task: TaskView, id: Seq<char>) -> bool {
    ||| task matches TaskView::OpenDatabase { id: other, parent } && other == id
    ||| writes_into(task) is Some && named_for(writes_into(task)->0, id)
}

spec fn is_carried(s: DumpView, id: Seq<char>) -> bool {
    exists|j: int| 0 <= j < s.tasks.len() && carries(#[trigger] s.tasks[j], id)
}

/// Written, on the way, or a database that is inaccessible.
spec fn is_accounted(s: DumpView, id: Seq<char>) -> bool {
    has_node(s, id) || is_carried(s, id) || cached(s.cache, id) == Some(None::<JsonView>)
}

/// What a step does about the objects taken up.
spec fn accounts(s: DumpView, t: DumpView) -> bool {
    let top = s.tasks.last();
    &&& t.seen == s.seen || t.seen.len() == s.seen.len() + 1 && t.seen.drop_last() == s.seen
    &&& t.cache == s.cache || t.cache.len() == s.cache.len() + 1 && t.cache.drop_last() == s.cache
        && cached(s.cache, t.cache.last().0) is None
    &&& forall|id: Seq<char>| #[trigger]
        t.visited.contains(id) && !s.visited.contains(id) ==> is_carried(t, id)
    &&& forall|id: Seq<char>| #[trigger] carries(top, id) ==> is_accounted(t, id)
}

proof fn lemma_accounts(s: DumpView, reply: ReplyView)
    requires
        s.tasks.len() > 0,
    ensures
        accounts(s, advance(s, reply).0),
{
    let t = advance(s, reply).0;
    let n = s.tasks.len() - 1;
    let top = s.tasks.last();
    match top {
        TaskView::Page { page, parent } => {
            if let Some(id) = page.text_at("id"@) {
                if !s.visited.contains(id) {
                    assert(t.tasks[n] is Load);
                    assert(t.tasks[n]->Load_dir == node_path(parent, page_label(page), id));
                    assert(carries(t.tasks[n], id));
                }
            }
        },
        TaskView::Database { id, parent } => {
            if !s.visited.contains(id) {
                assert(carries(t.tasks[n], id));
            }
        },
        TaskView::OpenDatabase { id, parent } => {
            match cached(s.cache, id) {
                Some(None) => {},
                Some(Some(db)) => {
                    assert(t.tasks[n] is Sources);
                    assert(t.tasks[n]->Sources_dir == node_path(parent, database_label(db), id));
                    assert(carries(t.tasks[n], id));
                },
                None => {
                    assert(t.tasks[n] == top);
                    if t.cache != s.cache {
                        assert(t.cache.drop_last() =~= s.cache);
                    }
                },
            }
        },
        TaskView::Roots { next, found } => {
            if t.cache != s.cache {
                assert(t.cache.drop_last() =~= s.cache);
            }
        },
        TaskView::Sources { db, id, dir, title, ids, next, rows } => {
            assert(writes_into(t.tasks[n]) == Some(dir));
        },
        TaskView::Rows { db, id, dir, rows, next, order } => {
            if next < rows.len() {
                assert(writes_into(t.tasks[n]) == Some(dir));
            } else {
                assert(t.seen.drop_last() =~= s.seen);
                assert(t.seen[t.seen.len() - 1] == dir);
            }
        },
        TaskView::Load { page, id, dir, title } => {
            assert(writes_into(t.tasks[n]) == Some(dir));
        },
        TaskView::Gather { page, id, dir, title } => {
            assert(writes_into(t.tasks[n]) == Some(dir));
        },
        TaskView::Save { page, id, dir, title, blocks, reused } => {
            assert(t.seen.drop_last() =~= s.seen);
            assert(t.seen[t.seen.len() - 1] == dir);
        },
        _ => {},
    }
}

proof fn lemma_accounted_kept(s: DumpView, t: DumpView, id: Seq<char>)
    requires
        s.tasks.len() > 0,
        framed(s, t),
        accounts(s, t),
        t.visited.contains(id),
        s.visited.contains(id) ==> is_accounted(s, id),
    ensures
        is_accounted(t, id),
{
    let n = s.tasks.len() - 1;
    if s.visited.contains(id) {
        if has_node(s, id) {
            let i = choose|i: int| 0 <= i < s.seen.len() && named_for(#[trigger] s.seen[i], id);
            assert(t.seen[i] == s.seen[i]);
        } else if is_carried(s, id) {
            let j = choose|j: int| 0 <= j < s.tasks.len() && carries(#[trigger] s.tasks[j], id);
            if j < n {
                assert(moved_on(s.tasks[j], t.tasks[j]));
                assert(carries(t.tasks[j], id));
            }
        } else {
            assert(cached(t.cache, id) == cached(s.cache, id));
        }
    }
}

proof fn lemma_accounted(
    root: Path,
    incremental: bool,
    files: Seq<StoredView>,
    replies: Seq<ReplyView>,
    id: Seq<char>,
)
    requires
        reached(root, incremental, files, replies).visited.contains(id),
    ensures
        is_accounted(reached(root, incremental, files, replies), id),
    decreases replies.len(),
{
    if replies.len() > 0 {
        let before = reached(root, incremental, files, replies.drop_last());
        let now = reached(root, incremental, files, replies);
        if before.visited.contains(id) {
            lemma_accounted(root, incremental, files, replies.drop_last(), id);
        }
        if before.tasks.len() > 0 {
            lemma_frame(before, replies.last());
            lemma_accounts(before, replies.last());
            lemma_accounted_kept(before, now, id);
        }
    }
}

/// When a dump is finished, every object that was taken up has its node, in a directory that
/// carries its id, unless it is a database that the API refused.
pub proof fn law_what_is_taken_up_is_written(
    root: Path,
    incremental: bool,
    files: Seq<StoredView>,
    replies: Seq<ReplyView>,
    reply: ReplyView,
    id: Seq<char>,
)
    requires
        advance(reached(root, incremental, files, replies), reply).1 is Finished,
        reached(root, incremental, files, replies).visited.contains(id),
    ensures
        has_node(reached(root, incremental, files, replies), id) || cached(
            reached(root, incremental, files, replies).cache,
            id,
        ) == Some(None::<JsonView>),
{
    lemma_accounted(root, incremental, files, replies, id);
}

/// A node counts as written exactly when its file is handed out to be written.
pub proof fn law_nodes_are_recorded_when_written(s: DumpView, reply: ReplyView)
    ensures
        ({
            let (t, request) = advance(s, reply);
            t.seen == match request {
                RequestView::Write(dir, file, content) => s.seen.push(dir),
                _ => s.seen,
            }
        }),
{
}

/// No object is taken up twice: a step takes up at most one object, one that was not taken up
/// before, and none is forgotten.
pub proof fn law_each_object_is_taken_up_once(s: DumpView, reply: ReplyView)
    ensures
        ({
            let t = advance(s, reply).0;
            t.visited == s.visited || exists|id: Seq<char>|
                !s.visited.contains(id) && t.visited == #[trigger] s.visited.insert(id)
        }),
{
}

/// The object whose node the next step writes, if it writes one.
pub open spec fn writing(s: DumpView) -> Option<Seq<char>> {
    if s.tasks.len() > 0 {
        match s.tasks.last() {
            TaskView::Rows { db, id, dir, rows, next, order } => if next < rows.len() {
                None
            } else {
                Some(id)
            },
            TaskView::Save { page, id, dir, title, blocks, reused } => Some(id),
            _ => None,
        }
    } else {
        None
    }
}

/// The objects whose nodes were written, in order.
pub open spec fn written_objects(s: DumpView, replies: Seq<ReplyView>) -> Seq<Seq<char>>
    decreases replies.len(),
{
    if replies.len() == 0 {
        Seq::empty()
    } else {
        let before = written_objects(s, replies.drop_last());
        match writing(after(s, replies.drop_last())) {
            Some(id) => before.push(id),
            None => before,
        }
    }
}

/// The object that a task is on the way to write.
spec fn carried(task: TaskView) -> Option<Seq<char>> {
    match task {
        TaskView::OpenDatabase { id, parent } => Some(id),
        TaskView::Sources { db, id, dir, title, ids, next, rows } => Some(id),
        TaskView::Rows { db, id, dir, rows, next, order } => Some(id),
        TaskView::Load { page, id, dir, title } => Some(id),
        TaskView::Gather { page, id, dir, title } => Some(id),
        TaskView::Save { page, id, dir, title, blocks, reused } => Some(id),
        _ => None,
    }
}

/// No object is written twice, or written while it is on the way, or on the way twice; and every node
/// is in a directory that is named for its object.
spec fn is_single(s: DumpView, written: Seq<Seq<char>>) -> bool {
    &&& written.len() == s.seen.len()
    &&& forall|i: int|
        0 <= i < written.len() ==> s.visited.contains(#[trigger] written[i]) && named_for(
            s.seen[i],
            written[i],
        )
    &&& forall|i: int, j: int| 0 <= i < j < written.len() ==> written[i] != written[j]
    &&& forall|j: int|
        0 <= j < s.tasks.len() && carried(#[trigger] s.tasks[j]) is Some ==> {
            let id = carried(s.tasks[j])->0;
            &&& s.visited.contains(id)
            &&& !written.contains(id)
            &&& writes_into(s.tasks[j]) is Some ==> named_for(writes_into(s.tasks[j])->0, id)
        }
    &&& forall|i: int, j: int|
        0 <= i < j < s.tasks.len() && carried(#[trigger] s.tasks[i]) is Some ==> carried(
            s.tasks[i],
        ) != carried(#[trigger] s.tasks[j])
}

/// What becomes of the object that the task on top carries, and which ones are added.
spec fn hands_on(s: DumpView, t: DumpView) -> bool {
    let n = s.tasks.len() - 1;
    let top = s.tasks.last();
    &&& forall|j: int|
        n <= j < t.tasks.len() && carried(#[trigger] t.tasks[j]) is Some ==> {
            let id = carried(t.tasks[j])->0;
            &&& j == n
            &&& writing(s) is None
            &&& carried(top) == Some(id) || !s.visited.contains(id) && t.visited.contains(id)
            &&& writes_into(t.tasks[j]) is Some ==> named_for(writes_into(t.tasks[j])->0, id)
                || carried(top) == Some(id) && writes_into(t.tasks[j]) == writes_into(top)
        }
    &&& match writing(s) {
        Some(id) => carried(top) == Some(id) && writes_into(top) is Some && t.seen == s.seen.push(
            writes_into(top)->0,
        ),
        None => t.seen == s.seen,
    }
}

proof fn lemma_hands_on(s: DumpView, reply: ReplyView)
    requires
        s.tasks.len() > 0,
    ensures
        hands_on(s, advance(s, reply).0),
{
    let t = advance(s, reply).0;
    let n = s.tasks.len() - 1;
    match s.tasks.last() {
        TaskView::Sweep => {
            lemma_root_tasks(s, reply);
        },
        TaskView::Roots { next, found } => {
            if next >= s.groups.len() {
                lemma_root_tasks(s, reply);
            }
        },
        TaskView::OpenDatabase { id, parent } => {
            if let Some(Some(db)) = cached(s.cache, id) {
                assert(t.tasks[n]->Sources_dir == node_path(parent, database_label(db), id));
            }
            assert(hands_on(s, t));
        },
        TaskView::Page { page, parent } => {
            if let Some(id) = page.text_at("id"@) {
                if !s.visited.contains(id) {
                    assert(t.tasks[n]->Load_dir == node_path(parent, page_label(page), id));
                }
            }
            assert(hands_on(s, t));
        },
        TaskView::Rows { db, id, dir, rows, next, order } => {
            assert(hands_on(s, t));
        },
        TaskView::Save { page, id, dir, title, blocks, reused } => {
            assert(hands_on(s, t));
        },
        TaskView::Tree { listed, next, done } => {
            assert(hands_on(s, t));
        },
        TaskView::Children { dir, children, next } => {
            assert(hands_on(s, t));
        },
        TaskView::Sources { db, id, dir, title, ids, next, rows } => {
            assert(hands_on(s, t));
        },
        TaskView::Load { page, id, dir, title } => {
            assert(hands_on(s, t));
        },
        _ => {
            assert(hands_on(s, t));
        },
    }
}

proof fn lemma_single_step(s: DumpView, t: DumpView, before: Seq<Seq<char>>, now: Seq<Seq<char>>)
    requires
        s.tasks.len() > 0,
        is_single(s, before),
        framed(s, t),
        recorded(s, t),
        hands_on(s, t),
        now == match writing(s) {
            Some(id) => before.push(id),
            None => before,
        },
    ensures
        is_single(t, now),
{
    let n = s.tasks.len() - 1;
    let top = s.tasks[n];
    assert forall|i: int, j: int| 0 <= i < j < now.len() implies now[i] != now[j] by {
        if j == before.len() {
            assert(before.contains(before[i]));
        }
    }
    assert forall|j: int| 0 <= j < n implies carried(#[trigger] t.tasks[j]) == carried(s.tasks[j])
        && writes_into(t.tasks[j]) == writes_into(s.tasks[j]) by {
        assert(moved_on(s.tasks[j], t.tasks[j]));
    }
    assert forall|j: int| 0 <= j < t.tasks.len() && carried(#[trigger] t.tasks[j]) is Some implies {
        let id = carried(t.tasks[j])->0;
        &&& t.visited.contains(id)
        &&& !now.contains(id)
        &&& writes_into(t.tasks[j]) is Some ==> named_for(writes_into(t.tasks[j])->0, id)
    } by {
        let id = carried(t.tasks[j])->0;
        if j < n {
            assert(carried(s.tasks[j]) == Some(id));
            if now.contains(id) {
                let k = choose|k: int| 0 <= k < now.len() && now[k] == id;
                if k < before.len() {
                    assert(before.contains(before[k]));
                } else {
                    assert(carried(s.tasks[j]) != carried(s.tasks[n]));
                }
            }
        } else {
            assert(now == before);
            if carried(top) == Some(id) {
                assert(!before.contains(id));
            } else if before.contains(id) {
                let k = choose|k: int| 0 <= k < before.len() && before[k] == id;
                assert(s.visited.contains(before[k]));
            }
        }
    }
    assert forall|i: int, j: int|
        0 <= i < j < t.tasks.len() && carried(#[trigger] t.tasks[i]) is Some implies carried(
        t.tasks[i],
    ) != carried(#[trigger] t.tasks[j]) by {
        if j < n {
            assert(carried(s.tasks[i]) != carried(s.tasks[j]));
        } else if i < n && carried(t.tasks[j]) is Some {
            assert(carried(s.tasks[i]) is Some);
            assert(carried(s.tasks[i]) != carried(s.tasks[n]));
            assert(s.visited.contains(carried(s.tasks[i])->0));
        }
    }
}

proof fn lemma_single(root: Path, incremental: bool, files: Seq<StoredView>, replies: Seq<ReplyView>)
    ensures
        is_single(
            reached(root, incremental, files, replies),
            written_objects(initial(root, incremental, files), replies),
        ),
    decreases replies.len(),
{
    if replies.len() > 0 {
        let start = initial(root, incremental, files);
        let front = replies.drop_last();
        let before = reached(root, incremental, files, front);
        let now = reached(root, incremental, files, replies);
        lemma_single(root, incremental, files, front);
        if before.tasks.len() > 0 {
            lemma_frame(before, replies.last());
            lemma_records(before, replies.last());
            lemma_hands_on(before, replies.last());
            lemma_single_step(
                before,
                now,
                written_objects(start, front),
                written_objects(start, replies),
            );
        }
    }
}

/// A node is written exactly where [`writing`] says so.
pub proof fn law_nodes_are_written_for_objects(s: DumpView, reply: ReplyView)
    ensures
        advance(s, reply).1 is Write <==> writing(s) is Some,
{
}

/// No object is written twice: every node that a dump writes is that of another object, in a
/// directory that is named for it.
pub proof fn law_each_object_is_written_once(
    root: Path,
    incremental: bool,
    files: Seq<StoredView>,
    replies: Seq<ReplyView>,
)
    ensures
        ({
            let s = reached(root, incremental, files, replies);
            let written = written_objects(initial(root, incremental, files), replies);
            &&& written.len() == s.seen.len()
            &&& forall|i: int| 0 <= i < written.len() ==> named_for(s.seen[i], #[trigger] written[i])
            &&& forall|i: int, j: int| 0 <= i < j < written.len() ==> written[i] != written[j]
        }),
{
    lemma_single(root, incremental, files, replies);
}

// ---------------------------------------------------------------------------
// Pruning
// ---------------------------------------------------------------------------
/// The directory under which a task puts others.
spec fn home(task: TaskView) -> Option<Path> {
    match task {
        TaskView::Database { id, parent } => Some(parent),
        TaskView::OpenDatabase { id, parent } => Some(parent),
        TaskView::Page { page, parent } => Some(parent),
        TaskView::Announce { dir, title, children, reused } => Some(dir),
        TaskView::Children { dir, children, next } => Some(dir),
        _ => None,
    }
}

/// Whether a directory is the root, has its node, or will have it once the rows of a database are
/// through.
spec fn is_ground(s: DumpView, within: int, dir: Path) -> bool {
    ||| dir == s.root
    ||| s.seen.contains(dir)
    ||| exists|k: int|
        0 <= k < within && k < s.tasks.len() && (#[trigger] s.tasks[k]) is Rows
            && s.tasks[k]->Rows_dir == dir
}

/// Whether a directory is that of a node placed on ground.
spec fn stands(s: DumpView, within: int, dir: Path) -> bool {
    exists|parent: Path, title: Seq<char>, id: Seq<char>|
        dir == #[trigger] node_path(parent, title, id) && is_ground(s, within, parent)
}

/// Every node stands on ground, and so does every task.
spec fn is_grounded(s: DumpView) -> bool {
    &&& forall|j: int|
        0 <= j < s.tasks.len() ==> {
            let task = #[trigger] s.tasks[j];
            &&& home(task) is Some ==> is_ground(s, j, home(task)->0)
            &&& writes_into(task) is Some ==> stands(s, j, writes_into(task)->0)
            &&& task is Prune ==> j == 0
        }
    &&& forall|i: int|
        0 <= i < s.seen.len() ==> stands(s, s.tasks.len() as int, #[trigger] s.seen[i])
}

/// Whether a directory is that of a node placed under another directory.
spec fn is_below(dir: Path, parent: Path) -> bool {
    exists|title: Seq<char>, id: Seq<char>| dir == #[trigger] node_path(parent, title, id)
}

/// Where the tasks that a step puts on the stack work.
spec fn descends(s: DumpView, t: DumpView) -> bool {
    let n = s.tasks.len() - 1;
    let top = s.tasks.last();
    &&& forall|j: int|
        n <= j < t.tasks.len() ==> {
            let task = #[trigger] t.tasks[j];
            &&& home(task) is Some ==> {
                let dir = home(task)->0;
                ||| dir == s.root
                ||| home(top) == Some(dir)
                ||| is_ground(t, j, dir)
            }
            &&& writes_into(task) is Some ==> {
                let dir = writes_into(task)->0;
                ||| writes_into(top) == Some(dir)
                ||| home(top) is Some && is_below(dir, home(top)->0)
            }
            &&& task is Prune ==> top is Prune && j == n
        }
    &&& t.root == s.root
    &&& t.seen != s.seen ==> writes_into(top) == Some(t.seen.last())
    &&& top is Rows ==> is_ground(t, n + 1, top->Rows_dir)
}

proof fn lemma_descends(s: DumpView, reply: ReplyView)
    requires
        s.tasks.len() > 0,
    ensures
        descends(s, advance(s, reply).0),
{
    let t = advance(s, reply).0;
    let n = s.tasks.len() - 1;
    match s.tasks.last() {
        TaskView::Sweep => {
            lemma_root_tasks(s, reply);
        },
        TaskView::Roots { next, found } => {
            if next >= s.groups.len() {
                lemma_root_tasks(s, reply);
            }
        },
        TaskView::OpenDatabase { id, parent } => {
            if let Some(Some(db)) = cached(s.cache, id) {
                assert(t.tasks[n]->Sources_dir == node_path(parent, database_label(db), id));
            }
            assert(descends(s, t));
        },
        TaskView::Page { page, parent } => {
            if let Some(id) = page.text_at("id"@) {
                if !s.visited.contains(id) {
                    assert(t.tasks[n]->Load_dir == node_path(parent, page_label(page), id));
                }
            }
            assert(descends(s, t));
        },
        TaskView::Rows { db, id, dir, rows, next, order } => {
            if next < rows.len() {
                assert(t.tasks[n] is Rows && t.tasks[n]->Rows_dir == dir);
            } else {
                assert(t.seen[t.seen.len() - 1] == dir);
            }
            assert(descends(s, t));
        },
        TaskView::Save { page, id, dir, title, blocks, reused } => {
            assert(t.seen[t.seen.len() - 1] == dir);
            assert(descends(s, t));
        },
        TaskView::Tree { listed, next, done } => {
            assert(descends(s, t));
        },
        TaskView::Children { dir, children, next } => {
            assert(descends(s, t));
        },
        TaskView::Sources { db, id, dir, title, ids, next, rows } => {
            assert(descends(s, t));
        },
        TaskView::Load { page, id, dir, title } => {
            assert(descends(s, t));
        },
        _ => {
            assert(descends(s, t));
        },
    }
}

proof fn lemma_ground_kept(s: DumpView, t: DumpView, within: int, dir: Path)
    requires
        s.tasks.len() > 0,
        framed(s, t),
        accounts(s, t),
        descends(s, t),
        0 <= within <= s.tasks.len(),
        is_ground(s, within, dir),
    ensures
        is_ground(t, within, dir),
        is_ground(t, t.tasks.len() as int, dir),
{
    let n = s.tasks.len() - 1;
    if s.seen.contains(dir) {
        let i = choose|i: int| 0 <= i < s.seen.len() && s.seen[i] == dir;
        assert(t.seen[i] == dir);
    } else if dir != s.root {
        let k = choose|k: int|
            0 <= k < within && k < s.tasks.len() && (#[trigger] s.tasks[k]) is Rows
                && s.tasks[k]->Rows_dir == dir;
        if k < n {
            assert(moved_on(s.tasks[k], t.tasks[k]));
            assert(t.tasks[k] == s.tasks[k]);
        } else {
            assert(is_ground(t, n + 1, dir));
        }
    }
}

proof fn lemma_stands_kept(s: DumpView, t: DumpView, within: int, dir: Path)
    requires
        s.tasks.len() > 0,
        framed(s, t),
        accounts(s, t),
        descends(s, t),
        0 <= within <= s.tasks.len(),
        stands(s, within, dir),
    ensures
        stands(t, within, dir),
        stands(t, t.tasks.len() as int, dir),
{
    let (parent, title, id) = choose|parent: Path, title: Seq<char>, id: Seq<char>|
        dir == #[trigger] node_path(parent, title, id) && is_ground(s, within, parent);
    lemma_ground_kept(s, t, within, parent);
    assert(dir == node_path(parent, title, id));
}

proof fn lemma_grounded_step(s: DumpView, t: DumpView)
    requires
        s.tasks.len() > 0,
        is_grounded(s),
        framed(s, t),
        accounts(s, t),
        descends(s, t),
    ensures
        is_grounded(t),
{
    let n = s.tasks.len() - 1;
    let top = s.tasks[n];
    assert forall|j: int| 0 <= j < t.tasks.len() implies {
        let task = #[trigger] t.tasks[j];
        &&& home(task) is Some ==> is_ground(t, j, home(task)->0)
        &&& writes_into(task) is Some ==> stands(t, j, writes_into(task)->0)
        &&& task is Prune ==> j == 0
    } by {
        let task = t.tasks[j];
        if j < n {
            assert(moved_on(s.tasks[j], task));
            assert(home(task) == home(s.tasks[j]));
            assert(writes_into(task) == writes_into(s.tasks[j]));
            if home(task) is Some {
                lemma_ground_kept(s, t, j, home(task)->0);
            }
            if writes_into(task) is Some {
                lemma_stands_kept(s, t, j, writes_into(task)->0);
            }
        } else {
            lemma_new_task_stands(s, t, j);
        }
    }
    let all = t.tasks.len() as int;
    assert forall|i: int| 0 <= i < t.seen.len() implies stands(t, all, #[trigger] t.seen[i]) by {
        if i < s.seen.len() {
            assert(t.seen[i] == s.seen[i]);
            lemma_stands_kept(s, t, n + 1, s.seen[i]);
        } else {
            assert(t.seen != s.seen);
            lemma_stands_kept(s, t, n, t.seen[i]);
        }
    }
}

proof fn lemma_new_task_stands(s: DumpView, t: DumpView, j: int)
    requires
        s.tasks.len() > 0,
        is_grounded(s),
        framed(s, t),
        accounts(s, t),
        descends(s, t),
        s.tasks.len() - 1 <= j < t.tasks.len(),
    ensures
        home(t.tasks[j]) is Some ==> is_ground(t, j, home(t.tasks[j])->0),
        writes_into(t.tasks[j]) is Some ==> stands(t, j, writes_into(t.tasks[j])->0),
        t.tasks[j] is Prune ==> j == 0,
{
    let n = s.tasks.len() - 1;
    let top = s.tasks[n];
    let task = t.tasks[j];
    if home(top) is Some {
        lemma_ground_kept(s, t, n, home(top)->0);
        assert(is_ground(t, j, home(top)->0));
    }
    if writes_into(task) is Some {
        let dir = writes_into(task)->0;
        if writes_into(top) == Some(dir) {
            lemma_stands_kept(s, t, n, dir);
            let (parent, title, id) = choose|parent: Path, title: Seq<char>, id: Seq<char>|
                dir == #[trigger] node_path(parent, title, id) && is_ground(t, n, parent);
            assert(is_ground(t, j, parent));
            assert(dir == node_path(parent, title, id));
        } else {
            let parent = home(top)->0;
            let (title, id) = choose|title: Seq<char>, id: Seq<char>|
                dir == #[trigger] node_path(parent, title, id);
            assert(dir == node_path(parent, title, id));
        }
    }
}

proof fn lemma_grounded(root: Path, incremental: bool, files: Seq<StoredView>, replies: Seq<ReplyView>)
    ensures
        is_grounded(reached(root, incremental, files, replies)),
    decreases replies.len(),
{
    if replies.len() > 0 {
        lemma_grounded(root, incremental, files, replies.drop_last());
        let before = reached(root, incremental, files, replies.drop_last());
        let now = reached(root, incremental, files, replies);
        if before.tasks.len() > 0 {
            lemma_frame(before, replies.last());
            lemma_accounts(before, replies.last());
            lemma_descends(before, replies.last());
            lemma_grounded_step(before, now);
        }
    }
}

/// Where no rows are pending, a directory that is named as nodes are and stands above a node, but
/// not above the root, is that of a node itself.
proof fn lemma_no_gaps(s: DumpView, dir: Path, above: Path)
    requires
        is_grounded(s),
        forall|k: int| 0 <= k < s.tasks.len() ==> !((#[trigger] s.tasks[k]) is Rows),
        s.seen.contains(dir),
        above.len() > 0,
        is_dashed(above.last()),
        above.is_prefix_of(resolved(dir)),
        !above.is_prefix_of(resolved(s.root)),
    ensures
        has_node_at(s, above),
    decreases dir.len(),
{
    let i = choose|i: int| 0 <= i < s.seen.len() && s.seen[i] == dir;
    assert(stands(s, s.tasks.len() as int, s.seen[i]));
    let (parent, title, id) = choose|parent: Path, title: Seq<char>, id: Seq<char>|
        dir == #[trigger] node_path(parent, title, id) && is_ground(
            s,
            s.tasks.len() as int,
            parent,
        );
    law_nodes_add_no_other_directories(parent, title, id, above);
    if above == resolved(dir) {
        assert(resolved(s.seen[i]) == above);
    } else {
        law_node_directories_are_dashed(parent, title, id);
        assert(parent != s.root);
        lemma_no_gaps(s, parent, above);
    }
}

/// Whether a node was written in a directory.
pub open spec fn has_node_at(s: DumpView, place: Path) -> bool {
    exists|k: int| 0 <= k < s.seen.len() && resolved(#[trigger] s.seen[k]) == place
}

/// When a dump is finished, every node stands in the root or in the directory of another node,
/// where its name says.
pub proof fn law_nodes_stand_in_nodes(
    root: Path,
    incremental: bool,
    files: Seq<StoredView>,
    replies: Seq<ReplyView>,
    reply: ReplyView,
    dir: Path,
)
    requires
        advance(reached(root, incremental, files, replies), reply).1 is Finished,
        reached(root, incremental, files, replies).seen.contains(dir),
    ensures
        exists|parent: Path, title: Seq<char>, id: Seq<char>|
            dir == #[trigger] node_path(parent, title, id) && (parent == root || reached(
                root,
                incremental,
                files,
                replies,
            ).seen.contains(parent)),
{
    let s = reached(root, incremental, files, replies);
    lemma_grounded(root, incremental, files, replies);
    lemma_stored(root, incremental, files, replies);
    let i = choose|i: int| 0 <= i < s.seen.len() && s.seen[i] == dir;
    assert(stands(s, 0, s.seen[i]));
}

/// The tree has no gaps: when a dump is finished, every directory above a node that is named as
/// nodes are, with a dash, has a node of its own, unless the root stands in it or below it.
pub proof fn law_tree_has_no_gaps(
    root: Path,
    incremental: bool,
    files: Seq<StoredView>,
    replies: Seq<ReplyView>,
    reply: ReplyView,
    dir: Path,
    above: Path,
)
    requires
        advance(reached(root, incremental, files, replies), reply).1 is Finished,
        reached(root, incremental, files, replies).seen.contains(dir),
        above.len() > 0,
        is_dashed(above.last()),
        above.is_prefix_of(resolved(dir)),
        !above.is_prefix_of(resolved(root)),
    ensures
        has_node_at(reached(root, incremental, files, replies), above),
{
    lemma_grounded(root, incremental, files, replies);
    lemma_stored(root, incremental, files, replies);
    lemma_no_gaps(reached(root, incremental, files, replies), dir, above);
}

/// Pruning removes a directory of the earlier tree, and with it nothing that was written: neither
/// the root nor a node of this dump stands in it or below it.
pub proof fn law_pruning_spares_what_was_written(
    root: Path,
    incremental: bool,
    files: Seq<StoredView>,
    replies: Seq<ReplyView>,
    reply: ReplyView,
    stale: Path,
    dir: Path,
)
    requires
        advance(reached(root, incremental, files, replies), reply).1 == RequestView::Remove(stale),
        reached(root, incremental, files, replies).seen.contains(dir),
    ensures
        node_dirs(files).contains(stale),
        !is_at_or_above(stale, root),
        !is_at_or_above(stale, dir),
{
    let s = reached(root, incremental, files, replies);
    let top = s.tasks[s.tasks.len() - 1];
    assert(top is Prune);
    assert(s.stored[top->Prune_next as int] == stale);
    lemma_stored(root, incremental, files, replies);
    let i = choose|i: int| 0 <= i < s.seen.len() && s.seen[i] == dir;
    assert(!is_needed(s.root, s.seen, stale));
    assert(!is_at_or_above(stale, s.seen[i]));
}

/// Pruning comes last: when a directory is removed, there is nothing else left to do.
pub proof fn law_pruning_comes_last(
    root: Path,
    incremental: bool,
    files: Seq<StoredView>,
    replies: Seq<ReplyView>,
    reply: ReplyView,
)
    requires
        advance(reached(root, incremental, files, replies), reply).1 is Remove,
    ensures
        reached(root, incremental, files, replies).tasks.len() == 1,
        reached(root, incremental, files, replies).tasks.last() is Prune,
{
    lemma_grounded(root, incremental, files, replies);
    let s = reached(root, incremental, files, replies);
    assert(s.tasks[s.tasks.len() - 1] is Prune);
}

/// The requests made so far.
pub open spec fn requested(s: DumpView, replies: Seq<ReplyView>) -> Seq<RequestView>
    decreases replies.len(),
{
    if replies.len() == 0 {
        Seq::empty()
    } else {
        requested(s, replies.drop_last()).push(
            advance(after(s, replies.drop_last()), replies.last()).1,
        )
    }
}

/// Whether an entry of the earlier tree was dealt with: its directory is needed, or was removed.
spec fn is_settled(s: DumpView, requests: Seq<RequestView>, i: int) -> bool {
    is_needed(s.root, s.seen, s.stored[i]) || requests.contains(RequestView::Remove(s.stored[i]))
}

/// The entries that pruning has come past are settled.
spec fn is_pruned(s: DumpView, requests: Seq<RequestView>) -> bool {
    let upto = if s.tasks.len() > 0 && s.tasks[0] is Prune {
        s.tasks[0]->Prune_next as int
    } else {
        s.stored.len() as int
    };
    forall|i: int| 0 <= i < upto && i < s.stored.len() ==> #[trigger] is_settled(s, requests, i)
}

proof fn lemma_pruned(root: Path, incremental: bool, files: Seq<StoredView>, replies: Seq<ReplyView>)
    ensures
        is_pruned(
            reached(root, incremental, files, replies),
            requested(initial(root, incremental, files), replies),
        ),
    decreases replies.len(),
{
    let start = initial(root, incremental, files);
    let now = reached(root, incremental, files, replies);
    let requests = requested(start, replies);
    if replies.len() > 0 {
        lemma_pruned(root, incremental, files, replies.drop_last());
        let before = reached(root, incremental, files, replies.drop_last());
        let earlier = requested(start, replies.drop_last());
        assert(now.stored == before.stored && now.root == before.root) by {
            lemma_prev_kept(before, replies.last());
        }
        if before.tasks.len() > 0 {
            lemma_frame(before, replies.last());
            lemma_accounts(before, replies.last());
            lemma_grounded(root, incremental, files, replies.drop_last());
            lemma_grounded(root, incremental, files, replies);
            lemma_prune_step(before, replies.last());
        }
        assert forall|i: int| 0 <= i < now.stored.len() && is_settled(before, earlier, i) implies
            #[trigger] is_settled(now, requests, i) by {
            let dir = now.stored[i];
            if is_needed(before.root, before.seen, dir) {
                if !is_at_or_above(dir, before.root) {
                    let k = choose|k: int|
                        0 <= k < before.seen.len() && is_at_or_above(
                            dir,
                            #[trigger] before.seen[k],
                        );
                    assert(now.seen[k] == before.seen[k]);
                }
            } else {
                let k = choose|k: int|
                    0 <= k < earlier.len() && earlier[k] == RequestView::Remove(dir);
                assert(requests[k] == RequestView::Remove(dir));
            }
        }
        if before.tasks.len() == 1 && before.tasks[0] is Prune {
            let next = before.tasks[0]->Prune_next as int;
            if next < before.stored.len() {
                let dir = before.stored[next];
                if !is_needed(before.root, before.seen, dir) {
                    assert(requests[requests.len() - 1] == RequestView::Remove(dir));
                }
                assert(is_settled(now, requests, next));
            }
        } else if before.tasks.len() > 1 {
            assert(moved_on(before.tasks[0], now.tasks[0]));
        }
    } else if incremental && files.len() > 0 {
        assert(now.tasks[0] is Prune);
    }
}

pub proof fn lemma_prev_kept(s: DumpView, reply: ReplyView)
    ensures
        advance(s, reply).0.prev == s.prev,
        advance(s, reply).0.stored == s.stored,
        advance(s, reply).0.root == s.root,
{
}

/// What is known of the earlier tree stays as it was in the beginning.
proof fn lemma_stored(root: Path, incremental: bool, files: Seq<StoredView>, replies: Seq<ReplyView>)
    ensures
        reached(root, incremental, files, replies).stored == initial(root, incremental, files).stored,
        reached(root, incremental, files, replies).root == root,
    decreases replies.len(),
{
    if replies.len() > 0 {
        lemma_stored(root, incremental, files, replies.drop_last());
        lemma_prev_kept(reached(root, incremental, files, replies.drop_last()), replies.last());
    }
}

proof fn lemma_node_dirs(files: Seq<StoredView>, k: int)
    requires
        0 <= k < files.len(),
        entry_of(files[k]) is Some,
    ensures
        node_dirs(files).contains(files[k].dir),
    decreases files.len(),
{
    let all = node_dirs(files);
    if k == files.len() - 1 {
        assert(all[all.len() - 1] == files[k].dir);
    } else {
        let front = node_dirs(files.drop_last());
        lemma_node_dirs(files.drop_last(), k);
        let i = choose|i: int| 0 <= i < front.len() && front[i] == files[k].dir;
        assert(all[i] == files[k].dir);
    }
}

proof fn lemma_prune_step(s: DumpView, reply: ReplyView)
    requires
        s.tasks.len() > 0,
    ensures
        ({
            let (t, request) = advance(s, reply);
            let n = s.tasks.len() - 1;
            &&& s.tasks.last() is Prune ==> {
                let next = s.tasks.last()->Prune_next;
                if next < s.stored.len() {
                    &&& t.tasks.len() == n + 1
                    &&& t.tasks[n] == (TaskView::Prune { next: next + 1 })
                    &&& t.seen == s.seen
                    &&& request == if is_needed(s.root, s.seen, s.stored[next as int]) {
                        RequestView::Proceed
                    } else {
                        RequestView::Remove(s.stored[next as int])
                    }
                } else {
                    t.tasks.len() == n
                }
            }
        }),
{
}

/// No stale node is left behind: when an incremental dump is finished, the directory of every node
/// in the earlier tree was removed, or has the root or a node of this dump in it or below it. A
/// directory that is named as nodes are, with a dash, was written again itself, or was removed.
pub proof fn law_stale_nodes_are_removed(
    root: Path,
    incremental: bool,
    files: Seq<StoredView>,
    replies: Seq<ReplyView>,
    reply: ReplyView,
    k: int,
)
    requires
        advance(reached(root, incremental, files, replies), reply).1 is Finished,
        incremental,
        0 <= k < files.len(),
        entry_of(files[k]) is Some,
    ensures
        ({
            let s = reached(root, incremental, files, replies);
            let dir = files[k].dir;
            ||| requested(initial(root, incremental, files), replies).contains(RequestView::Remove(dir))
            ||| is_at_or_above(dir, root)
            ||| has_node_at(s, resolved(dir))
            ||| !is_dashed(resolved(dir).last()) && is_needed(root, s.seen, dir)
        }),
{
    let s = reached(root, incremental, files, replies);
    let dir = files[k].dir;
    lemma_pruned(root, incremental, files, replies);
    lemma_stored(root, incremental, files, replies);
    lemma_node_dirs(files, k);
    let i = choose|i: int| 0 <= i < s.stored.len() && s.stored[i] == dir;
    assert(is_settled(s, requested(initial(root, incremental, files), replies), i));
    if is_needed(root, s.seen, dir) && !is_at_or_above(dir, root) && is_dashed(
        resolved(dir).last(),
    ) {
        let j = choose|j: int| 0 <= j < s.seen.len() && is_at_or_above(dir, #[trigger] s.seen[j]);
        lemma_grounded(root, incremental, files, replies);
        assert(s.seen.contains(s.seen[j]));
        assert(resolved(dir).len() > 0) by {
            if resolved(dir).len() == 0 {
                assert(resolved(dir) =~= resolved(root).take(0));
            }
        }
        lemma_no_gaps(s, s.seen[j], resolved(dir));
    }
}

// ---------------------------------------------------------------------------
// Errors
// ---------------------------------------------------------------------------
/// Whether a reply is an error.
pub open spec fn error_in(reply: ReplyView) -> Option<ErrorView> {
    match reply {
        ReplyView::List(Err(e)) => Some(e),
        ReplyView::One(Err(e)) => Some(e),
        _ => None,
    }
}

/// An HTTP error never aborts a dump once the workspace is enumerated: the object is skipped. A
/// dump fails only on the error that it was given, and then nothing has changed: the failed request
/// can be made again.
pub proof fn law_only_fatal_errors_abort(s: DumpView, reply: ReplyView)
    ensures
        advance(s, reply).1 matches RequestView::Failed(e) ==> {
            &&& error_in(reply) == Some(e)
            &&& e is Http ==> s.tasks.last() is Search
            &&& advance(s, reply).0 == s
        },
{
}

/// A page that was dumped before, and was not edited since, counts as unchanged in an incremental
/// dump, as long as no later file of the tree holds the same object.
pub proof fn law_unedited_pages_are_unchanged(
    root: Path,
    files: Seq<StoredView>,
    k: int,
    replies: Seq<ReplyView>,
    earlier: JsonView,
    blocks: Seq<JsonView>,
    page: JsonView,
    id: Seq<char>,
    edited: Seq<char>,
)
    requires
        0 <= k < files.len(),
        files[k].content == Some(sanitized(page_node(earlier, blocks))),
        earlier.text_at("id"@) == Some(id),
        earlier.text_at("last_edited_time"@) == Some(edited),
        page.text_at("last_edited_time"@) == Some(edited),
        forall|j: int|
            k < j < files.len() ==> (entry_of(#[trigger] files[j]) is None || entry_of(
                files[j],
            )->0.id != id),
    ensures
        reached(root, true, files, replies).is_unchanged(id, page),
        entry_for(reached(root, true, files, replies).prev, id)->0.dir == files[k].dir,
    decreases replies.len(),
{
    if replies.len() == 0 {
        let dir = files[k].dir;
        law_written_pages_are_known_again(earlier, blocks, dir, id);
        assert(files[k] == (StoredView {
            dir,
            content: Some(sanitized(page_node(earlier, blocks))),
        }));
        let entry = PrevView { id, dir, last_edited_time: edited };
        law_scan_keeps_the_last_file(files, k, entry);
    } else {
        law_unedited_pages_are_unchanged(
            root,
            files,
            k,
            replies.drop_last(),
            earlier,
            blocks,
            page,
            id,
            edited,
        );
        lemma_prev_kept(reached(root, true, files, replies.drop_last()), replies.last());
    }
}

/// A page that was not edited since it was dumped keeps its stored blocks, where they can be read:
/// they are what is written, and none is fetched.
pub proof fn law_unchanged_pages_are_reused(
    s: DumpView,
    page: JsonView,
    id: Seq<char>,
    dir: Path,
    title: Seq<char>,
    blocks: Seq<JsonView>,
    reply: ReplyView,
)
    requires
        s.tasks.len() > 0,
        s.tasks.last() == (TaskView::Load { page, id, dir, title }),
        s.is_unchanged(id, page),
    ensures
        advance(s, ReplyView::Done) == (s, RequestView::Stored(entry_for(s.prev, id)->0.dir)),
        advance(s, ReplyView::Stored(Some(blocks))).1 is Proceed,
        advance(advance(s, ReplyView::Stored(Some(blocks))).0, reply).1 == RequestView::Write(
            dir,
            PAGE_FILE@,
            page_node(page, blocks),
        ),
{
}

// ---------------------------------------------------------------------------
// Block trees
// ---------------------------------------------------------------------------
/// What the API answers when asked for the children of a block.
pub type Listing = spec_fn(Seq<char>) -> Result<Seq<JsonView>, ErrorView>;

/// Whether the blocks are the children of a block as the API lists them, each with all that is
/// nested in it. Of a block whose children the API refuses there are none.
pub open spec fn is_tree(api: Listing, id: Seq<char>, blocks: Seq<JsonView>) -> bool
    decreases blocks,
{
    match api(id) {
        Ok(list) => blocks.len() == list.len() && forall|i: int|
            0 <= i < blocks.len() ==> is_whole(api, list[i], #[trigger] blocks[i]),
        Err(ErrorView::Http(_)) => blocks.len() == 0,
        Err(ErrorView::Other(_)) => false,
    }
}

/// Whether a block is the listed one with all that is nested in it.
pub open spec fn is_whole(api: Listing, listed: JsonView, block: JsonView) -> bool
    decreases block,
{
    match nested_id(listed) {
        Some(id) => {
            proof {
                lemma_items_at_smaller(block, CHILD_KEY@);
            }
            match block.items_at(CHILD_KEY@) {
                Some(children) => block == with_children(listed, children) && is_tree(
                    api,
                    id,
                    children,
                ),
                None => false,
            }
        },
        None => block == listed,
    }
}

/// Whether the replies come from the API.
pub open spec fn comes_from(api: Listing, s: DumpView, replies: Seq<ReplyView>) -> bool
    decreases replies.len(),
{
    replies.len() == 0 || comes_from(api, s, replies.drop_last()) && answers(
        api,
        after(s, replies.drop_last()),
        replies.last(),
    )
}

/// Whether a reply is the API's, where the children of a block were asked for.
pub open spec fn answers(api: Listing, s: DumpView, reply: ReplyView) -> bool {
    s.tasks.len() > 0 && s.tasks.last() is Fetch && reply is List ==> reply->List_0 == api(
        s.tasks.last()->Fetch_id,
    )
}

/// The block whose children a task awaits.
spec fn awaits(task: TaskView) -> Option<Seq<char>> {
    match task {
        TaskView::Gather { page, id, dir, title } => Some(id),
        TaskView::Tree { listed, next, done } => if next < listed.len() {
            nested_id(listed[next as int])
        } else {
            None
        },
        _ => None,
    }
}

spec fn is_sound_task(api: Listing, tasks: Seq<TaskView>, j: int) -> bool {
    match tasks[j] {
        TaskView::Fetch { id } => j > 0 && awaits(tasks[j - 1]) == Some(id),
        TaskView::Tree { listed, next, done } => {
            &&& j > 0
            &&& awaits(tasks[j - 1]) is Some
            &&& is_part(api, awaits(tasks[j - 1])->0, listed, next, done)
        },
        TaskView::Load { page, id, dir, title } => page.text_at("id"@) == Some(id),
        TaskView::Gather { page, id, dir, title } => page.text_at("id"@) == Some(id),
        TaskView::Save { page, id, dir, title, blocks, reused } => reused || (page.text_at(
            "id"@,
        ) is Some && is_tree(api, page.text_at("id"@)->0, blocks)),
        _ => true,
    }
}

/// Whether the first blocks of a list are whole.
spec fn is_part(
    api: Listing,
    id: Seq<char>,
    listed: Seq<JsonView>,
    next: nat,
    done: Seq<JsonView>,
) -> bool {
    &&& api(id) == Ok::<Seq<JsonView>, ErrorView>(listed) || api(id) is Err && api(id)->Err_0 is Http
        && listed.len() == 0
    &&& done.len() == next
    &&& next <= listed.len()
    &&& forall|i: int| 0 <= i < next ==> is_whole(api, listed[i], #[trigger] done[i])
}

spec fn is_sound(api: Listing, s: DumpView) -> bool {
    forall|j: int| 0 <= j < s.tasks.len() ==> #[trigger] is_sound_task(api, s.tasks, j)
}

proof fn lemma_part_grows(
    api: Listing,
    id: Seq<char>,
    listed: Seq<JsonView>,
    next: nat,
    done: Seq<JsonView>,
    block: JsonView,
)
    requires
        is_part(api, id, listed, next, done),
        next < listed.len(),
        is_whole(api, listed[next as int], block),
    ensures
        is_part(api, id, listed, next + 1, done.push(block)),
{
    let more = done.push(block);
    assert forall|i: int| 0 <= i < next + 1 implies is_whole(api, listed[i], #[trigger] more[i]) by {
        if i < next {
            assert(more[i] == done[i]);
        }
    }
}

proof fn lemma_with_children_is_whole(
    api: Listing,
    id: Seq<char>,
    listed: JsonView,
    children: Seq<JsonView>,
)
    requires
        nested_id(listed) == Some(id),
        is_tree(api, id, children),
    ensures
        is_whole(api, listed, with_children(listed, children)),
{
    if let JsonView::Object(fields) = listed {
        lemma_put_lookup(fields, CHILD_KEY@, JsonView::Array(children));
    }
}

/// A step of any task but a list of blocks.
proof fn lemma_sound_plain(api: Listing, s: DumpView, reply: ReplyView)
    requires
        s.tasks.len() > 0,
        !(s.tasks.last() is Tree),
        is_sound_task(api, s.tasks, s.tasks.len() - 1),
        answers(api, s, reply),
    ensures
        ({
            let t = advance(s, reply).0;
            let n = s.tasks.len() - 1;
            &&& t.tasks.len() >= n
            &&& forall|j: int| 0 <= j < n ==> s.tasks[j] == #[trigger] t.tasks[j]
            &&& forall|j: int| n <= j < t.tasks.len() ==> #[trigger] is_sound_task(api, t.tasks, j)
        }),
{
    let t = advance(s, reply).0;
    let n = s.tasks.len() - 1;
    match s.tasks.last() {
        TaskView::Sweep => {
            lemma_root_tasks(s, reply);
        },
        TaskView::Roots { next, found } => {
            if next >= s.groups.len() {
                lemma_root_tasks(s, reply);
            }
        },
        TaskView::Fetch { id } => {
            if n > 0 {
                assert(t.tasks[n - 1] == s.tasks[n - 1]);
            }
            assert(is_sound_task(api, t.tasks, n));
        },
        TaskView::Gather { page, id, dir, title } => {
            assert(is_sound_task(api, t.tasks, n));
            assert(is_sound_task(api, t.tasks, n + 1));
        },
        TaskView::Load { page, id, dir, title } => {
            assert(is_sound_task(api, t.tasks, n));
        },
        TaskView::Page { page, parent } => {
            if t.tasks.len() > n {
                assert(is_sound_task(api, t.tasks, n));
            }
        },
        TaskView::Rows { db, id, dir, rows, next, order } => {
            assert forall|j: int| n <= j < t.tasks.len() implies #[trigger] is_sound_task(
                api,
                t.tasks,
                j,
            ) by {
                assert(t.tasks[j] is Rows || t.tasks[j] is Page || t.tasks[j] is Database);
            }
        },
        TaskView::Children { dir, children, next } => {
            assert forall|j: int| n <= j < t.tasks.len() implies #[trigger] is_sound_task(
                api,
                t.tasks,
                j,
            ) by {
                assert(t.tasks[j] is Children || t.tasks[j] is Page || t.tasks[j] is Database);
            }
        },
        _ => {
            assert forall|j: int| n <= j < t.tasks.len() implies #[trigger] is_sound_task(
                api,
                t.tasks,
                j,
            ) by {
                assert(!(t.tasks[j] is Tree) && !(t.tasks[j] is Fetch));
            }
        },
    }
}

/// A step of a list of blocks.
proof fn lemma_sound_tree(api: Listing, s: DumpView, reply: ReplyView)
    requires
        s.tasks.len() > 0,
        s.tasks.last() is Tree,
        is_sound(api, s),
    ensures
        is_sound(api, advance(s, reply).0),
{
    let t = advance(s, reply).0;
    let n = s.tasks.len() - 1;
    let top = s.tasks[n];
    let listed = top->Tree_listed;
    let next = top->Tree_next;
    let done = top->Tree_done;
    assert(is_sound_task(api, s.tasks, n));
    assert(is_sound_task(api, s.tasks, n - 1));
    let id = awaits(s.tasks[n - 1])->0;
    if next < listed.len() {
        assert forall|j: int| 0 <= j < t.tasks.len() implies #[trigger] is_sound_task(
            api,
            t.tasks,
            j,
        ) by {
            if j < n {
                assert(is_sound_task(api, s.tasks, j));
            } else if nested_id(listed[next as int]) is None {
                lemma_part_grows(api, id, listed, next, done, listed[next as int]);
            }
        }
    } else {
        assert(is_tree(api, id, done));
        let below = s.tasks[n - 1];
        assert forall|j: int| 0 <= j < t.tasks.len() implies #[trigger] is_sound_task(
            api,
            t.tasks,
            j,
        ) by {
            assert(is_sound_task(api, s.tasks, j));
            if j == n - 1 && below is Tree {
                let outer = below->Tree_listed;
                let at = below->Tree_next;
                lemma_with_children_is_whole(api, id, outer[at as int], done);
                lemma_part_grows(
                    api,
                    awaits(s.tasks[n - 2])->0,
                    outer,
                    at,
                    below->Tree_done,
                    with_children(outer[at as int], done),
                );
            }
        }
    }
}

proof fn lemma_sound(
    api: Listing,
    root: Path,
    incremental: bool,
    files: Seq<StoredView>,
    replies: Seq<ReplyView>,
)
    requires
        comes_from(api, initial(root, incremental, files), replies),
    ensures
        is_sound(api, reached(root, incremental, files, replies)),
    decreases replies.len(),
{
    if replies.len() > 0 {
        lemma_sound(api, root, incremental, files, replies.drop_last());
        let s = reached(root, incremental, files, replies.drop_last());
        let t = reached(root, incremental, files, replies);
        if s.tasks.len() > 0 {
            let n = s.tasks.len() - 1;
            if s.tasks.last() is Tree {
                lemma_sound_tree(api, s, replies.last());
            } else {
                assert(is_sound_task(api, s.tasks, n));
                lemma_sound_plain(api, s, replies.last());
                assert forall|j: int| 0 <= j < t.tasks.len() implies #[trigger] is_sound_task(
                    api,
                    t.tasks,
                    j,
                ) by {
                    if j < n {
                        assert(is_sound_task(api, s.tasks, j));
                        assert(t.tasks[j] == s.tasks[j]);
                        if j > 0 {
                            assert(t.tasks[j - 1] == s.tasks[j - 1]);
                        }
                    }
                }
            }
        }
    }
}

/// The blocks that are fetched for a page are its whole tree: the children of every block that has
/// some are attached to it, except where they are pages or databases of their own.
pub proof fn law_fetched_trees_are_whole(
    api: Listing,
    root: Path,
    incremental: bool,
    files: Seq<StoredView>,
    replies: Seq<ReplyView>,
    page: JsonView,
    id: Seq<char>,
    dir: Path,
    title: Seq<char>,
    blocks: Seq<JsonView>,
    reply: ReplyView,
)
    requires
        comes_from(api, initial(root, incremental, files), replies),
        reached(root, incremental, files, replies).tasks.len() > 0,
        reached(root, incremental, files, replies).tasks.last() == (TaskView::Save {
            page,
            id,
            dir,
            title,
            blocks,
            reused: false,
        }),
    ensures
        advance(reached(root, incremental, files, replies), reply).1 == RequestView::Write(
            dir,
            PAGE_FILE@,
            page_node(page, blocks),
        ),
        page.text_at("id"@) is Some,
        is_tree(api, page.text_at("id"@)->0, blocks),
{
    let s = reached(root, incremental, files, replies);
    lemma_sound(api, root, incremental, files, replies);
    assert(is_sound_task(api, s.tasks, s.tasks.len() - 1));
}

/// A row of an unexpected kind leaves no trace in a dump: nothing is asked or written on its account,
/// and the walk goes on behind it.
pub proof fn law_unexpected_rows_are_skipped(s: DumpView, reply: ReplyView)
    requires
        passed_over(s) matches Some(NoticeView::UnexpectedRow(_, _)),
    ensures
        s.tasks.last() matches TaskView::Rows { db, id, dir, rows, next, order } && advance(s, reply)
            == (
            s.replaced(TaskView::Rows { db, id, dir, rows, next: next + 1, order }),
            RequestView::Proceed,
        ),
{
}

// ---------------------------------------------------------------------------
// In terms of the objects
// ---------------------------------------------------------------------------
/// Directories are compared by where they lead: one stands at or above another exactly where the
/// names on its way are the first ones on the way to the other.
pub proof fn law_directories_are_above_by_their_names(dir: Path, other: Path)
    ensures
        is_at_or_above(dir, other) <==> (resolved(dir).len() <= resolved(other).len()
            && forall|i: int|
            0 <= i < resolved(dir).len() ==> #[trigger] resolved(dir)[i] == resolved(other)[i]),
{
    let a = resolved(dir);
    let b = resolved(other);
    if a.len() <= b.len() && (forall|i: int| 0 <= i < a.len() ==> #[trigger] a[i] == b[i]) {
        assert(a =~= b.take(a.len() as int));
    }
    if a.is_prefix_of(b) {
        assert(a == b.take(a.len() as int));
        assert forall|i: int| 0 <= i < a.len() implies #[trigger] a[i] == b[i] by {
            assert(b.take(a.len() as int)[i] == b[i]);
        }
    }
}

/// What is gone from the workspace is gone from the tree: when an incremental dump is finished, the
/// directory of every object in the earlier tree was removed, unless the root or a node that this
/// dump wrote stands in it or below it.
pub proof fn law_what_is_gone_is_removed(
    root: Path,
    files: Seq<StoredView>,
    replies: Seq<ReplyView>,
    reply: ReplyView,
    k: int,
)
    requires
        advance(reached(root, true, files, replies), reply).1 is Finished,
        0 <= k < files.len(),
        files[k].content is Some,
        files[k].content->0.get("data"@) is Some,
        files[k].content->0.get("data"@)->0.text_at("id"@) is Some,
        !resolved(files[k].dir).is_prefix_of(resolved(root)),
        forall|j: int|
            0 <= j < reached(root, true, files, replies).seen.len() ==> !resolved(
                files[k].dir,
            ).is_prefix_of(resolved(#[trigger] reached(root, true, files, replies).seen[j])),
    ensures
        requested(initial(root, true, files), replies).contains(RequestView::Remove(files[k].dir)),
{
    let s = reached(root, true, files, replies);
    let dir = files[k].dir;
    lemma_pruned(root, true, files, replies);
    lemma_stored(root, true, files, replies);
    lemma_node_dirs(files, k);
    let i = choose|i: int| 0 <= i < s.stored.len() && s.stored[i] == dir;
    assert(is_settled(s, requested(initial(root, true, files), replies), i));
    assert(!is_needed(root, s.seen, dir)) by {
        if is_needed(root, s.seen, dir) {
            let j = choose|j: int| 0 <= j < s.seen.len() && is_at_or_above(dir, #[trigger] s.seen[j]);
            assert(!resolved(dir).is_prefix_of(resolved(s.seen[j])));
        }
    }
}

/// A directory is removed only where it was that of an object in the earlier tree, and neither the
/// root nor anything that was written stands in it or below it.
pub proof fn law_only_stale_directories_are_removed(s: DumpView, reply: ReplyView, dir: Path, j: int)
    requires
        advance(s, reply).1 == RequestView::Remove(dir),
        0 <= j < s.seen.len(),
    ensures
        s.stored.contains(dir),
        !resolved(dir).is_prefix_of(resolved(s.root)),
        !resolved(dir).is_prefix_of(resolved(s.seen[j])),
{
    let next = s.tasks.last()->Prune_next;
    assert(s.stored[next as int] == dir);
    assert(!is_needed(s.root, s.seen, dir));
    assert(!is_at_or_above(dir, s.seen[j]));
}

proof fn lemma_groups(root: Path, incremental: bool, files: Seq<StoredView>, replies: Seq<ReplyView>)
    ensures
        reached(root, incremental, files, replies).groups == grouped(
            reached(root, incremental, files, replies).objects,
        ),
    decreases replies.len(),
{
    if replies.len() > 0 {
        let before = reached(root, incremental, files, replies.drop_last());
        lemma_groups(root, incremental, files, replies.drop_last());
        if before.tasks.len() > 0 {
            lemma_records(before, replies.last());
        }
    } else {
        assert(grouped(Seq::empty()) =~= Seq::empty());
    }
}

/// Nothing that the search finds is left out: when a dump is finished, every page that it found was
/// taken up, by its id, and so was the database of every data source.
pub proof fn law_everything_found_is_taken_up(
    root: Path,
    incremental: bool,
    files: Seq<StoredView>,
    replies: Seq<ReplyView>,
    reply: ReplyView,
    i: int,
    id: Seq<char>,
)
    requires
        advance(reached(root, incremental, files, replies), reply).1 is Finished,
        0 <= i < reached(root, incremental, files, replies).objects.len(),
        ({
            let objects = reached(root, incremental, files, replies).objects;
            ||| {
                &&& objects[i].text_at("object"@) == Some("page"@)
                &&& objects[i].text_at("id"@) == Some(id)
                &&& forall|j: int|
                    i < j < objects.len() ==> (#[trigger] objects[j]).text_at("id"@) != Some(id)
            }
            ||| {
                &&& objects[i].text_at("object"@) == Some("data_source"@)
                &&& objects[i].get("parent"@) is Some
                &&& objects[i].get("parent"@)->0.text_at("database_id"@) == Some(id)
            }
        }),
    ensures
        reached(root, incremental, files, replies).visited.contains(id),
{
    let s = reached(root, incremental, files, replies);
    lemma_groups(root, incremental, files, replies);
    if s.objects[i].text_at("object"@) == Some("page"@) && s.objects[i].text_at("id"@) == Some(id)
        && (forall|j: int|
        i < j < s.objects.len() ==> (#[trigger] s.objects[j]).text_at("id"@) != Some(id)) {
        lemma_found_last(s.objects, id, i);
    } else {
        lemma_grouped(s.objects, id, i);
    }
    law_finished_dump_is_complete(root, incremental, files, replies, reply, id);
}

proof fn lemma_found_last(objects: Seq<JsonView>, id: Seq<char>, i: int)
    requires
        0 <= i < objects.len(),
        objects[i].text_at("id"@) == Some(id),
        forall|j: int| i < j < objects.len() ==> (#[trigger] objects[j]).text_at("id"@) != Some(id),
    ensures
        found(objects, id) == Some(objects[i]),
    decreases objects.len(),
{
    if i < objects.len() - 1 {
        let front = objects.drop_last();
        assert(objects[objects.len() - 1].text_at("id"@) != Some(id));
        assert forall|j: int| i < j < front.len() implies (#[trigger] front[j]).text_at("id"@)
            != Some(id) by {
            assert(front[j] == objects[j]);
        }
        lemma_found_last(front, id, i);
    }
}

proof fn lemma_added(
    groups: Seq<(Seq<char>, Seq<JsonView>)>,
    db: Seq<char>,
    source: JsonView,
    id: Seq<char>,
)
    ensures
        group_ids(add_source(groups, db, source)).contains(db),
        group_ids(groups).contains(id) ==> group_ids(add_source(groups, db, source)).contains(id),
    decreases groups.len(),
{
    let out = add_source(groups, db, source);
    if groups.len() == 0 || groups[0].0 == db {
        assert(group_ids(out)[0] == db);
        if group_ids(groups).contains(id) {
            let k = choose|k: int| 0 <= k < group_ids(groups).len() && group_ids(groups)[k] == id;
            assert(group_ids(out)[k] == id);
        }
    } else {
        let rest = groups.skip(1);
        let more = add_source(rest, db, source);
        lemma_added(rest, db, source, id);
        let k = choose|k: int| 0 <= k < group_ids(more).len() && group_ids(more)[k] == db;
        assert(group_ids(out)[k + 1] == db);
        if group_ids(groups).contains(id) {
            let k = choose|k: int| 0 <= k < group_ids(groups).len() && group_ids(groups)[k] == id;
            if k == 0 {
                assert(group_ids(out)[0] == id);
            } else {
                assert(group_ids(rest)[k - 1] == id);
                let m = choose|m: int| 0 <= m < group_ids(more).len() && group_ids(more)[m] == id;
                assert(group_ids(out)[m + 1] == id);
            }
        }
    }
}

proof fn lemma_grouped(objects: Seq<JsonView>, id: Seq<char>, i: int)
    requires
        0 <= i < objects.len(),
        owner_of(objects[i]) == Some(id),
    ensures
        group_ids(grouped(objects)).contains(id),
    decreases objects.len(),
{
    let front = objects.drop_last();
    if i < front.len() {
        lemma_grouped(front, id, i);
    }
    if let Some(db) = owner_of(objects.last()) {
        lemma_added(grouped(front), db, objects.last(), id);
    }
}

proof fn lemma_root_pages(objects: Seq<JsonView>, all: Seq<JsonView>, root: Path)
    ensures
        root_page_tasks(objects, all, root) == objects.filter(
            |o: JsonView| o.text_at("object"@) == Some("page"@) && is_root(o, all),
        ).map_values(|page: JsonView| TaskView::Page { page, parent: root }),
    decreases objects.len(),
{
    reveal(Seq::filter);
    let kept = objects.filter(
        |o: JsonView| o.text_at("object"@) == Some("page"@) && is_root(o, all),
    );
    if objects.len() > 0 {
        lemma_root_pages(objects.drop_last(), all, root);
    }
    assert(root_page_tasks(objects, all, root) =~= kept.map_values(
        |page: JsonView| TaskView::Page { page, parent: root },
    ));
}

/// The walk starts at the top: every database there, and then every page that the search found and
/// that sits in nothing accessible, is taken up at the root, in order, before anything else that is
/// left to do.
pub proof fn law_the_walk_starts_at_the_top(
    s: DumpView,
    reply: ReplyView,
    next: nat,
    top: Seq<Seq<char>>,
    i: int,
)
    requires
        s.tasks.len() > 0,
        s.tasks.last() == (TaskView::Roots { next, found: top }),
        next >= s.groups.len(),
    ensures
        ({
            let t = advance(s, reply).0;
            let pages = s.objects.filter(
                |o: JsonView| o.text_at("object"@) == Some("page"@) && is_root(o, s.objects),
            );
            let n = t.tasks.len();
            &&& n == s.tasks.len() - 1 + top.len() + pages.len()
            &&& 0 <= i < top.len() ==> t.tasks[n - 1 - i] == (TaskView::Database {
                id: top[i],
                parent: s.root,
            })
            &&& 0 <= i < pages.len() ==> t.tasks[n - 1 - top.len() - i] == (TaskView::Page {
                page: pages[i],
                parent: s.root,
            })
            &&& 0 <= i < s.tasks.len() - 1 ==> t.tasks[i] == s.tasks[i]
        }),
{
    let t = advance(s, reply).0;
    let pages = s.objects.filter(
        |o: JsonView| o.text_at("object"@) == Some("page"@) && is_root(o, s.objects),
    );
    lemma_root_pages(s.objects, s.objects, s.root);
    let tasks = root_page_tasks(s.objects, s.objects, s.root);
    let databases = database_tasks(top, s.root);
    let list = databases + tasks;
    assert(t.tasks == s.tasks.drop_last() + list.reverse());
    let n = t.tasks.len();
    if 0 <= i < top.len() {
        assert(t.tasks[n - 1 - i] == list[i]);
        assert(list[i] == databases[i]);
    }
    if 0 <= i < pages.len() {
        assert(t.tasks[n - 1 - top.len() - i] == list[top.len() + i]);
        assert(list[top.len() + i] == tasks[i]);
    }
}

/// A database that the search found is at the top exactly where it is accessible, and sits in nothing
/// else that is.
pub proof fn law_top_databases_are_roots(
    s: DumpView,
    reply: ReplyView,
    next: nat,
    top: Seq<Seq<char>>,
    db: JsonView,
)
    requires
        s.tasks.len() > 0,
        s.tasks.last() == (TaskView::Roots { next, found: top }),
        next < s.groups.len(),
    ensures
        ({
            let id = s.groups[next as int].0;
            let t = advance(s, reply).0;
            &&& cached(s.cache, id) == Some(Some(db)) && is_root(db, s.objects) ==> t.tasks.last()
                == (TaskView::Roots { next: next + 1, found: top.push(id) })
            &&& cached(s.cache, id) == Some(Some(db)) && !is_root(db, s.objects) ==> t.tasks.last()
                == (TaskView::Roots { next: next + 1, found: top })
            &&& cached(s.cache, id) == Some(None::<JsonView>) ==> t.tasks.last() == (
            TaskView::Roots { next: next + 1, found: top })
            &&& cached(s.cache, id) is None ==> advance(s, ReplyView::Done) == (
                s,
                RequestView::Database(id),
            )
        }),
{
}

/// Every page is counted once as its blocks are settled: as reused where stored ones are taken, else
/// as fetched.
pub proof fn law_pages_are_counted(
    s: DumpView,
    page: JsonView,
    id: Seq<char>,
    dir: Path,
    title: Seq<char>,
    reply: ReplyView,
)
    requires
        s.tasks.len() > 0,
        s.tasks.last() == (TaskView::Load { page, id, dir, title }),
        s.reused < usize::MAX,
        s.fetched < usize::MAX,
    ensures
        ({
            let t = advance(s, reply).0;
            match t.tasks.last() {
                TaskView::Save { page: p, blocks, reused, .. } => {
                    &&& t.reused == s.reused + 1
                    &&& t.fetched == s.fetched
                    &&& p == page
                    &&& reused
                    &&& reply == ReplyView::Stored(Some(blocks))
                },
                TaskView::Gather { page: p, .. } => {
                    &&& t.reused == s.reused
                    &&& t.fetched == s.fetched + 1
                    &&& p == page
                },
                _ => t == s,
            }
        }),
{
}

/// A notice is given of a database without data sources, and of every row that is neither a page nor
/// a data source; of nothing else.
pub proof fn law_notices_are_given(s: DumpView)
    requires
        s.tasks.len() > 0,
    ensures
        match s.tasks.last() {
            TaskView::Sources { title, ids, .. } => passed_over(s) == if ids.len() == 0 {
                Some(NoticeView::NoSources(title))
            } else {
                None
            },
            TaskView::Rows { rows, next, .. } => passed_over(s) is Some <==> (next < rows.len()
                && rows[next as int].text_at("object"@) != Some("page"@)
                && rows[next as int].text_at("object"@) != Some("data_source"@)),
            _ => passed_over(s) is None,
        },
{
}

proof fn lemma_node_dirs_sound(files: Seq<StoredView>, i: int) -> (k: int)
    requires
        0 <= i < node_dirs(files).len(),
    ensures
        0 <= k < files.len(),
        files[k].dir == node_dirs(files)[i],
        entry_of(files[k]) is Some,
    decreases files.len(),
{
    let front = files.drop_last();
    if i < node_dirs(front).len() {
        lemma_node_dirs_sound(front, i)
    } else {
        files.len() - 1
    }
}

/// Only what held an object is removed: a directory that an incremental dump removes is that of a
/// file in the earlier tree with an object in it that has an id. A full dump removes nothing so.
pub proof fn law_removed_directories_held_objects(
    root: Path,
    incremental: bool,
    files: Seq<StoredView>,
    replies: Seq<ReplyView>,
    reply: ReplyView,
    dir: Path,
) -> (k: int)
    requires
        advance(reached(root, incremental, files, replies), reply).1 == RequestView::Remove(dir),
    ensures
        incremental,
        0 <= k < files.len(),
        files[k].dir == dir,
        files[k].content is Some,
        files[k].content->0.get("data"@) is Some,
        files[k].content->0.get("data"@)->0.text_at("id"@) is Some,
{
    let s = reached(root, incremental, files, replies);
    lemma_stored(root, incremental, files, replies);
    let next = s.tasks.last()->Prune_next;
    assert(s.stored[next as int] == dir);
    lemma_node_dirs_sound(files, next as int)
}

} // verus!
