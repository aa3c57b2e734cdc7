//! What a dump asks for, what it writes and where: the laws that speak of the objects themselves.

use vstd::prelude::*;

use crate::client::ErrorView;
use crate::dump::{
    abridged, database_node, entry_for, node_name, node_path, one_line, page_node, path_from,
    progress, sanitized, undashed, PrevView, StoredView,
};
use crate::dump_laws::{law_scan_keeps_the_last_file, law_written_pages_are_known_again};
use crate::json::{lemma_put_lookup, lemma_put_others, lookup, JsonView};
use crate::text::{components, decimal, trim, Edge};
use crate::util::{slug, title_of_database, title_of_page};
use crate::util_laws::text_or_nothing;
use crate::walk::{
    add_source, advance, cached, children_at, children_in, database_label, found, group_ids,
    grouped, initial, is_root, nested_id, owner_of, page_count, page_label, source_ids, sources_in,
    tally, with_children, ChildView, DumpView, Path, ReplyView, RequestView, TaskView,
};
use crate::walk_laws::{after, lemma_prev_kept, reached};

verus! {

// ---------------------------------------------------------------------------
// Edited pages
// ---------------------------------------------------------------------------
/// A page whose time of last edit is not the very one that is stored for it has its blocks fetched
/// again, and so has one that is not stored: neither are stored blocks asked for, nor are any taken,
/// whatever the replies are.
pub proof fn law_edited_pages_are_fetched_again(
    s: DumpView,
    page: JsonView,
    id: Seq<char>,
    dir: Path,
    title: Seq<char>,
    reply: ReplyView,
    next: ReplyView,
)
    requires
        s.tasks.len() > 0,
        s.tasks.last() == (TaskView::Load { page, id, dir, title }),
        entry_for(s.prev, id) matches Some(entry) ==> page.text_at("last_edited_time"@) != Some(
            entry.last_edited_time,
        ),
    ensures
        ({
            let (s1, first) = advance(s, reply);
            let (s2, second) = advance(s1, next);
            &&& first is Proceed
            &&& s1.tasks == s.tasks.drop_last().push(TaskView::Gather { page, id, dir, title })
            &&& s1.reused == s.reused
            &&& second is Proceed
            &&& advance(s2, ReplyView::Done).1 == RequestView::Blocks(id)
        }),
{
}

/// Stored blocks are asked for exactly where the earlier tree holds the page under the very time of
/// its last edit.
pub proof fn law_reuse_needs_the_very_time(
    s: DumpView,
    page: JsonView,
    id: Seq<char>,
    dir: Path,
    title: Seq<char>,
)
    requires
        s.tasks.len() > 0,
        s.tasks.last() == (TaskView::Load { page, id, dir, title }),
    ensures
        advance(s, ReplyView::Done).1 is Stored <==> (entry_for(s.prev, id) matches Some(entry)
            && page.text_at("last_edited_time"@) == Some(entry.last_edited_time)),
{
}

/// A page that was edited since it was dumped is fetched again in an incremental dump: where the last
/// file of the earlier tree that holds the page has another time of last edit, its blocks are asked
/// for, and nothing stored is taken in their place.
pub proof fn law_edits_reach_the_next_dump(
    root: Path,
    files: Seq<StoredView>,
    k: int,
    replies: Seq<ReplyView>,
    earlier: JsonView,
    blocks: Seq<JsonView>,
    page: JsonView,
    id: Seq<char>,
    before: Seq<char>,
    now: Seq<char>,
    dir: Path,
    title: Seq<char>,
    reply: ReplyView,
    next: ReplyView,
)
    requires
        0 <= k < files.len(),
        files[k].content == Some(sanitized(page_node(earlier, blocks))),
        earlier.text_at("id"@) == Some(id),
        earlier.text_at("last_edited_time"@) == Some(before),
        page.text_at("last_edited_time"@) == Some(now),
        before != now,
        forall|j: int|
            k < j < files.len() ==> !holds_id(#[trigger] files[j], id),
        reached(root, true, files, replies).tasks.len() > 0,
        reached(root, true, files, replies).tasks.last() == (TaskView::Load { page, id, dir, title }),
    ensures
        ({
            let (s1, first) = advance(reached(root, true, files, replies), reply);
            let (s2, second) = advance(s1, next);
            &&& first is Proceed
            &&& second is Proceed
            &&& advance(s2, ReplyView::Done).1 == RequestView::Blocks(id)
        }),
{
    let at = files[k].dir;
    let entry = PrevView { id, dir: at, last_edited_time: before };
    law_written_pages_are_known_again(earlier, blocks, at, id);
    assert(files[k] == (StoredView {
        dir: at,
        content: Some(sanitized(page_node(earlier, blocks))),
    }));
    law_scan_keeps_the_last_file(files, k, entry);
    lemma_prev(root, true, files, replies);
    law_edited_pages_are_fetched_again(
        reached(root, true, files, replies),
        page,
        id,
        dir,
        title,
        reply,
        next,
    );
}

/// Whether a file of the earlier tree holds an object with an id.
pub open spec fn holds_id(file: StoredView, id: Seq<char>) -> bool {
    file.content is Some && file.content->0.get("data"@) is Some && file.content->0.get(
        "data"@,
    )->0.text_at("id"@) == Some(id)
}

proof fn lemma_prev(
    root: Path,
    incremental: bool,
    files: Seq<StoredView>,
    replies: Seq<ReplyView>,
)
    ensures
        reached(root, incremental, files, replies).prev == initial(root, incremental, files).prev,
    decreases replies.len(),
{
    if replies.len() > 0 {
        lemma_prev(root, incremental, files, replies.drop_last());
        lemma_prev_kept(reached(root, incremental, files, replies.drop_last()), replies.last());
    }
}

/// A full dump reuses nothing: it never asks for stored blocks, whatever an earlier run left. Nor
/// does a dump without an earlier tree.
pub proof fn law_full_dumps_reuse_nothing(
    root: Path,
    incremental: bool,
    files: Seq<StoredView>,
    replies: Seq<ReplyView>,
    reply: ReplyView,
)
    requires
        !incremental || files.len() == 0,
    ensures
        !(advance(reached(root, incremental, files, replies), reply).1 is Stored),
{
    lemma_prev(root, incremental, files, replies);
    let s = reached(root, incremental, files, replies);
    assert(s.prev =~= Seq::empty());
    assert forall|id: Seq<char>| entry_for(s.prev, id) is None by {}
}

/// A dump makes its root first. A full one then removes what an earlier run left; an incremental one
/// does not. Then it enumerates the workspace, and goes on only with an answer.
pub proof fn law_dumps_start_with_a_search(
    root: Path,
    incremental: bool,
    files: Seq<StoredView>,
    a: ReplyView,
    b: ReplyView,
)
    ensures
        ({
            let s = initial(root, incremental, files);
            let (s1, first) = advance(s, a);
            let (s2, second) = advance(s1, b);
            let again = incremental && files.len() > 0;
            &&& first == RequestView::MakeDir(root)
            &&& !again ==> second is Clean && advance(s2, ReplyView::Done) == (s2, RequestView::Search)
            &&& again ==> advance(s1, ReplyView::Done) == (s1, RequestView::Search)
        }),
{
    let s = initial(root, incremental, files);
    let s1 = advance(s, a).0;
    let again = incremental && files.len() > 0;
    if again {
        assert(s.tasks.drop_last().last() is Search);
    } else {
        assert(s.tasks.drop_last().last() is Clean);
        assert(s1.tasks.drop_last().last() is Search);
    }
}

// ---------------------------------------------------------------------------
// Data sources
// ---------------------------------------------------------------------------
/// What the API answers when asked for the rows of a data source.
pub type RowListing = spec_fn(Seq<char>) -> Result<Seq<JsonView>, ErrorView>;

/// The id of a data source.
pub open spec fn source_id(source: JsonView) -> Seq<char> {
    text_or_nothing(source.get("id"@))
}

/// The rows of all the sources, one source after the other; none of one that the API refuses.
pub open spec fn all_rows(api: RowListing, sources: Seq<JsonView>) -> Seq<JsonView>
    decreases sources.len(),
{
    if sources.len() == 0 {
        Seq::empty()
    } else {
        all_rows(api, sources.drop_last()) + match api(source_id(sources.last())) {
            Ok(rows) => rows,
            Err(_) => Seq::empty(),
        }
    }
}

/// The replies of a caller who, when a database is opened, makes its directory and then answers for
/// the first `n` of its sources what the API says.
pub open spec fn answered(api: RowListing, sources: Seq<JsonView>, n: nat) -> Seq<ReplyView>
    decreases n,
{
    if n == 0 {
        seq![ReplyView::Done]
    } else {
        answered(api, sources, (n - 1) as nat).push(ReplyView::Done).push(
            ReplyView::List(api(source_id(sources[n - 1]))),
        )
    }
}

/// The sources of a database: those that its object lists, or where it lists none, those that the
/// search found for it.
pub open spec fn has_sources(
    s: DumpView,
    db: JsonView,
    id: Seq<char>,
    sources: Seq<JsonView>,
) -> bool {
    match db.items_at("data_sources"@) {
        Some(own) => if own.len() > 0 {
            sources == own
        } else {
            sources == sources_in(s.groups, id)
        },
        None => sources == sources_in(s.groups, id),
    }
}

/// Every data source of a database is queried before its node is written, in order, each under its
/// own id; and every row of every answer is among the rows that are then taken up, in order.
pub proof fn law_every_source_is_queried(
    api: RowListing,
    s: DumpView,
    db: JsonView,
    id: Seq<char>,
    parent: Path,
    sources: Seq<JsonView>,
    n: nat,
)
    requires
        s.tasks.len() > 0,
        s.tasks.last() == (TaskView::OpenDatabase { id, parent }),
        cached(s.cache, id) == Some(Some(db)),
        has_sources(s, db, id, sources),
        n <= sources.len(),
        forall|i: int|
            0 <= i < n ==> !(api(source_id(#[trigger] sources[i])) matches Err(
                ErrorView::Other(_),
            )),
    ensures
        ({
            let t = after(s, answered(api, sources, n));
            let (u, request) = advance(t, ReplyView::Done);
            &&& n < sources.len() ==> request == RequestView::Rows(source_id(sources[n as int]))
            &&& n == sources.len() ==> {
                &&& u.tasks.len() == s.tasks.len()
                &&& u.tasks.last() is Rows
                &&& u.tasks.last()->Rows_rows == all_rows(api, sources)
                &&& u.tasks.last()->Rows_next == 0
                &&& u.tasks.last()->Rows_db == db
            }
        }),
{
    lemma_sources(api, s, db, id, parent, sources, n);
    assert(sources.take(n as int) =~= sources || n < sources.len());
    if n < sources.len() {
        assert(source_ids(db, id, s.groups)[n as int] == source_id(sources[n as int]));
    }
}

proof fn lemma_sources(
    api: RowListing,
    s: DumpView,
    db: JsonView,
    id: Seq<char>,
    parent: Path,
    sources: Seq<JsonView>,
    n: nat,
)
    requires
        s.tasks.len() > 0,
        s.tasks.last() == (TaskView::OpenDatabase { id, parent }),
        cached(s.cache, id) == Some(Some(db)),
        has_sources(s, db, id, sources),
        n <= sources.len(),
        forall|i: int|
            0 <= i < n ==> !(api(source_id(#[trigger] sources[i])) matches Err(
                ErrorView::Other(_),
            )),
    ensures
        source_ids(db, id, s.groups).len() == sources.len(),
        after(s, answered(api, sources, n)) == (DumpView {
            tasks: s.tasks.drop_last().push(
                TaskView::Sources {
                    db,
                    id,
                    dir: node_path(parent, database_label(db), id),
                    title: database_label(db),
                    ids: source_ids(db, id, s.groups),
                    next: n,
                    rows: all_rows(api, sources.take(n as int)),
                },
            ),
            ..s
        }),
    decreases n,
{
    reveal_with_fuel(after, 2);
    let ids = source_ids(db, id, s.groups);
    let all = answered(api, sources, n);
    if n == 0 {
        assert(all.drop_last() =~= Seq::empty());
        assert(all.last() == ReplyView::Done);
        assert(sources.take(0) =~= Seq::empty());
        assert(all_rows(api, sources.take(0)) =~= Seq::empty());
    } else {
        let m = (n - 1) as nat;
        lemma_sources(api, s, db, id, parent, sources, m);
        let front = answered(api, sources, m);
        let one = front.push(ReplyView::Done);
        let reply = ReplyView::List(api(source_id(sources[n - 1])));
        assert(all.drop_last() =~= one);
        assert(one.drop_last() =~= front);
        let t = after(s, front);
        assert(advance(t, ReplyView::Done).0 == t);
        assert(after(s, one) == t);
        assert(after(s, all) == advance(t, reply).0);
        let taken = sources.take(n as int);
        assert(taken.drop_last() =~= sources.take(m as int));
        assert(taken.last() == sources[n - 1]);
        assert(!(api(source_id(sources[n - 1])) matches Err(ErrorView::Other(_))));
        let rows = all_rows(api, sources.take(m as int));
        assert(rows + Seq::empty() =~= rows);
        assert(advance(t, reply).0.tasks =~= s.tasks.drop_last().push(
            TaskView::Sources {
                db,
                id,
                dir: node_path(parent, database_label(db), id),
                title: database_label(db),
                ids,
                next: n,
                rows: all_rows(api, taken),
            },
        ));
    }
}

/// Whether an object is a data source of a database.
pub open spec fn belongs_to(object: JsonView, db: Seq<char>) -> bool {
    object.text_at("object"@) == Some("data_source"@) && object.get("parent"@) is Some
        && object.get("parent"@)->0.text_at("database_id"@) == Some(db)
}

proof fn lemma_add_source(
    groups: Seq<(Seq<char>, Seq<JsonView>)>,
    owner: Seq<char>,
    source: JsonView,
    db: Seq<char>,
)
    ensures
        sources_in(add_source(groups, owner, source), db) == if owner == db {
            sources_in(groups, db).push(source)
        } else {
            sources_in(groups, db)
        },
        group_ids(add_source(groups, owner, source)) == if group_ids(groups).contains(owner) {
            group_ids(groups)
        } else {
            group_ids(groups).push(owner)
        },
    decreases groups.len(),
{
    let out = add_source(groups, owner, source);
    if groups.len() == 0 {
        assert(sources_in(out.skip(1), db) =~= Seq::empty());
        assert(group_ids(out) =~= group_ids(groups).push(owner));
        assert(Seq::<JsonView>::empty().push(source) =~= seq![source]);
    } else if groups[0].0 == owner {
        assert(out.skip(1) =~= groups.skip(1));
        assert(group_ids(out) =~= group_ids(groups));
        assert(group_ids(groups)[0] == owner);
    } else {
        let rest = groups.skip(1);
        lemma_add_source(rest, owner, source, db);
        assert(out.skip(1) =~= add_source(rest, owner, source));
        assert(out[0] == groups[0]);
        assert(group_ids(out) =~= seq![groups[0].0] + group_ids(add_source(rest, owner, source)));
        assert(group_ids(groups) =~= seq![groups[0].0] + group_ids(rest));
        if group_ids(rest).contains(owner) {
            let k = choose|k: int| 0 <= k < group_ids(rest).len() && group_ids(rest)[k] == owner;
            assert(group_ids(groups)[k + 1] == owner);
        } else {
            if group_ids(groups).contains(owner) {
                let k = choose|k: int|
                    0 <= k < group_ids(groups).len() && group_ids(groups)[k] == owner;
                assert(group_ids(rest)[k - 1] == owner);
            }
        }
        assert(group_ids(out) =~= if group_ids(groups).contains(owner) {
            group_ids(groups)
        } else {
            group_ids(groups).push(owner)
        });
    }
}

/// Every data source that the search finds is grouped under its database: the sources of a database
/// are all that belong to it, in order, and a database is known exactly where it has one. Nothing
/// else is a data source.
pub proof fn law_sources_are_grouped_by_database(objects: Seq<JsonView>, db: Seq<char>)
    ensures
        sources_in(grouped(objects), db) == objects.filter(|o: JsonView| belongs_to(o, db)),
        group_ids(grouped(objects)).contains(db) <==> exists|i: int|
            0 <= i < objects.len() && belongs_to(#[trigger] objects[i], db),
        group_ids(grouped(objects)).no_duplicates(),
    decreases objects.len(),
{
    reveal(Seq::filter);
    let groups = grouped(objects);
    if objects.len() > 0 {
        let front = objects.drop_last();
        let last = objects.last();
        law_sources_are_grouped_by_database(front, db);
        let before = grouped(front);
        if let Some(owner) = owner_of(last) {
            lemma_add_source(before, owner, last, db);
            assert(belongs_to(last, db) == (owner == db));
            let ids = group_ids(before);
            if !ids.contains(owner) {
                assert(group_ids(groups) == ids.push(owner));
                assert(group_ids(groups)[ids.len() as int] == owner);
                assert forall|i: int, j: int|
                    0 <= i < group_ids(groups).len() && 0 <= j < group_ids(groups).len() && i
                        != j implies group_ids(groups)[i] != group_ids(groups)[j] by {
                    if i == ids.len() {
                        assert(ids[j] != owner);
                    } else if j == ids.len() {
                        assert(ids[i] != owner);
                    }
                }
            }
            if ids.contains(db) {
                let k = choose|k: int| 0 <= k < ids.len() && ids[k] == db;
                assert(group_ids(groups)[k] == db);
            }
            if group_ids(groups).contains(db) && !ids.contains(db) {
                let k = choose|k: int| 0 <= k < group_ids(groups).len() && group_ids(groups)[k] == db;
                assert(k == ids.len());
                assert(owner == db);
            }
        } else {
            assert(!belongs_to(last, db));
        }
        if exists|i: int| 0 <= i < front.len() && belongs_to(#[trigger] front[i], db) {
            let i = choose|i: int| 0 <= i < front.len() && belongs_to(#[trigger] front[i], db);
            assert(belongs_to(objects[i], db));
        }
        if exists|i: int| 0 <= i < objects.len() && belongs_to(#[trigger] objects[i], db) {
            let i = choose|i: int| 0 <= i < objects.len() && belongs_to(#[trigger] objects[i], db);
            if i < front.len() {
                assert(belongs_to(front[i], db));
            } else {
                assert(belongs_to(last, db));
            }
        }
        if belongs_to(last, db) {
            assert(belongs_to(objects[objects.len() - 1], db));
            assert(group_ids(groups).contains(db));
        }
    } else {
        assert(sources_in(groups, db) =~= objects.filter(|o: JsonView| belongs_to(o, db)));
    }
}

/// What the search finds is what the dump works on: all of it, its data sources grouped, and counted
/// by its pages and databases.
pub proof fn law_search_results_are_kept(s: DumpView, objects: Seq<JsonView>)
    requires
        s.tasks.len() > 0,
        s.tasks.last() is Search,
    ensures
        ({
            let t = advance(s, ReplyView::List(Ok(objects))).0;
            &&& t.objects == objects
            &&& t.groups == grouped(objects)
            &&& objects.len() + grouped(objects).len() <= usize::MAX ==> t.total == objects.filter(
                |o: JsonView| o.text_at("object"@) == Some("page"@),
            ).len() + grouped(objects).len()
        }),
{
    lemma_page_count(objects);
    objects.lemma_filter_len(|o: JsonView| o.text_at("object"@) == Some("page"@));
}

proof fn lemma_page_count(objects: Seq<JsonView>)
    ensures
        page_count(objects) == objects.filter(
            |o: JsonView| o.text_at("object"@) == Some("page"@),
        ).len(),
    decreases objects.len(),
{
    reveal(Seq::filter);
    if objects.len() > 0 {
        lemma_page_count(objects.drop_last());
    }
}

// ---------------------------------------------------------------------------
// Where objects belong
// ---------------------------------------------------------------------------
/// An object that the search found is found again by its id: the last one, where there are several.
pub proof fn law_found_objects_have_the_id(objects: Seq<JsonView>, id: Seq<char>, i: int)
    requires
        0 <= i < objects.len(),
        objects[i].text_at("id"@) == Some(id),
        forall|j: int| i < j < objects.len() ==> (#[trigger] objects[j]).text_at("id"@) != Some(id),
    ensures
        found(objects, id) == Some(objects[i]),
    decreases objects.len(),
{
    if i < objects.len() - 1 {
        let front = objects.drop_last();
        assert(objects[objects.len() - 1].text_at("id"@) != Some(id));
        assert forall|j: int| i < j < front.len() implies (#[trigger] front[j]).text_at("id"@)
            != Some(id) by {
            assert(front[j] == objects[j]);
        }
        law_found_objects_have_the_id(front, id, i);
    }
}

proof fn lemma_not_found(objects: Seq<JsonView>, id: Seq<char>)
    ensures
        found(objects, id) is None <==> forall|i: int|
            0 <= i < objects.len() ==> (#[trigger] objects[i]).text_at("id"@) != Some(id),
    decreases objects.len(),
{
    if objects.len() > 0 {
        let front = objects.drop_last();
        lemma_not_found(front, id);
        if found(objects, id) is None {
            assert forall|i: int| 0 <= i < objects.len() implies (#[trigger] objects[i]).text_at(
                "id"@,
            ) != Some(id) by {
                if i < front.len() {
                    assert(front[i] == objects[i]);
                }
            }
        } else if objects.last().text_at("id"@) == Some(id) {
            assert(objects[objects.len() - 1].text_at("id"@) == Some(id));
        } else {
            let i = choose|i: int|
                0 <= i < front.len() && (#[trigger] front[i]).text_at("id"@) == Some(id);
            assert(objects[i].text_at("id"@) == Some(id));
        }
    }
}

/// An object is at the top of the tree exactly where it sits in the workspace itself, or in nothing,
/// or in an object that the search did not find.
pub proof fn law_roots_have_no_accessible_parent(
    object: JsonView,
    objects: Seq<JsonView>,
    parent: JsonView,
    kind: Seq<char>,
    id: Seq<char>,
)
    ensures
        object.get("parent"@) is None ==> is_root(object, objects),
        object.get("parent"@) == Some(parent) && parent.text_at("type"@) == Some("workspace"@)
            ==> is_root(object, objects),
        object.get("parent"@) == Some(parent) && parent.text_at("type"@) == Some(kind) && kind
            != "workspace"@ && parent.text_at(kind) == Some(id) ==> (is_root(object, objects)
            <==> forall|i: int|
            0 <= i < objects.len() ==> (#[trigger] objects[i]).text_at("id"@) != Some(id)),
{
    lemma_not_found(objects, id);
}

/// The blocks of a page stand for the objects placed in it, in order: a block of type `child_page`
/// for the page with its id, one of type `child_database` for the database, and no other block for
/// anything; and what is nested in a block stands for objects of the same page.
pub proof fn law_placed_objects_are_found_at_any_depth(
    a: Seq<JsonView>,
    b: Seq<JsonView>,
    block: JsonView,
    id: Seq<char>,
    nested: Seq<JsonView>,
)
    requires
        block.text_at("id"@) == Some(id),
        block.get("_children"@) is None && nested.len() == 0 || block.get("_children"@) == Some(
            JsonView::Array(nested),
        ),
    ensures
        children_in(a + b) == children_in(a) + children_in(b),
        children_in(seq![block]) == (if block.text_at("type"@) == Some("child_page"@) {
            seq![ChildView::Page(id)]
        } else if block.text_at("type"@) == Some("child_database"@) {
            seq![ChildView::Database(id)]
        } else {
            Seq::empty()
        }) + children_in(nested),
{
    lemma_children_cat(a, b);
    let one = seq![block];
    assert(one.drop_last() =~= Seq::empty());
    assert(one.last() == block);
    assert(children_in(one.drop_last()) =~= Seq::empty());
    assert(children_in(one) =~= children_at(block));
    if block.get("_children"@) is None {
        assert(children_in(nested) =~= Seq::empty());
        assert(children_at(block) + children_in(nested) =~= children_at(block));
    }
}

proof fn lemma_children_cat(a: Seq<JsonView>, b: Seq<JsonView>)
    ensures
        children_in(a + b) == children_in(a) + children_in(b),
    decreases b.len(),
{
    if b.len() == 0 {
        assert(a + b =~= a);
        assert(children_in(a) + children_in(b) =~= children_in(a));
    } else {
        lemma_children_cat(a, b.drop_last());
        assert((a + b).drop_last() =~= a + b.drop_last());
        assert((a + b).last() == b.last());
        assert(children_in(a + b) =~= children_in(a) + children_in(b));
    }
}

/// The children of a block are fetched exactly where it says that it has some, and it is no page or
/// database of its own; then they are attached to it under `_children`, and every other field stays.
pub proof fn law_children_are_fetched_and_attached(
    block: JsonView,
    id: Seq<char>,
    children: Seq<JsonView>,
    key: Seq<char>,
)
    requires
        block.text_at("id"@) == Some(id),
    ensures
        nested_id(block) == if block.get("has_children"@) == Some(JsonView::Bool(true))
            && block.text_at("type"@) != Some("child_page"@) && block.text_at("type"@) != Some(
            "child_database"@,
        ) {
            Some(id)
        } else {
            None
        },
        with_children(block, children).get("_children"@) == Some(JsonView::Array(children)),
        key != "_children"@ ==> with_children(block, children).get(key) == block.get(key),
{
    let fields = block->Object_0;
    lemma_put_lookup(fields, "_children"@, JsonView::Array(children));
    if key != "_children"@ {
        lemma_put_others(fields, "_children"@, JsonView::Array(children), key);
    }
}

// ---------------------------------------------------------------------------
// Nodes
// ---------------------------------------------------------------------------
proof fn lemma_undashed(id: Seq<char>)
    ensures
        undashed(id) == id.filter(|c: char| c != '-'),
    decreases id.len(),
{
    reveal(Seq::filter);
    if id.len() > 0 {
        lemma_undashed(id.drop_last());
    } else {
        assert(undashed(id) =~= id);
    }
}

/// A node is named by the id of its object without dashes, a dash, and the slug of its title.
pub proof fn law_nodes_are_named_by_id_and_slug(title: Seq<char>, id: Seq<char>)
    ensures
        node_name(title, id) == id.filter(|c: char| c != '-') + "-"@ + slug(title),
{
    lemma_undashed(id);
}

/// The title that a node is filed under: that of the object, or else that it has none.
pub proof fn law_untitled_nodes_say_so(page: JsonView, db: JsonView)
    ensures
        title_of_page(page).len() > 0 ==> page_label(page) == title_of_page(page),
        title_of_page(page).len() == 0 ==> page_label(page) == "untitled"@,
        title_of_database(db).len() > 0 ==> database_label(db) == title_of_database(db),
        title_of_database(db).len() == 0 ==> database_label(db) == "untitled-database"@,
{
}

/// A path leads from a directory to what stands below it, name by name; one with a slash in front
/// leads from the top.
pub proof fn law_paths_lead_from_a_directory(dir: Path, path: Seq<char>)
    ensures
        path.len() > 0 && path[0] == '/' ==> path_from(dir, path) == seq!["/"@] + components(path),
        !(path.len() > 0 && path[0] == '/') ==> path_from(dir, path) == dir + components(path),
{
}

/// The node of a page holds the page object and its blocks; that of a database the database object
/// and the names of its rows. Each says what it is.
pub proof fn law_nodes_hold_their_objects(
    object: JsonView,
    blocks: Seq<JsonView>,
    names: Seq<Seq<char>>,
)
    ensures
        page_node(object, blocks).text_at("object"@) == Some("page"@),
        page_node(object, blocks).get("data"@) == Some(object),
        page_node(object, blocks).items_at("blocks"@) == Some(blocks),
        database_node(object, names).text_at("object"@) == Some("database"@),
        database_node(object, names).get("data"@) == Some(object),
        database_node(object, names).items_at("row_order"@) is Some,
        database_node(object, names).items_at("row_order"@)->0.len() == names.len(),
        forall|i: int|
            0 <= i < names.len() ==> database_node(object, names).items_at("row_order"@)->0[i]
                == JsonView::Text(#[trigger] names[i]),
{
    reveal_strlit("object");
    reveal_strlit("data");
    reveal_strlit("blocks");
    reveal_strlit("row_order");
    assert("object"@.len() == 6 && "data"@.len() == 4 && "blocks"@.len() == 6);
    assert("row_order"@.len() == 9 && "object"@[0] == 'o' && "blocks"@[0] == 'b');
    reveal_with_fuel(lookup, 4);
    let p = page_node(object, blocks)->Object_0;
    assert(p.skip(1)[0] == p[1] && p.skip(1).skip(1)[0] == p[2]);
    let d = database_node(object, names)->Object_0;
    assert(d.skip(1)[0] == d[1] && d.skip(1).skip(1)[0] == d[2]);
}

/// A page is written into a directory of its own, as a page node with its blocks, and a database as a
/// database node, once all its rows are dealt with, with the names that were gathered.
pub proof fn law_nodes_are_written_into_their_directories(
    s: DumpView,
    reply: ReplyView,
    object: JsonView,
    id: Seq<char>,
    dir: Path,
    title: Seq<char>,
    blocks: Seq<JsonView>,
    reused: bool,
    rows: Seq<JsonView>,
    next: nat,
    names: Seq<Seq<char>>,
)
    requires
        s.tasks.len() > 0,
    ensures
        s.tasks.last() == (TaskView::Save { page: object, id, dir, title, blocks, reused })
            ==> advance(s, reply).1 == RequestView::Write(
            dir,
            "page.json"@,
            page_node(object, blocks),
        ),
        s.tasks.last() == (TaskView::Rows { db: object, id, dir, rows, next, order: names }) && next
            >= rows.len() ==> advance(s, reply).1 == RequestView::Write(
            dir,
            "database.json"@,
            database_node(object, names),
        ),
{
}

/// A row that is a page, and was not taken up before, is taken up below its database, and its name is
/// put behind those there are; the name leads from the directory of the database to that of the row.
pub proof fn law_rows_are_named_where_they_stand(
    s: DumpView,
    reply: ReplyView,
    again: ReplyView,
    db: JsonView,
    id: Seq<char>,
    dir: Path,
    rows: Seq<JsonView>,
    next: nat,
    names: Seq<Seq<char>>,
    row_id: Seq<char>,
)
    requires
        s.tasks.len() > 0,
        s.tasks.last() == (TaskView::Rows { db, id, dir, rows, next, order: names }),
        next < rows.len(),
        rows[next as int].text_at("object"@) == Some("page"@),
        rows[next as int].text_at("id"@) == Some(row_id),
        !s.visited.contains(row_id),
    ensures
        ({
            let n = s.tasks.len() - 1;
            let t = advance(s, reply).0;
            &&& t.tasks.len() == n + 2
            &&& t.tasks[n] is Rows
            &&& t.tasks[n]->Rows_order.len() == names.len() + 1
            &&& t.tasks[n]->Rows_order.drop_last() == names
            &&& advance(t, again).1 == RequestView::MakeDir(
                path_from(dir, t.tasks[n]->Rows_order.last()),
            )
            &&& advance(t, again).0.tasks.last() is Load
            &&& advance(t, again).0.tasks.last()->Load_page == rows[next as int]
        }),
{
    let n = s.tasks.len() - 1;
    let t = advance(s, reply).0;
    assert(t.tasks[n]->Rows_order.drop_last() =~= names);
}

/// Only rows that are taken up are named: a page that was taken up before, or has no id, leaves the
/// names as they are, and nothing is asked for on its account. A row that is a data source has its
/// database taken up below the one at hand, and is not named either.
pub proof fn law_other_rows_are_not_named(
    s: DumpView,
    reply: ReplyView,
    db: JsonView,
    id: Seq<char>,
    dir: Path,
    rows: Seq<JsonView>,
    next: nat,
    names: Seq<Seq<char>>,
    parent: JsonView,
    sub: Seq<char>,
)
    requires
        s.tasks.len() > 0,
        s.tasks.last() == (TaskView::Rows { db, id, dir, rows, next, order: names }),
        next < rows.len(),
    ensures
        ({
            let row = rows[next as int];
            let kind = row.text_at("object"@);
            let (t, request) = advance(s, reply);
            let rest = s.tasks.drop_last().push(
                TaskView::Rows { db, id, dir, rows, next: next + 1, order: names },
            );
            &&& kind == Some("page"@) && row.text_at("id"@) is None ==> request is Proceed && t.tasks
                == rest
            &&& kind == Some("page"@) && row.text_at("id"@) == Some(sub) && s.visited.contains(sub)
                ==> request is Proceed && t.tasks == rest
            &&& kind == Some("data_source"@) && row.get("parent"@) == Some(parent)
                && parent.text_at("database_id"@) == Some(sub) ==> request is Proceed && t.tasks
                == rest.push(TaskView::Database { id: sub, parent: dir })
            &&& t.visited == s.visited && t.seen == s.seen
        }),
{
    reveal_strlit("page");
    reveal_strlit("data_source");
    assert("page"@.len() != "data_source"@.len());
}

/// A database is dumped into a directory below its parent that is named for it, by its title or what
/// stands in for one.
pub proof fn law_databases_stand_below_their_parents(
    s: DumpView,
    reply: ReplyView,
    id: Seq<char>,
    parent: Path,
    db: JsonView,
)
    requires
        s.tasks.len() > 0,
        s.tasks.last() == (TaskView::OpenDatabase { id, parent }),
        cached(s.cache, id) == Some(Some(db)),
    ensures
        ({
            let (t, request) = advance(s, reply);
            let title = if title_of_database(db).len() == 0 {
                "untitled-database"@
            } else {
                title_of_database(db)
            };
            let dir = path_from(parent, node_name(title, id));
            &&& request == RequestView::MakeDir(dir)
            &&& t.tasks.len() == s.tasks.len()
            &&& t.tasks.last() is Sources
            &&& t.tasks.last()->Sources_db == db
            &&& t.tasks.last()->Sources_id == id
            &&& t.tasks.last()->Sources_dir == dir
            &&& t.tasks.last()->Sources_title == title
            &&& t.tasks.last()->Sources_next == 0
            &&& t.tasks.last()->Sources_rows.len() == 0
        }),
{
}

/// A page is taken up once, into a directory below its parent that is named for it, and every other
/// object placed in it is taken up below that directory.
pub proof fn law_pages_stand_below_their_parents(
    s: DumpView,
    reply: ReplyView,
    page: JsonView,
    parent: Path,
    id: Seq<char>,
)
    requires
        s.tasks.len() > 0,
        s.tasks.last() == (TaskView::Page { page, parent }),
        page.text_at("id"@) == Some(id),
        !s.visited.contains(id),
    ensures
        ({
            let (t, request) = advance(s, reply);
            let title = if title_of_page(page).len() == 0 {
                "untitled"@
            } else {
                title_of_page(page)
            };
            let dir = path_from(parent, node_name(title, id));
            &&& request == RequestView::MakeDir(dir)
            &&& t.visited == s.visited.insert(id)
            &&& t.tasks == s.tasks.drop_last().push(TaskView::Load { page, id, dir, title })
        }),
{
}

/// A page that is placed in another is dumped below it: the page that the search found, or else the
/// one that the API gives when it is asked for the id. A database is taken up under its id.
pub proof fn law_children_are_dumped_below_their_page(
    s: DumpView,
    dir: Path,
    children: Seq<ChildView>,
    next: nat,
    id: Seq<char>,
    page: JsonView,
)
    requires
        s.tasks.len() > 0,
        s.tasks.last() == (TaskView::Children { dir, children, next }),
        next < children.len(),
    ensures
        children[next as int] == ChildView::Database(id) ==> advance(
            s,
            ReplyView::Done,
        ).0.tasks.last() == (TaskView::Database { id, parent: dir }),
        children[next as int] == ChildView::Page(id) && found(s.objects, id) == Some(page)
            ==> advance(s, ReplyView::Done).0.tasks.last() == (TaskView::Page { page, parent: dir }),
        children[next as int] == ChildView::Page(id) && found(s.objects, id) is None ==> advance(
            s,
            ReplyView::Done,
        ) == (s, RequestView::Page(id)) && advance(
            s,
            ReplyView::One(Ok(page)),
        ).0.tasks.last() == (TaskView::Page { page, parent: dir }),
{
}

/// A database that is not known yet is asked for under its id, and then taken as it was given,
/// whatever comes later.
pub proof fn law_databases_are_asked_for_once(
    s: DumpView,
    id: Seq<char>,
    parent: Path,
    db: JsonView,
)
    requires
        s.tasks.len() > 0,
        s.tasks.last() == (TaskView::OpenDatabase { id, parent }),
        cached(s.cache, id) is None,
    ensures
        advance(s, ReplyView::Done) == (s, RequestView::Database(id)),
        ({
            let t = advance(s, ReplyView::One(Ok(db))).0;
            &&& cached(t.cache, id) == Some(Some(db))
            &&& advance(t, ReplyView::Done).1 == RequestView::MakeDir(
                path_from(
                    parent,
                    node_name(
                        if title_of_database(db).len() == 0 {
                            "untitled-database"@
                        } else {
                            title_of_database(db)
                        },
                        id,
                    ),
                ),
            )
        }),
{
}

// ---------------------------------------------------------------------------
// Progress
// ---------------------------------------------------------------------------
/// A title in a log line stands on one line, without white space at its ends, and is cut to at most
/// `limit` characters, the last of them an ellipsis; a short one without line breaks stays.
pub proof fn law_titles_are_cut_to_a_line(title: Seq<char>, limit: nat)
    requires
        limit >= 1,
    ensures
        abridged(title, limit).len() <= limit,
        one_line(title).len() <= limit ==> abridged(title, limit) == trim(
            title.map_values(
                |c: char|
                    if c == '\n' {
                        ' '
                    } else {
                        c
                    },
            ),
            Edge::WhiteSpace,
        ),
        one_line(title).len() > limit ==> abridged(title, limit).last() == '\u{2026}' && abridged(
            title,
            limit,
        ).len() == limit && abridged(title, limit).drop_last().is_prefix_of(one_line(title)),
{
    reveal_strlit("\u{2026}");
    if one_line(title).len() > limit {
        let cut = abridged(title, limit);
        assert(cut.drop_last() =~= one_line(title).take(limit - 1));
    }
}

/// Every page and every database is counted once as it is reported: how many are done, of how many,
/// what was done, and the title.
pub proof fn law_progress_is_reported(
    s: DumpView,
    reply: ReplyView,
    dir: Path,
    title: Seq<char>,
    children: Seq<ChildView>,
    reused: bool,
)
    requires
        s.tasks.len() > 0,
        s.tasks.last() == (TaskView::Announce { dir, title, children, reused }),
        s.processed < usize::MAX,
    ensures
        advance(s, reply).0.processed == s.processed + 1,
        advance(s, reply).1 == RequestView::Report(
            "["@ + decimal(s.processed + 1) + "/"@ + decimal(s.total) + "] "@ + (if reused {
                "reused"@
            } else {
                "fetched"@
            }) + " "@ + "page"@ + ": "@ + abridged(title, 60),
        ),
{
    assert(tally(s.processed, 1) == s.processed + 1);
    assert(progress(
        s.processed + 1,
        s.total,
        if reused {
            "reused"@
        } else {
            "fetched"@
        },
        "page"@,
        title,
    ) == "["@ + decimal(s.processed + 1) + "/"@ + decimal(s.total) + "] "@ + (if reused {
        "reused"@
    } else {
        "fetched"@
    }) + " "@ + "page"@ + ": "@ + abridged(title, 60));
}

/// The rows of a database add to what is known to be done, and the database is reported with their
/// number.
pub proof fn law_databases_are_reported_with_their_rows(
    s: DumpView,
    reply: ReplyView,
    db: JsonView,
    id: Seq<char>,
    dir: Path,
    title: Seq<char>,
    ids: Seq<Seq<char>>,
    rows: Seq<JsonView>,
)
    requires
        s.tasks.len() > 0,
        s.tasks.last() == (TaskView::Sources {
            db,
            id,
            dir,
            title,
            ids,
            next: ids.len(),
            rows,
        }),
        s.processed < usize::MAX,
        s.total + rows.len() <= usize::MAX,
    ensures
        advance(s, reply).0.processed == s.processed + 1,
        advance(s, reply).0.total == s.total + rows.len(),
        advance(s, reply).1 == RequestView::Report(
            progress(
                s.processed + 1,
                s.total + rows.len(),
                "dumped"@,
                "database"@,
                title + " ("@ + decimal(rows.len()) + " rows)"@,
            ),
        ),
{
}

// ---------------------------------------------------------------------------
// Errors
// ---------------------------------------------------------------------------
/// Without an enumeration of the workspace there is no dump: any error of the search ends it, so that
/// nothing is taken for gone.
pub proof fn law_a_failed_search_ends_the_dump(s: DumpView, e: ErrorView)
    requires
        s.tasks.len() > 0,
        s.tasks.last() is Search,
    ensures
        advance(s, ReplyView::List(Err(e))) == (s, RequestView::Failed(e)),
{
}

/// Whether a dump awaits a list from the API, or an object.
pub open spec fn awaits_answer(s: DumpView, list: bool) -> bool {
    match advance(s, ReplyView::Done).1 {
        RequestView::Rows(_) => list,
        RequestView::Blocks(_) => list,
        RequestView::Search => list,
        RequestView::Database(_) => !list,
        RequestView::Page(_) => !list,
        _ => false,
    }
}

/// An error that is no answer of the API ends the dump, whatever was asked for, and nothing has
/// changed by then. An HTTP error costs what was asked for and no more: a source its rows, a block its
/// children, a page or a database itself; the dump goes on.
pub proof fn law_errors_cost_what_was_asked_for(s: DumpView, text: Seq<char>, code: u16)
    ensures
        awaits_answer(s, true) ==> advance(s, ReplyView::List(Err(ErrorView::Other(text)))) == (
            s,
            RequestView::Failed(ErrorView::Other(text)),
        ),
        awaits_answer(s, false) ==> advance(s, ReplyView::One(Err(ErrorView::Other(text)))) == (
            s,
            RequestView::Failed(ErrorView::Other(text)),
        ),
        ({
            let asked = advance(s, ReplyView::Done).1;
            let none = ReplyView::List(Ok(Seq::<JsonView>::empty()));
            let refused = ReplyView::List(Err(ErrorView::Http(code)));
            asked is Rows || asked is Blocks ==> advance(s, refused) == advance(s, none)
        }),
        ({
            let (t, request) = advance(s, ReplyView::One(Err(ErrorView::Http(code))));
            &&& advance(s, ReplyView::Done).1 matches RequestView::Database(id) ==> request is Proceed
                && cached(t.cache, id) == Some(None::<JsonView>) && t.tasks == s.tasks
            &&& advance(s, ReplyView::Done).1 is Page ==> request is Proceed && t.tasks.len()
                == s.tasks.len()
        }),
{
    if s.tasks.len() > 0 {
        match s.tasks.last() {
            TaskView::Sources { db, id, dir, title, ids, next, rows } => {
                assert(rows + Seq::empty() =~= rows);
            },
            _ => {},
        }
    }
}

} // verus!
