//! What holds of every rendering.

use vstd::prelude::*;

use crate::blocks::{fragment_md, Links};
use crate::json::JsonView;
use crate::markup::{csv_index, encoded, front_matter_text, label_text, relative, rows_md, way};
use crate::markup_laws::{law_relative_paths_lead_to_their_target, walked};
use crate::order::{
    is_stable_sort, law_sorting_is_stable, lemma_path_total, ordering, path_precedes,
};
use crate::render::{
    database_md, dir_paths, entries_at, entry_keys, file_of, file_paths, is_straight, is_visible,
    link_for, link_index, link_of, links_at, links_from, node_outputs, object_of, outputs_at,
    page_in, page_md, readme_entry, readme_text, rendered, rows_in, stray_names, stray_page,
    DirView, FileView, LinkView, OutputView, Path, INDEX_FILE,
};
use crate::text::{components, decimal, in_lower_case, joined, precedes};
use crate::text_laws::{law_paths_are_split_at_slashes, law_texts_are_ordered_by_code_points};
use crate::util::{notion_id, title_of_database, title_of_page};

verus! {

/// Whether a directory is rendered: it is not the root, and nothing on the way to it is hidden.
pub open spec fn is_rendered(d: DirView) -> bool {
    d.dir.len() > 0 && is_visible(d.dir)
}

/// Whether the node file that counts cannot be read: the page's, or without one the database's.
pub open spec fn is_unreadable(d: DirView) -> bool {
    d.page is Unreadable || (d.page is Missing && d.database is Unreadable)
}

/// Where nothing failed, every rendered directory has its outputs.
#[verifier::rlimit(40)]
#[verifier::spinoff_prover]
proof fn lemma_outputs_at(dirs: Seq<DirView>, order: Seq<int>, nodes: Seq<LinkView>, k: int)
    requires
        outputs_at(dirs, order, nodes).failure is None,
        order.contains(k),
        is_rendered(dirs[k]),
    ensures
        node_outputs(dirs, dirs[k], nodes) is Ok,
        outputs_at(dirs, order, nodes).outputs.contains(OutputView::Dir(dirs[k].dir)),
        forall|i: int|
            0 <= i < node_outputs(dirs, dirs[k], nodes)->Ok_0.len() ==> outputs_at(
                dirs,
                order,
                nodes,
            ).outputs.contains(#[trigger] node_outputs(dirs, dirs[k], nodes)->Ok_0[i]),
    decreases order.len(),
{
    let before = outputs_at(dirs, order.drop_last(), nodes);
    let now = outputs_at(dirs, order, nodes);
    let files = node_outputs(dirs, dirs[k], nodes)->Ok_0;
    assert(before.failure is None);
    if order.last() == k {
        let with_dir = before.outputs.push(OutputView::Dir(dirs[k].dir));
        assert(now.outputs == with_dir + files);
        assert(now.outputs[before.outputs.len() as int] == OutputView::Dir(dirs[k].dir));
        assert forall|i: int| 0 <= i < files.len() implies now.outputs.contains(
            #[trigger] files[i],
        ) by {
            assert(now.outputs[with_dir.len() + i] == files[i]);
        }
    } else {
        let p = choose|p: int| 0 <= p < order.len() && order[p] == k;
        assert(order.drop_last()[p] == k);
        lemma_outputs_at(dirs, order.drop_last(), nodes, k);
        assert forall|o: OutputView| before.outputs.contains(o) implies now.outputs.contains(o) by {
            let i = choose|i: int| 0 <= i < before.outputs.len() && before.outputs[i] == o;
            assert(now.outputs[i] == o);
        }
    }
}

proof fn lemma_every_position(dirs: Seq<DirView>, k: int)
    requires
        0 <= k < dirs.len(),
    ensures
        ordering(dir_paths(dirs)).contains(k),
{
    law_sorting_is_stable(dir_paths(dirs), dirs.len());
}

/// A rendering that does not fail makes the directory of every node, and all the files of the node:
/// nothing visible is left out.
pub proof fn law_every_node_is_rendered(dirs: Seq<DirView>, nodes: Seq<LinkView>, k: int)
    requires
        rendered(dirs, nodes).failure is None,
        0 <= k < dirs.len(),
        is_rendered(dirs[k]),
    ensures
        node_outputs(dirs, dirs[k], nodes) is Ok,
        rendered(dirs, nodes).outputs.contains(OutputView::Dir(dirs[k].dir)),
        forall|i: int|
            0 <= i < node_outputs(dirs, dirs[k], nodes)->Ok_0.len() ==> rendered(
                dirs,
                nodes,
            ).outputs.contains(#[trigger] node_outputs(dirs, dirs[k], nodes)->Ok_0[i]),
{
    let order = ordering(dir_paths(dirs));
    let body = outputs_at(dirs, order, nodes);
    let all = rendered(dirs, nodes);
    let files = node_outputs(dirs, dirs[k], nodes)->Ok_0;
    lemma_every_position(dirs, k);
    lemma_outputs_at(dirs, order, nodes, k);
    assert forall|o: OutputView| body.outputs.contains(o) implies all.outputs.contains(o) by {
        let i = choose|i: int| 0 <= i < body.outputs.len() && body.outputs[i] == o;
        assert(all.outputs[i + 1] == o);
    }
    assert forall|i: int| 0 <= i < files.len() implies all.outputs.contains(#[trigger] files[i]) by {
        assert(body.outputs.contains(files[i]));
    }
}

proof fn lemma_failure_at(dirs: Seq<DirView>, order: Seq<int>, nodes: Seq<LinkView>)
    ensures
        outputs_at(dirs, order, nodes).failure is Some <==> exists|p: int|
            0 <= p < order.len() && is_rendered(dirs[#[trigger] order[p]]) && is_unreadable(
                dirs[order[p]],
            ),
    decreases order.len(),
{
    if order.len() > 0 {
        let front = order.drop_last();
        lemma_failure_at(dirs, front, nodes);
        if outputs_at(dirs, front, nodes).failure is Some {
            let p = choose|p: int|
                0 <= p < front.len() && is_rendered(dirs[#[trigger] front[p]]) && is_unreadable(
                    dirs[front[p]],
                );
            assert(order[p] == front[p]);
        } else {
            assert forall|p: int|
                0 <= p < front.len() implies !(is_rendered(dirs[#[trigger] order[p]])
                && is_unreadable(dirs[order[p]])) by {
                assert(front[p] == order[p]);
            }
            if outputs_at(dirs, order, nodes).failure is Some {
                assert(is_unreadable(dirs[order[order.len() - 1]]));
            }
        }
    }
}

/// A rendering fails exactly when the node file of some rendered directory cannot be read.
pub proof fn law_rendering_fails_on_unreadable_nodes(dirs: Seq<DirView>, nodes: Seq<LinkView>)
    ensures
        rendered(dirs, nodes).failure is Some <==> exists|k: int|
            0 <= k < dirs.len() && is_rendered(#[trigger] dirs[k]) && is_unreadable(dirs[k]),
{
    let keys = dir_paths(dirs);
    let order = ordering(keys);
    law_sorting_is_stable(keys, dirs.len());
    lemma_failure_at(dirs, order, nodes);
    if rendered(dirs, nodes).failure is Some {
        let p = choose|p: int|
            0 <= p < order.len() && is_rendered(dirs[#[trigger] order[p]]) && is_unreadable(
                dirs[order[p]],
            );
        assert(is_rendered(dirs[order[p]]));
    }
    if exists|k: int|
        0 <= k < dirs.len() && is_rendered(#[trigger] dirs[k]) && is_unreadable(dirs[k]) {
        let k = choose|k: int|
            0 <= k < dirs.len() && is_rendered(#[trigger] dirs[k]) && is_unreadable(dirs[k]);
        assert(order.contains(k));
        let p = choose|p: int| 0 <= p < order.len() && order[p] == k;
        assert(is_rendered(dirs[order[p]]));
    }
}

proof fn lemma_prefix_precedes(a: Path, b: Path)
    requires
        a.is_prefix_of(b),
    ensures
        path_precedes(a, b),
    decreases a.len(),
{
    if a.len() > 0 {
        assert(a[0] == b[0]);
        assert(a.skip(1).is_prefix_of(b.skip(1))) by {
            assert(a.skip(1) =~= b.skip(1).take(a.len() - 1));
        }
        lemma_prefix_precedes(a.skip(1), b.skip(1));
    }
}

/// Directories are rendered from the top down: one that stands in another comes after it.
pub proof fn law_parents_come_first(dirs: Seq<DirView>, p: int, q: int)
    requires
        0 <= p < dirs.len(),
        0 <= q < dirs.len(),
        ({
            let order = ordering(dir_paths(dirs));
            let a = dirs[order[p]].dir;
            let b = dirs[order[q]].dir;
            a.is_prefix_of(b) && a != b
        }),
    ensures
        p < q,
{
    let keys = dir_paths(dirs);
    let order = ordering(keys);
    law_sorting_is_stable(keys, dirs.len());
    let a = dirs[order[p]].dir;
    let b = dirs[order[q]].dir;
    assert(0 <= order[p] < dirs.len() && 0 <= order[q] < dirs.len());
    assert(keys[order[p]] == a && keys[order[q]] == b);
    lemma_prefix_precedes(a, b);
    lemma_path_total(a, b);
    if q < p {
        assert(path_precedes(keys[order[q]], keys[order[p]]));
    }
}

proof fn lemma_entries_at(dirs: Seq<DirView>, order: Seq<int>, k: int)
    requires
        order.contains(k),
        dirs[k].dir.len() == 1,
        is_visible(dirs[k].dir),
        readme_entry(dirs[k]) is Some,
    ensures
        entries_at(dirs, order).contains(readme_entry(dirs[k])->0),
    decreases order.len(),
{
    let before = entries_at(dirs, order.drop_last());
    let now = entries_at(dirs, order);
    let entry = readme_entry(dirs[k])->0;
    if order.last() == k {
        assert(now[before.len() as int] == entry);
    } else {
        let p = choose|p: int| 0 <= p < order.len() && order[p] == k;
        assert(order.drop_last()[p] == k);
        lemma_entries_at(dirs, order.drop_last(), k);
        let i = choose|i: int| 0 <= i < before.len() && before[i] == entry;
        assert(now[i] == entry);
    }
}

/// The entry point links to every root page and database, and the links are sorted by title without
/// regard to case.
pub proof fn law_readme_lists_every_root(dirs: Seq<DirView>, k: int)
    requires
        0 <= k < dirs.len(),
        dirs[k].dir.len() == 1,
        is_visible(dirs[k].dir),
        readme_entry(dirs[k]) is Some,
    ensures
        ({
            let entries = entries_at(dirs, ordering(dir_paths(dirs)));
            let order = ordering(entry_keys(entries));
            let entry = readme_entry(dirs[k])->0;
            &&& is_stable_sort(order, entry_keys(entries), entries.len())
            &&& order.map_values(|i: int| entries[i].1).contains(entry.1)
        }),
{
    let entries = entries_at(dirs, ordering(dir_paths(dirs)));
    let order = ordering(entry_keys(entries));
    lemma_every_position(dirs, k);
    lemma_entries_at(dirs, ordering(dir_paths(dirs)), k);
    law_sorting_is_stable(entry_keys(entries), entries.len());
    let i = choose|i: int| 0 <= i < entries.len() && entries[i] == readme_entry(dirs[k])->0;
    assert(order.contains(i));
    let p = choose|p: int| 0 <= p < order.len() && order[p] == i;
    let lines = order.map_values(|i: int| entries[i].1);
    assert(lines[p] == entries[i].1);
}

// ---------------------------------------------------------------------------
// Links
// ---------------------------------------------------------------------------
proof fn lemma_links_complete(
    dirs: Seq<DirView>,
    order: Seq<int>,
    databases: bool,
    k: int,
    link: LinkView,
)
    requires
        order.contains(k),
        link_of(file_of(dirs[k], databases), dirs[k].dir) == Some(link),
    ensures
        links_at(dirs, order, databases).contains(link),
    decreases order.len(),
{
    let before = links_at(dirs, order.drop_last(), databases);
    let now = links_at(dirs, order, databases);
    if order.last() == k {
        assert(now[before.len() as int] == link);
    } else {
        let p = choose|p: int| 0 <= p < order.len() && order[p] == k;
        assert(order.drop_last()[p] == k);
        lemma_links_complete(dirs, order.drop_last(), databases, k, link);
        let i = choose|i: int| 0 <= i < before.len() && before[i] == link;
        assert(now[i] == link);
    }
}

proof fn lemma_links_sound(
    dirs: Seq<DirView>,
    order: Seq<int>,
    databases: bool,
    i: int,
) -> (p: int)
    requires
        0 <= i < links_at(dirs, order, databases).len(),
    ensures
        0 <= p < order.len(),
        link_of(file_of(dirs[order[p]], databases), dirs[order[p]].dir) == Some(
            links_at(dirs, order, databases)[i],
        ),
    decreases order.len(),
{
    let before = links_at(dirs, order.drop_last(), databases);
    if i < before.len() {
        lemma_links_sound(dirs, order.drop_last(), databases, i)
    } else {
        order.len() - 1
    }
}

proof fn lemma_link_for(nodes: Seq<LinkView>, id: Seq<char>)
    ensures
        link_for(nodes, id) is Some ==> nodes.contains(link_for(nodes, id)->0) && link_for(
            nodes,
            id,
        )->0.id == id,
        (exists|i: int| 0 <= i < nodes.len() && (#[trigger] nodes[i]).id == id) ==> link_for(
            nodes,
            id,
        ) is Some,
    decreases nodes.len(),
{
    if nodes.len() > 0 {
        let front = nodes.drop_last();
        lemma_link_for(front, id);
        if nodes.last().id == id {
            assert(nodes[nodes.len() - 1] == nodes.last());
        } else {
            if link_for(front, id) is Some {
                let i = choose|i: int|
                    0 <= i < front.len() && front[i] == link_for(front, id)->0;
                assert(nodes[i] == front[i]);
            }
            if exists|i: int| 0 <= i < nodes.len() && (#[trigger] nodes[i]).id == id {
                let i = choose|i: int| 0 <= i < nodes.len() && (#[trigger] nodes[i]).id == id;
                assert(front[i] == nodes[i]);
            }
        }
    }
}

/// Whether a directory holds the node of an object.
pub open spec fn holds_object(d: DirView, id: Seq<char>) -> bool {
    exists|databases: bool|
        link_of(#[trigger] file_of(d, databases), d.dir) is Some && link_of(
            file_of(d, databases),
            d.dir,
        )->0.id == id
}

/// Every reference to an object in the tree becomes a link, and the link names the `index.md` in a
/// directory that holds that object: following its components from the page at hand leads there.
pub proof fn law_references_lead_to_their_nodes(
    dirs: Seq<DirView>,
    k: int,
    id: Seq<char>,
    from: Path,
    reference: Seq<char>,
)
    requires
        0 <= k < dirs.len(),
        holds_object(dirs[k], id),
        notion_id(reference) == Some(id),
        forall|j: int, i: int|
            0 <= j < dirs.len() && 0 <= i < dirs[j].dir.len() ==> #[trigger] dirs[j].dir[i]
                != ".."@,
    ensures
        exists|j: int|
            {
                &&& 0 <= j < dirs.len()
                &&& holds_object(#[trigger] dirs[j], id)
                &&& links_from(link_index(dirs), from)(reference) matches Some((url, title))
                &&& url == encoded(relative(from, dirs[j].dir.push(INDEX_FILE@)))
                &&& walked(from, way(from, dirs[j].dir.push(INDEX_FILE@))) == dirs[j].dir.push(
                    INDEX_FILE@,
                )
            },
{
    let databases = choose|databases: bool|
        link_of(#[trigger] file_of(dirs[k], databases), dirs[k].dir) is Some && link_of(
            file_of(dirs[k], databases),
            dirs[k].dir,
        )->0.id == id;
    let link = link_of(file_of(dirs[k], databases), dirs[k].dir)->0;
    let page_order = ordering(file_paths(dirs, false));
    let base_order = ordering(file_paths(dirs, true));
    law_sorting_is_stable(file_paths(dirs, false), dirs.len());
    law_sorting_is_stable(file_paths(dirs, true), dirs.len());
    let pages = links_at(dirs, page_order, false);
    let bases = links_at(dirs, base_order, true);
    let nodes = link_index(dirs);
    assert(nodes == pages + bases);
    assert(page_order.contains(k) && base_order.contains(k));
    if databases {
        lemma_links_complete(dirs, base_order, true, k, link);
        let i = choose|i: int| 0 <= i < bases.len() && bases[i] == link;
        assert(nodes[pages.len() + i] == link);
    } else {
        lemma_links_complete(dirs, page_order, false, k, link);
        let i = choose|i: int| 0 <= i < pages.len() && pages[i] == link;
        assert(nodes[i] == link);
    }
    lemma_link_for(nodes, id);
    let found = link_for(nodes, id)->0;
    let i = choose|i: int| 0 <= i < nodes.len() && nodes[i] == found;
    let j = if i < pages.len() {
        let p = lemma_links_sound(dirs, page_order, false, i);
        assert(link_of(file_of(dirs[page_order[p]], false), dirs[page_order[p]].dir) == Some(
            found,
        ));
        page_order[p]
    } else {
        let p = lemma_links_sound(dirs, base_order, true, i - pages.len());
        assert(link_of(file_of(dirs[base_order[p]], true), dirs[base_order[p]].dir) == Some(
            found,
        ));
        base_order[p]
    };
    assert(found.dir == dirs[j].dir);
    assert(holds_object(dirs[j], id));
    let target = dirs[j].dir.push(INDEX_FILE@);
    reveal_strlit("index.md");
    reveal_strlit("..");
    assert(INDEX_FILE@.len() == 8 && ".."@.len() == 2);
    assert forall|i: int| 0 <= i < target.len() implies #[trigger] target[i] != ".."@ by {
        if i < dirs[j].dir.len() {
            assert(target[i] == dirs[j].dir[i]);
        }
    }
    law_relative_paths_lead_to_their_target(from, target);
}

/// An object is linked under the id in its node file, in the directory of the file, and under its
/// title: that of the page, else that of the database, else that it has none.
pub proof fn law_nodes_are_indexed_by_id(
    payload: JsonView,
    data: JsonView,
    text: Seq<char>,
    id: Seq<char>,
    dir: Path,
)
    requires
        payload.get("data"@) == Some(data),
        data.text_at("id"@) == Some(text),
        notion_id(text) == Some(id),
    ensures
        ({
            let page = title_of_page(data);
            let database = title_of_database(data);
            let title = if page.len() > 0 {
                page
            } else if database.len() > 0 {
                database
            } else {
                "untitled"@
            };
            link_of(FileView::Loaded(payload), dir) == Some(LinkView { id, dir, title })
        }),
{
}

/// Of several nodes with one id the last one in the index counts.
pub proof fn law_the_last_node_counts(nodes: Seq<LinkView>, i: int)
    requires
        0 <= i < nodes.len(),
        forall|j: int| i < j < nodes.len() ==> (#[trigger] nodes[j]).id != nodes[i].id,
    ensures
        link_for(nodes, nodes[i].id) == Some(nodes[i]),
    decreases nodes.len(),
{
    if i < nodes.len() - 1 {
        let front = nodes.drop_last();
        assert(nodes[nodes.len() - 1].id != nodes[i].id);
        assert forall|j: int| i < j < front.len() implies (#[trigger] front[j]).id != front[i].id by {
            assert(front[j] == nodes[j]);
        }
        law_the_last_node_counts(front, i);
    }
}

// ---------------------------------------------------------------------------
// Files
// ---------------------------------------------------------------------------
/// The file of a page is its front matter, its title as a heading, and all its blocks, none of them
/// indented. That of a database is its front matter, its title, the number of its rows and their
/// table. What has no title says so.
pub proof fn law_files_hold_their_objects(
    payload: JsonView,
    data: JsonView,
    blocks: Seq<JsonView>,
    known: Links,
    rows: Seq<(Seq<char>, JsonView)>,
)
    requires
        payload.get("data"@) == Some(data),
    ensures
        ({
            let title = if title_of_page(data).len() == 0 {
                "untitled"@
            } else {
                title_of_page(data)
            };
            payload.get("blocks"@) == Some(JsonView::Array(blocks)) ==> page_md(payload, known)
                == front_matter_text(data, title) + "\n# "@ + title + "\n\n"@ + fragment_md(
                blocks,
                0,
                known,
            ) + "\n"@
        }),
        ({
            let title = if title_of_database(data).len() == 0 {
                "untitled-database"@
            } else {
                title_of_database(data)
            };
            database_md(payload, rows) == front_matter_text(data, title) + "\n# "@ + title
                + "\n\n"@ + decimal(rows.len())
                + " rows - full data in [`_index.csv`](_index.csv)."@ + "\n\n"@ + rows_md(rows)
                + "\n"@
        }),
{
}

/// A directory with a page becomes an `index.md`; one with a database becomes an `index.md` and an
/// `_index.csv` of the same rows; one with neither becomes nothing but a directory.
pub proof fn law_nodes_become_files(
    dirs: Seq<DirView>,
    d: DirView,
    nodes: Seq<LinkView>,
    payload: JsonView,
    order: Seq<JsonView>,
)
    ensures
        d.page == FileView::Loaded(payload) ==> node_outputs(dirs, d, nodes) == Ok::<
            Seq<OutputView>,
            Seq<char>,
        >(
            seq![
                OutputView::File(d.dir, "index.md"@, page_md(payload, links_from(nodes, d.dir))),
            ],
        ),
        d.page is Missing && d.database == FileView::Loaded(payload) && payload.get("row_order"@)
            == Some(JsonView::Array(order)) ==> ({
            let rows = rows_in(dirs, d, order);
            node_outputs(dirs, d, nodes) == Ok::<Seq<OutputView>, Seq<char>>(
                seq![
                    OutputView::File(
                        d.dir,
                        "_index.csv"@,
                        csv_index(rows.map_values(|r: (Seq<char>, JsonView)| r.1)),
                    ),
                    OutputView::File(d.dir, "index.md"@, database_md(payload, rows)),
                ],
            )
        }),
        d.page is Missing && d.database is Missing ==> (node_outputs(dirs, d, nodes) matches Ok(
            files,
        ) && files.len() == 0),
{
}

// ---------------------------------------------------------------------------
// Rows
// ---------------------------------------------------------------------------
proof fn lemma_rows_cat(dirs: Seq<DirView>, d: DirView, a: Seq<JsonView>, b: Seq<JsonView>)
    ensures
        rows_in(dirs, d, a + b) == rows_in(dirs, d, a) + rows_in(dirs, d, b),
    decreases b.len(),
{
    if b.len() == 0 {
        assert(a + b =~= a);
        assert(rows_in(dirs, d, a) + rows_in(dirs, d, b) =~= rows_in(dirs, d, a));
    } else {
        lemma_rows_cat(dirs, d, a, b.drop_last());
        assert((a + b).drop_last() =~= a + b.drop_last());
        assert((a + b).last() == b.last());
        assert(rows_in(dirs, d, a + b) =~= rows_in(dirs, d, a) + rows_in(dirs, d, b));
    }
}

proof fn lemma_page_in(dirs: Seq<DirView>, k: int)
    requires
        0 <= k < dirs.len(),
        !(dirs[k].page is Missing),
        forall|j: int| 0 <= j < k ==> (#[trigger] dirs[j]).dir != dirs[k].dir,
    ensures
        page_in(dirs, dirs[k].dir) == Some(dirs[k].page),
    decreases k,
{
    if k > 0 {
        let rest = dirs.skip(1);
        assert(dirs[0].dir != dirs[k].dir);
        assert forall|j: int| 0 <= j < k - 1 implies (#[trigger] rest[j]).dir != rest[k - 1].dir by {
            assert(rest[j] == dirs[j + 1]);
        }
        assert(rest[k - 1] == dirs[k]);
        lemma_page_in(rest, k - 1);
    }
}

proof fn lemma_no_page_in(dirs: Seq<DirView>, dir: Path)
    requires
        forall|j: int| 0 <= j < dirs.len() ==> (#[trigger] dirs[j]).dir != dir || dirs[j].page is Missing,
    ensures
        page_in(dirs, dir) is None,
    decreases dirs.len(),
{
    if dirs.len() > 0 {
        let rest = dirs.skip(1);
        assert(dirs[0].dir != dir || dirs[0].page is Missing);
        assert forall|j: int| 0 <= j < rest.len() implies (#[trigger] rest[j]).dir != dir
            || rest[j].page is Missing by {
            assert(rest[j] == dirs[j + 1]);
        }
        lemma_no_page_in(rest, dir);
    }
}

/// The rows of a database are the pages that its row order names, in that order: a name stands for
/// the page in the directory of that name below the database, with the object in its file; a name
/// without a page there is passed over.
pub proof fn law_rows_come_in_their_order(
    dirs: Seq<DirView>,
    d: DirView,
    a: Seq<JsonView>,
    b: Seq<JsonView>,
    name: Seq<char>,
    k: int,
    payload: JsonView,
    data: JsonView,
)
    requires
        name.len() > 0,
        !name.contains('/'),
        name != "."@,
        name != ".."@,
    ensures
        rows_in(dirs, d, a + b) == rows_in(dirs, d, a) + rows_in(dirs, d, b),
        0 <= k < dirs.len() && dirs[k].dir == d.dir.push(name) && (forall|j: int|
            0 <= j < k ==> (#[trigger] dirs[j]).dir != dirs[k].dir) && dirs[k].page
            == FileView::Loaded(payload) && payload.get("data"@) == Some(data) ==> rows_in(
            dirs,
            d,
            seq![JsonView::Text(name)],
        ) == seq![(name, data)],
        (forall|j: int|
            0 <= j < dirs.len() ==> (#[trigger] dirs[j]).dir != d.dir.push(name)
                || dirs[j].page is Missing) ==> rows_in(
            dirs,
            d,
            seq![JsonView::Text(name)],
        ).len() == 0,
{
    lemma_rows_cat(dirs, d, a, b);
    law_paths_are_split_at_slashes(name, Seq::empty());
    let one = seq![JsonView::Text(name)];
    assert(one.drop_last() =~= Seq::empty());
    assert(rows_in(dirs, d, one.drop_last()) =~= Seq::empty());
    assert(one.last() == JsonView::Text(name));
    assert(components(name) == seq![name]);
    assert(d.dir + seq![name] =~= d.dir.push(name));
    assert(!seq![name].contains(".."@)) by {
        if seq![name].contains(".."@) {
            let i = choose|i: int| 0 <= i < 1 && seq![name][i] == ".."@;
            assert(seq![name][0] == ".."@);
        }
    }
    assert(name.contains(name[0]));
    assert(is_straight(name));
    if 0 <= k < dirs.len() && dirs[k].dir == d.dir.push(name) && (forall|j: int|
        0 <= j < k ==> (#[trigger] dirs[j]).dir != dirs[k].dir) && dirs[k].page == FileView::Loaded(
        payload,
    ) && payload.get("data"@) == Some(data) {
        lemma_page_in(dirs, k);
        assert(rows_in(dirs, d, one) =~= seq![(name, data)]);
    }
    if forall|j: int|
        0 <= j < dirs.len() ==> (#[trigger] dirs[j]).dir != d.dir.push(name)
            || dirs[j].page is Missing {
        lemma_no_page_in(dirs, d.dir.push(name));
    }
}

// ---------------------------------------------------------------------------
// The whole tree
// ---------------------------------------------------------------------------
/// Whether an output is made of a rendered directory.
spec fn is_made_of(dirs: Seq<DirView>, nodes: Seq<LinkView>, k: int, o: OutputView) -> bool {
    &&& 0 <= k < dirs.len()
    &&& is_rendered(dirs[k])
    &&& o == OutputView::Dir(dirs[k].dir) || (node_outputs(dirs, dirs[k], nodes) matches Ok(files)
        && files.contains(o))
}

proof fn lemma_outputs_sound(
    dirs: Seq<DirView>,
    order: Seq<int>,
    nodes: Seq<LinkView>,
    i: int,
)
    requires
        forall|p: int| 0 <= p < order.len() ==> 0 <= #[trigger] order[p] < dirs.len(),
        0 <= i < outputs_at(dirs, order, nodes).outputs.len(),
    ensures
        exists|k: int|
            #[trigger] is_made_of(dirs, nodes, k, outputs_at(dirs, order, nodes).outputs[i]),
    decreases order.len(),
{
    let front = order.drop_last();
    assert forall|p: int| 0 <= p < front.len() implies 0 <= #[trigger] front[p] < dirs.len() by {
        assert(front[p] == order[p]);
    }
    let before = outputs_at(dirs, front, nodes);
    let now = outputs_at(dirs, order, nodes);
    let k = order.last();
    assert(0 <= order[order.len() - 1] < dirs.len());
    if i < before.outputs.len() {
        lemma_outputs_sound(dirs, front, nodes, i);
        let j = choose|j: int| #[trigger] is_made_of(dirs, nodes, j, before.outputs[i]);
        assert(now.outputs[i] == before.outputs[i]);
        assert(is_made_of(dirs, nodes, j, now.outputs[i]));
    } else if i == before.outputs.len() {
        assert(now.outputs[i] == OutputView::Dir(dirs[k].dir));
        assert(is_made_of(dirs, nodes, k, now.outputs[i]));
    } else {
        let files = node_outputs(dirs, dirs[k], nodes)->Ok_0;
        assert(now.outputs[i] == files[i - before.outputs.len() - 1]);
        assert(files.contains(now.outputs[i]));
        assert(is_made_of(dirs, nodes, k, now.outputs[i]));
    }
}

/// Nothing is made but what the tree holds: the rendered tree is made anew first; every directory and
/// every file is that of a directory of the JSON tree that is neither its root nor hidden, in the
/// same place; and where nothing fails, the last file is the entry point at the root.
pub proof fn law_only_nodes_are_rendered(dirs: Seq<DirView>, nodes: Seq<LinkView>, i: int)
    requires
        0 <= i < rendered(dirs, nodes).outputs.len(),
    ensures
        ({
            let all = rendered(dirs, nodes);
            let o = all.outputs[i];
            &&& i == 0 <==> o is Reset
            &&& all.failure is None && i == all.outputs.len() - 1 ==> {
                &&& o is File
                &&& o->File_0.len() == 0
                &&& o->File_1 == "README.md"@
            }
            &&& 0 < i && !(all.failure is None && i == all.outputs.len() - 1) ==> exists|k: int|
                {
                    &&& 0 <= k < dirs.len()
                    &&& (#[trigger] dirs[k]).dir.len() > 0
                    &&& forall|j: int|
                        0 <= j < dirs[k].dir.len() ==> ((#[trigger] dirs[k].dir[j]).len() > 0
                            ==> dirs[k].dir[j][0] != '.')
                    &&& match o {
                        OutputView::Dir(dir) => dir == dirs[k].dir,
                        OutputView::File(dir, name, text) => dir == dirs[k].dir && (name
                            == "index.md"@ || name == "_index.csv"@ && dirs[k].page is Missing),
                        OutputView::Reset => false,
                    }
                }
        }),
{
    let order = ordering(dir_paths(dirs));
    law_sorting_is_stable(dir_paths(dirs), dirs.len());
    let body = outputs_at(dirs, order, nodes);
    let all = rendered(dirs, nodes);
    if 0 < i && !(all.failure is None && i == all.outputs.len() - 1) {
        assert(all.outputs[i] == body.outputs[i - 1]);
        lemma_outputs_sound(dirs, order, nodes, i - 1);
        let k = choose|k: int| #[trigger] is_made_of(dirs, nodes, k, body.outputs[i - 1]);
        lemma_made_of(dirs, nodes, k, body.outputs[i - 1]);
        assert(dirs[k].dir.len() > 0);
    }
}

proof fn lemma_made_of(dirs: Seq<DirView>, nodes: Seq<LinkView>, k: int, o: OutputView)
    requires
        is_made_of(dirs, nodes, k, o),
    ensures
        0 <= k < dirs.len(),
        dirs[k].dir.len() > 0,
        forall|j: int|
            0 <= j < dirs[k].dir.len() ==> ((#[trigger] dirs[k].dir[j]).len() > 0
                ==> dirs[k].dir[j][0] != '.'),
        match o {
            OutputView::Dir(dir) => dir == dirs[k].dir,
            OutputView::File(dir, name, text) => dir == dirs[k].dir && (name == "index.md"@ || name
                == "_index.csv"@ && dirs[k].page is Missing),
            OutputView::Reset => false,
        },
{
    if o != OutputView::Dir(dirs[k].dir) {
        let files = node_outputs(dirs, dirs[k], nodes)->Ok_0;
        let i = choose|i: int| 0 <= i < files.len() && files[i] == o;
        assert(files[i] == o);
    }
}

/// The entry point is a heading, a line that says what it is, and a link for every root page and
/// database, each behind its icon and under its title; without any it says so.
pub proof fn law_readme_is_a_list_of_links(
    entries: Seq<(Seq<char>, Seq<char>)>,
    d: DirView,
    payload: JsonView,
    data: JsonView,
)
    requires
        d.dir.len() == 1,
        payload.get("data"@) == Some(data),
    ensures
        entries.len() == 0 ==> readme_text(entries) == joined(
            seq![
                "# Notion backup"@,
                ""@,
                "Markdown render of the Notion workspace. Root pages:"@,
                ""@,
                "_No pages found._"@,
            ],
            "\n"@,
        ) + "\n"@,
        entries.len() > 0 ==> readme_text(entries) == joined(
            seq![
                "# Notion backup"@,
                ""@,
                "Markdown render of the Notion workspace. Root pages:"@,
                ""@,
            ] + ordering(entry_keys(entries)).map_values(|i: int| entries[i].1),
            "\n"@,
        ) + "\n"@,
        d.page == FileView::Loaded(payload) ==> ({
            let title = if title_of_page(data).len() == 0 {
                "untitled"@
            } else {
                title_of_page(data)
            };
            readme_entry(d) == Some(
                (
                    title,
                    "- "@ + "\u{1F4C4}"@ + " ["@ + label_text(title) + "]("@ + encoded(
                        d.dir[0] + "/index.md"@,
                    ) + ")"@,
                ),
            )
        }),
        d.page is Missing && d.database == FileView::Loaded(payload) ==> ({
            let title = if title_of_database(data).len() == 0 {
                "untitled-database"@
            } else {
                title_of_database(data)
            };
            readme_entry(d) == Some(
                (
                    title,
                    "- "@ + "\u{1F4CA}"@ + " ["@ + label_text(title) + "]("@ + encoded(
                        d.dir[0] + "/index.md"@,
                    ) + ")"@,
                ),
            )
        }),
        d.page is Missing && d.database is Missing ==> readme_entry(d) is None,
{
    let top = seq![
        "# Notion backup"@,
        ""@,
        "Markdown render of the Notion workspace. Root pages:"@,
        ""@,
    ];
    assert(top + seq!["_No pages found._"@] =~= seq![
        "# Notion backup"@,
        ""@,
        "Markdown render of the Notion workspace. Root pages:"@,
        ""@,
        "_No pages found._"@,
    ]);
}

/// The links of the entry point are sorted by title without regard to case: no title comes behind
/// one that it precedes in lower case, and equal ones keep their order.
pub proof fn law_readme_is_sorted_by_title(entries: Seq<(Seq<char>, Seq<char>)>, p: int, q: int)
    requires
        0 <= p < q < entries.len(),
    ensures
        ({
            let order = ordering(entry_keys(entries));
            let a = entries[order[p]].0;
            let b = entries[order[q]].0;
            &&& precedes(in_lower_case(a), in_lower_case(b))
            &&& in_lower_case(a) == in_lower_case(b) ==> order[p] < order[q]
        }),
{
    let keys = entry_keys(entries);
    let order = ordering(keys);
    law_sorting_is_stable(keys, entries.len());
    let x = keys[order[p]];
    let y = keys[order[q]];
    assert(0 <= order[p] < entries.len() && 0 <= order[q] < entries.len());
    assert(x == seq![in_lower_case(entries[order[p]].0)]);
    assert(y == seq![in_lower_case(entries[order[q]].0)]);
    assert(path_precedes(x, y));
    if x[0] == y[0] {
        assert(x =~= y);
        law_texts_are_ordered_by_code_points(x[0], y[0], x[0].len() as int);
    }
}

/// A directory is shown exactly where no name on the way to it starts with a dot.
pub proof fn law_dotted_directories_are_hidden(dir: Path)
    ensures
        is_visible(dir) <==> forall|i: int|
            0 <= i < dir.len() ==> (#[trigger] dir[i]).len() == 0 || dir[i][0] != '.',
{
}

proof fn lemma_stray(strays: Seq<(Seq<char>, FileView)>, k: int)
    requires
        0 <= k < strays.len(),
        !(strays[k].1 is Missing),
        forall|j: int| 0 <= j < k ==> (#[trigger] strays[j]).0 != strays[k].0,
    ensures
        stray_page(strays, strays[k].0) == Some(strays[k].1),
    decreases k,
{
    if k > 0 {
        let rest = strays.skip(1);
        assert(strays[0].0 != strays[k].0);
        assert forall|j: int| 0 <= j < k - 1 implies (#[trigger] rest[j]).0 != rest[k - 1].0 by {
            assert(rest[j] == strays[j + 1]);
        }
        assert(rest[k - 1] == strays[k]);
        lemma_stray(rest, k - 1);
    }
}

/// Whether a name may lead out of the directory that it is seen from: it starts at the root of the
/// file system, or goes up.
pub open spec fn leads_out(name: Seq<char>) -> bool {
    name.len() > 0 && name[0] == '/' || components(name).contains(".."@)
}

/// The name of a row that may lead out of the directory of its database stands for the page that is
/// handed in for it; one whose page cannot be read is a row without values.
pub proof fn law_stray_rows_are_looked_up(
    dirs: Seq<DirView>,
    d: DirView,
    k: int,
    payload: JsonView,
    data: JsonView,
)
    requires
        0 <= k < d.strays.len(),
        leads_out(d.strays[k].0),
        forall|j: int| 0 <= j < k ==> (#[trigger] d.strays[j]).0 != d.strays[k].0,
    ensures
        d.strays[k].1 == FileView::Loaded(payload) && payload.get("data"@) == Some(data) ==> rows_in(
            dirs,
            d,
            seq![JsonView::Text(d.strays[k].0)],
        ) == seq![(d.strays[k].0, data)],
        d.strays[k].1 is Unreadable ==> rows_in(dirs, d, seq![JsonView::Text(d.strays[k].0)])
            == seq![(d.strays[k].0, JsonView::Null)],
{
    let name = d.strays[k].0;
    let one = seq![JsonView::Text(name)];
    assert(one.drop_last() =~= Seq::empty());
    assert(rows_in(dirs, d, one.drop_last()) =~= Seq::empty());
    assert(one.last() == JsonView::Text(name));
    if !(d.strays[k].1 is Missing) {
        lemma_stray(d.strays, k);
        assert(rows_in(dirs, d, one) =~= seq![(name, object_of(d.strays[k].1))]);
    }
}

proof fn lemma_stray_names(a: Seq<JsonView>, b: Seq<JsonView>)
    ensures
        stray_names(a + b) == stray_names(a) + stray_names(b),
    decreases b.len(),
{
    if b.len() == 0 {
        assert(a + b =~= a);
        assert(stray_names(a) + stray_names(b) =~= stray_names(a));
    } else {
        lemma_stray_names(a, b.drop_last());
        assert((a + b).drop_last() =~= a + b.drop_last());
        assert((a + b).last() == b.last());
        assert(stray_names(a + b) =~= stray_names(a) + stray_names(b));
    }
}

/// The names to be looked up are those in the row order that may lead out, all of them, in order.
pub proof fn law_stray_names_are_listed(a: Seq<JsonView>, b: Seq<JsonView>, name: Seq<char>)
    ensures
        stray_names(a + b) == stray_names(a) + stray_names(b),
        stray_names(seq![JsonView::Text(name)]) == if leads_out(name) {
            seq![name]
        } else {
            Seq::<Seq<char>>::empty()
        },
{
    lemma_stray_names(a, b);
    let one = seq![JsonView::Text(name)];
    assert(one.drop_last() =~= Seq::empty());
    assert(stray_names(one.drop_last()) =~= Seq::empty());
    assert(one.last() == JsonView::Text(name));
    assert(Seq::<Seq<char>>::empty().push(name) =~= seq![name]);
}

proof fn lemma_link_in_front(a: Seq<LinkView>, b: Seq<LinkView>, id: Seq<char>)
    ensures
        link_for(a + b, id) == if link_for(b, id) is Some {
            link_for(b, id)
        } else {
            link_for(a, id)
        },
    decreases b.len(),
{
    if b.len() == 0 {
        assert(a + b =~= a);
    } else {
        assert((a + b).drop_last() =~= a + b.drop_last());
        assert((a + b).last() == b.last());
        lemma_link_in_front(a, b.drop_last(), id);
    }
}

/// Where a page and a database carry one id, the link leads to the database.
pub proof fn law_databases_count_before_pages(dirs: Seq<DirView>, k: int, link: LinkView) -> (j: int)
    requires
        0 <= k < dirs.len(),
        link_of(dirs[k].database, dirs[k].dir) == Some(link),
    ensures
        0 <= j < dirs.len(),
        link_of(dirs[j].database, dirs[j].dir) == link_for(link_index(dirs), link.id),
        link_for(link_index(dirs), link.id) is Some,
{
    let pages = links_at(dirs, ordering(file_paths(dirs, false)), false);
    let order = ordering(file_paths(dirs, true));
    let bases = links_at(dirs, order, true);
    law_sorting_is_stable(file_paths(dirs, true), dirs.len());
    assert(order.contains(k));
    lemma_links_complete(dirs, order, true, k, link);
    let i = choose|i: int| 0 <= i < bases.len() && bases[i] == link;
    lemma_link_for(bases, link.id);
    lemma_link_in_front(pages, bases, link.id);
    let found = link_for(bases, link.id)->0;
    let m = choose|m: int| 0 <= m < bases.len() && bases[m] == found;
    let p = lemma_links_sound(dirs, order, true, m);
    order[p]
}

} // verus!
