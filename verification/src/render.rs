//! Rendering of a dumped JSON tree into Markdown pages and CSV database indexes.
//!
//! The Markdown tree mirrors the JSON tree: every node gets an `index.md` (with YAML front matter
//! holding the object's properties), and every database additionally an `_index.csv`. Links between
//! pages are rewritten to relative paths, so that the rendered tree can be navigated by itself.
//!
//! The renderer takes the directories of the JSON tree with what their node files hold, and gives
//! the directories and files to be made, in order.

use vstd::prelude::*;
use vstd::string::*;

use crate::blocks::{blocks_to_md, fragment_md, links, Links, Resolve};
use crate::dump::{copy_path, is_hidden, path_below, path_view, same_path, DATABASE_FILE, PAGE_FILE};
use crate::json::{entry_views, lemma_view, views, Json, JsonView};
use crate::markup::{
    csv_index, csv_of_rows, encode_path, encoded, front_matter, front_matter_text, label_text,
    md_label, relative, relative_path, render_table, row_data, rows_md,
};
use crate::order::{ordering, path_list, positions, sort_order};
use crate::text::{
    cat2, cat3, cat5, components, decimal, holds, in_lower_case, is_absolute, join, joined,
    lower_case, or_default, or_untitled, same, split_path, starts_at_root, texts, to_decimal,
};
use crate::util::{
    database_title, normalize_notion_id, notion_id, page_title, title_of_database, title_of_page,
};

verus! {

/// The names on the way from the root of the tree to a directory.
pub type Path = Seq<Seq<char>>;

/// The rendered file of a node.
pub const INDEX_FILE: &'static str = "index.md";

/// The CSV index of a database.
pub const CSV_FILE: &'static str = "_index.csv";

/// The entry point of the rendered tree.
pub const README_FILE: &'static str = "README.md";

// ---------------------------------------------------------------------------
// The JSON tree
// ---------------------------------------------------------------------------
/// A node file of a directory.
pub enum NodeFile {
    Missing,
    /// There, but not readable as JSON; the message says why.
    Unreadable(String),
    Loaded(Json),
}

/// What a node file holds.
pub enum FileView {
    Missing,
    Unreadable(Seq<char>),
    Loaded(JsonView),
}

impl View for NodeFile {
    type V = FileView;

    open spec fn view(&self) -> FileView {
        match *self {
            NodeFile::Missing => FileView::Missing,
            NodeFile::Unreadable(message) => FileView::Unreadable(message@),
            NodeFile::Loaded(payload) => FileView::Loaded(payload@),
        }
    }
}

/// A directory of the JSON tree, the root and hidden ones among them.
pub struct NodeDir {
    pub dir: Vec<String>,
    pub page: NodeFile,
    pub database: NodeFile,
    /// The page files that the names of rows lead to from here, where a name may lead out of the
    /// directory: one for each of the [`stray_rows`] of the database.
    pub strays: Vec<(String, NodeFile)>,
}

/// What a directory holds.
pub struct DirView {
    pub dir: Path,
    pub page: FileView,
    pub database: FileView,
    pub strays: Seq<(Seq<char>, FileView)>,
}

/// What page files that lie elsewhere hold, by the names that lead there.
pub open spec fn stray_views(strays: Seq<(String, NodeFile)>) -> Seq<(Seq<char>, FileView)> {
    strays.map_values(|s: (String, NodeFile)| (s.0@, s.1@))
}

impl View for NodeDir {
    type V = DirView;

    open spec fn view(&self) -> DirView {
        DirView {
            dir: path_view(self.dir@),
            page: self.page@,
            database: self.database@,
            strays: stray_views(self.strays@),
        }
    }
}

/// What the directories hold.
pub open spec fn dir_views(dirs: Seq<NodeDir>) -> Seq<DirView> {
    dirs.map_values(|d: NodeDir| d@)
}

/// The object in the payload of a node file.
pub open spec fn object_in(payload: JsonView) -> JsonView {
    match payload.get("data"@) {
        Some(data) => data,
        None => JsonView::Null,
    }
}

/// The object in a node file; `null` where it cannot be read.
pub open spec fn object_of(file: FileView) -> JsonView {
    match file {
        FileView::Loaded(payload) => object_in(payload),
        _ => JsonView::Null,
    }
}

/// Whether a directory is rendered: no name on the way to it is hidden.
pub open spec fn is_visible(dir: Path) -> bool {
    forall|i: int| 0 <= i < dir.len() ==> !((#[trigger] dir[i]).len() > 0 && dir[i][0] == '.')
}

// ---------------------------------------------------------------------------
// The link index
// ---------------------------------------------------------------------------
/// Where an object is rendered.
pub struct NodeInfo {
    pub id: String,
    pub dir: Vec<String>,
    pub title: String,
}

/// An entry of the link index.
pub struct LinkView {
    pub id: Seq<char>,
    pub dir: Path,
    pub title: Seq<char>,
}

impl View for NodeInfo {
    type V = LinkView;

    open spec fn view(&self) -> LinkView {
        LinkView { id: self.id@, dir: path_view(self.dir@), title: self.title@ }
    }
}

/// What a link index holds.
pub open spec fn link_views(nodes: Seq<NodeInfo>) -> Seq<LinkView> {
    nodes.map_values(|n: NodeInfo| n@)
}

/// The title of an object that may be a page or a database.
pub open spec fn any_title(data: JsonView) -> Seq<char> {
    or_default(or_default(title_of_page(data), title_of_database(data)), "untitled"@)
}

/// The entry for a node file; nothing where it cannot be read, or its object has no id.
pub open spec fn link_of(file: FileView, dir: Path) -> Option<LinkView> {
    match file {
        FileView::Loaded(payload) => match object_in(payload).text_at("id"@) {
            Some(text) => match notion_id(text) {
                Some(id) => Some(LinkView { id, dir, title: any_title(object_in(payload)) }),
                None => None,
            },
            None => None,
        },
        _ => None,
    }
}

/// The node file of a directory.
pub open spec fn file_of(d: DirView, databases: bool) -> FileView {
    if databases {
        d.database
    } else {
        d.page
    }
}

/// The path of the node file of every directory.
pub open spec fn file_paths(dirs: Seq<DirView>, databases: bool) -> Seq<Path> {
    dirs.map_values(
        |d: DirView|
            d.dir.push(
                if databases {
                    DATABASE_FILE@
                } else {
                    PAGE_FILE@
                },
            ),
    )
}

/// The entries for the node files at the given positions.
pub open spec fn links_at(dirs: Seq<DirView>, order: Seq<int>, databases: bool) -> Seq<LinkView>
    decreases order.len(),
{
    if order.len() == 0 {
        Seq::empty()
    } else {
        let before = links_at(dirs, order.drop_last(), databases);
        let d = dirs[order.last()];
        match link_of(file_of(d, databases), d.dir) {
            Some(link) => before.push(link),
            None => before,
        }
    }
}

/// The link index of a tree: the pages, then the databases, each in the order of their paths.
pub open spec fn link_index(dirs: Seq<DirView>) -> Seq<LinkView> {
    links_at(dirs, ordering(file_paths(dirs, false)), false) + links_at(
        dirs,
        ordering(file_paths(dirs, true)),
        true,
    )
}

/// The entry for an id: the last one.
pub open spec fn link_for(nodes: Seq<LinkView>, id: Seq<char>) -> Option<LinkView>
    decreases nodes.len(),
{
    if nodes.len() == 0 {
        None
    } else if nodes.last().id == id {
        Some(nodes.last())
    } else {
        link_for(nodes.drop_last(), id)
    }
}

/// What the index knows, seen from a directory: the encoded relative path of the rendered file, and
/// the title.
pub open spec fn links_from(nodes: Seq<LinkView>, dir: Path) -> Links {
    |reference: Seq<char>|
        match notion_id(reference) {
            Some(id) => match link_for(nodes, id) {
                Some(link) => Some(
                    (encoded(relative(dir, link.dir.push(INDEX_FILE@))), link.title),
                ),
                None => None,
            },
            None => None,
        }
}

// ---------------------------------------------------------------------------
// Rendered files
// ---------------------------------------------------------------------------
/// What is made of a tree, in order.
pub enum Output {
    /// Remove the rendered tree, and make its root anew.
    Reset,
    /// Make a directory.
    Dir(Vec<String>),
    /// Write a file: its directory, its name, its text.
    File(Vec<String>, String, String),
}

/// What an output says.
pub enum OutputView {
    Reset,
    Dir(Path),
    File(Path, Seq<char>, Seq<char>),
}

impl View for Output {
    type V = OutputView;

    open spec fn view(&self) -> OutputView {
        match *self {
            Output::Reset => OutputView::Reset,
            Output::Dir(dir) => OutputView::Dir(path_view(dir@)),
            Output::File(dir, name, text) => OutputView::File(path_view(dir@), name@, text@),
        }
    }
}

/// What the outputs say.
pub open spec fn output_views(outputs: Seq<Output>) -> Seq<OutputView> {
    outputs.map_values(|o: Output| o@)
}

/// The outcome of a rendering: what is to be made, and where it failed, why.
pub struct Rendering {
    pub outputs: Vec<Output>,
    pub failure: Option<String>,
}

/// What an outcome says.
pub struct RenderView {
    pub outputs: Seq<OutputView>,
    pub failure: Option<Seq<char>>,
}

impl View for Rendering {
    type V = RenderView;

    open spec fn view(&self) -> RenderView {
        RenderView {
            outputs: output_views(self.outputs@),
            failure: match self.failure {
                Some(message) => Some(message@),
                None => None,
            },
        }
    }
}

/// The Markdown of a page.
pub open spec fn page_md(payload: JsonView, known: Links) -> Seq<char> {
    let page = object_in(payload);
    let title = or_default(title_of_page(page), "untitled"@);
    front_matter_text(page, title) + "\n# "@ + title + "\n\n"@ + fragment_md(
        blocks_of(payload),
        0,
        known,
    ) + "\n"@
}

/// The blocks in the payload of a page.
pub open spec fn blocks_of(payload: JsonView) -> Seq<JsonView> {
    match payload.items_at("blocks"@) {
        Some(blocks) => blocks,
        None => Seq::empty(),
    }
}

/// The page node in a directory, if there is one.
pub open spec fn page_in(dirs: Seq<DirView>, dir: Path) -> Option<FileView>
    decreases dirs.len(),
{
    if dirs.len() == 0 {
        None
    } else if dirs[0].dir == dir && !(dirs[0].page is Missing) {
        Some(dirs[0].page)
    } else {
        page_in(dirs.skip(1), dir)
    }
}

/// Whether a name, as a path, leads down only.
pub open spec fn is_straight(name: Seq<char>) -> bool {
    !is_absolute(name) && !components(name).contains(".."@)
}

/// The page that a name leads to by another way, if there is one.
pub open spec fn stray_page(strays: Seq<(Seq<char>, FileView)>, name: Seq<char>) -> Option<FileView>
    decreases strays.len(),
{
    if strays.len() == 0 {
        None
    } else if strays[0].0 == name && !(strays[0].1 is Missing) {
        Some(strays[0].1)
    } else {
        stray_page(strays.skip(1), name)
    }
}

/// The page that the name of a row leads to from the directory of its database, if there is one.
pub open spec fn page_at(dirs: Seq<DirView>, d: DirView, name: Seq<char>) -> Option<FileView> {
    if is_straight(name) {
        page_in(dirs, d.dir + components(name))
    } else {
        stray_page(d.strays, name)
    }
}

/// The names of rows that may lead out of the directory of their database.
pub open spec fn stray_names(order: Seq<JsonView>) -> Seq<Seq<char>>
    decreases order.len(),
{
    if order.len() == 0 {
        Seq::empty()
    } else {
        let before = stray_names(order.drop_last());
        match order.last().text() {
            Some(name) => if is_straight(name) {
                before
            } else {
                before.push(name)
            },
            None => before,
        }
    }
}

/// The rows of a database, in the order given: those whose page is there.
pub open spec fn rows_in(dirs: Seq<DirView>, d: DirView, order: Seq<JsonView>) -> Seq<
    (Seq<char>, JsonView),
>
    decreases order.len(),
{
    if order.len() == 0 {
        Seq::empty()
    } else {
        let before = rows_in(dirs, d, order.drop_last());
        match order.last().text() {
            Some(name) => match page_at(dirs, d, name) {
                Some(file) => before.push((name, object_of(file))),
                None => before,
            },
            None => before,
        }
    }
}

/// The order of the rows in the payload of a database.
pub open spec fn order_of(payload: JsonView) -> Seq<JsonView> {
    match payload.items_at("row_order"@) {
        Some(names) => names,
        None => Seq::empty(),
    }
}

/// The Markdown of a database.
pub open spec fn database_md(payload: JsonView, rows: Seq<(Seq<char>, JsonView)>) -> Seq<char> {
    let db = object_in(payload);
    let title = or_default(title_of_database(db), "untitled-database"@);
    front_matter_text(db, title) + "\n# "@ + title + "\n\n"@ + decimal(rows.len())
        + " rows - full data in [`_index.csv`](_index.csv)."@ + "\n\n"@ + rows_md(rows) + "\n"@
}

/// What is made of the node in a directory; where its file cannot be read, why.
pub open spec fn node_outputs(dirs: Seq<DirView>, d: DirView, nodes: Seq<LinkView>) -> Result<
    Seq<OutputView>,
    Seq<char>,
> {
    match d.page {
        FileView::Loaded(payload) => Ok(
            seq![
                OutputView::File(d.dir, INDEX_FILE@, page_md(payload, links_from(nodes, d.dir))),
            ],
        ),
        FileView::Unreadable(message) => Err(message),
        FileView::Missing => match d.database {
            FileView::Loaded(payload) => {
                let rows = rows_in(dirs, d, order_of(payload));
                Ok(
                    seq![
                        OutputView::File(d.dir, CSV_FILE@, csv_index(row_data(rows))),
                        OutputView::File(d.dir, INDEX_FILE@, database_md(payload, rows)),
                    ],
                )
            },
            FileView::Unreadable(message) => Err(message),
            FileView::Missing => Ok(Seq::empty()),
        },
    }
}

/// What is made of the directories at the given positions, up to the first that fails. The root and
/// hidden directories are passed over.
pub open spec fn outputs_at(dirs: Seq<DirView>, order: Seq<int>, nodes: Seq<LinkView>) -> RenderView
    decreases order.len(),
{
    if order.len() == 0 {
        RenderView { outputs: Seq::empty(), failure: None }
    } else {
        let before = outputs_at(dirs, order.drop_last(), nodes);
        let d = dirs[order.last()];
        if before.failure is Some || d.dir.len() == 0 || !is_visible(d.dir) {
            before
        } else {
            let outputs = before.outputs.push(OutputView::Dir(d.dir));
            match node_outputs(dirs, d, nodes) {
                Ok(files) => RenderView { outputs: outputs + files, failure: None },
                Err(message) => RenderView { outputs, failure: Some(message) },
            }
        }
    }
}

// ---------------------------------------------------------------------------
// The entry point
// ---------------------------------------------------------------------------
/// A line of the entry point: the title, and the line itself.
pub open spec fn readme_entry(d: DirView) -> Option<(Seq<char>, Seq<char>)> {
    let link = encoded(d.dir[0] + "/index.md"@);
    if !(d.page is Missing) {
        let title = or_default(title_of_page(object_of(d.page)), "untitled"@);
        Some((title, readme_line("\u{1F4C4}"@, title, link)))
    } else if !(d.database is Missing) {
        let title = or_default(title_of_database(object_of(d.database)), "untitled-database"@);
        Some((title, readme_line("\u{1F4CA}"@, title, link)))
    } else {
        None
    }
}

/// A link to a root page or database.
pub open spec fn readme_line(icon: Seq<char>, title: Seq<char>, link: Seq<char>) -> Seq<char> {
    "- "@ + icon + " ["@ + label_text(title) + "]("@ + link + ")"@
}

/// The lines for the directories at the given positions that stand right under the root.
pub open spec fn entries_at(dirs: Seq<DirView>, order: Seq<int>) -> Seq<(Seq<char>, Seq<char>)>
    decreases order.len(),
{
    if order.len() == 0 {
        Seq::empty()
    } else {
        let before = entries_at(dirs, order.drop_last());
        let d = dirs[order.last()];
        if d.dir.len() == 1 && is_visible(d.dir) {
            match readme_entry(d) {
                Some(entry) => before.push(entry),
                None => before,
            }
        } else {
            before
        }
    }
}

/// The keys by which the lines are sorted: the titles in lower case.
pub open spec fn entry_keys(entries: Seq<(Seq<char>, Seq<char>)>) -> Seq<Path> {
    entries.map_values(|e: (Seq<char>, Seq<char>)| seq![in_lower_case(e.0)])
}

/// The text of the entry point: a link to every root page and database, sorted by title.
pub open spec fn readme_text(entries: Seq<(Seq<char>, Seq<char>)>) -> Seq<char> {
    let lines = if entries.len() == 0 {
        seq!["_No pages found._"@]
    } else {
        ordering(entry_keys(entries)).map_values(|i: int| entries[i].1)
    };
    joined(
        seq![
            "# Notion backup"@,
            ""@,
            "Markdown render of the Notion workspace. Root pages:"@,
            ""@,
        ] + lines,
        "\n"@,
    ) + "\n"@
}

/// The directories by their paths.
pub open spec fn dir_paths(dirs: Seq<DirView>) -> Seq<Path> {
    dirs.map_values(|d: DirView| d.dir)
}

/// What is made of a tree.
pub open spec fn rendered(dirs: Seq<DirView>, nodes: Seq<LinkView>) -> RenderView {
    let order = ordering(dir_paths(dirs));
    let body = outputs_at(dirs, order, nodes);
    let outputs = seq![OutputView::Reset] + body.outputs;
    match body.failure {
        Some(message) => RenderView { outputs, failure: Some(message) },
        None => RenderView {
            outputs: outputs.push(
                OutputView::File(
                    Seq::empty(),
                    README_FILE@,
                    readme_text(entries_at(dirs, order)),
                ),
            ),
            failure: None,
        },
    }
}

// ---------------------------------------------------------------------------
// The renderer
// ---------------------------------------------------------------------------
/// Takes the object out of the payload of a node file.
fn data_of(payload: &Json) -> (r: Json)
    ensures
        r@ == object_in(payload@),
{
    match payload.get("data") {
        Some(data) => data.duplicate(),
        None => {
            let r = Json::Null;
            proof {
                lemma_view(r);
            }
            r
        },
    }
}

/// Takes the object out of a node file.
fn node_data(file: &NodeFile) -> (r: Json)
    ensures
        r@ == object_of(file@),
{
    match file {
        NodeFile::Loaded(payload) => data_of(payload),
        _ => {
            let r = Json::Null;
            proof {
                lemma_view(r);
            }
            r
        },
    }
}

fn is_shown(dir: &Vec<String>) -> (r: bool)
    ensures
        r == is_visible(path_view(dir@)),
{
    let ghost path = path_view(dir@);
    let mut i: usize = 0;
    while i < dir.len()
        invariant
            i <= dir@.len(),
            path == path_view(dir@),
            forall|j: int|
                0 <= j < i ==> !((#[trigger] path[j]).len() > 0 && path[j][0] == '.'),
        decreases dir@.len() - i,
    {
        assert(path[i as int] == dir@[i as int]@);
        if is_hidden(&dir[i]) {
            return false;
        }
        i += 1;
    }
    true
}

fn link_to(file: &NodeFile, dir: &Vec<String>) -> (r: Option<NodeInfo>)
    ensures
        match r {
            Some(info) => link_of(file@, path_view(dir@)) == Some(info@),
            None => link_of(file@, path_view(dir@)) is None,
        },
{
    let payload: &Json = match file {
        NodeFile::Loaded(payload) => payload,
        _ => {
            return None;
        },
    };
    let data: Json = data_of(payload);
    match normalize_notion_id(data.text_at("id")) {
        Some(id) => {
            let title: String = page_title(&data);
            let title: String = if title.as_str().is_empty() {
                database_title(&data)
            } else {
                title
            };
            Some(NodeInfo { id, dir: copy_path(dir), title: or_untitled(title, "untitled") })
        },
        None => None,
    }
}

/// The positions of the node files, in the order of their paths.
fn file_order(dirs: &Vec<NodeDir>, databases: bool) -> (r: Vec<usize>)
    ensures
        positions(r@) == ordering(file_paths(dir_views(dirs@), databases)),
        r@.len() == dirs@.len(),
        forall|i: int| 0 <= i < r@.len() ==> (#[trigger] r@[i]) < dirs@.len(),
{
    let ghost wanted = file_paths(dir_views(dirs@), databases);
    let mut keys: Vec<Vec<String>> = Vec::new();
    let mut i: usize = 0;
    while i < dirs.len()
        invariant
            i <= dirs@.len(),
            keys@.len() == i,
            wanted == file_paths(dir_views(dirs@), databases),
            forall|j: int| 0 <= j < i ==> texts((#[trigger] keys@[j])@) == wanted[j],
        decreases dirs@.len() - i,
    {
        let mut key: Vec<String> = copy_path(&dirs[i].dir);
        let ghost before = texts(key@);
        let name: &str = if databases {
            DATABASE_FILE
        } else {
            PAGE_FILE
        };
        key.push(name.to_owned());
        assert(texts(key@) =~= before.push(name@));
        assert(dir_views(dirs@)[i as int] == dirs@[i as int]@);
        keys.push(key);
        i += 1;
    }
    assert(path_list(keys@) =~= wanted);
    sort_order(&keys)
}

/// The positions of the directories, in the order of their paths.
fn dir_order(dirs: &Vec<NodeDir>) -> (r: Vec<usize>)
    ensures
        positions(r@) == ordering(dir_paths(dir_views(dirs@))),
        r@.len() == dirs@.len(),
        forall|i: int| 0 <= i < r@.len() ==> (#[trigger] r@[i]) < dirs@.len(),
{
    let ghost wanted = dir_paths(dir_views(dirs@));
    let mut keys: Vec<Vec<String>> = Vec::new();
    let mut i: usize = 0;
    while i < dirs.len()
        invariant
            i <= dirs@.len(),
            keys@.len() == i,
            wanted == dir_paths(dir_views(dirs@)),
            forall|j: int| 0 <= j < i ==> texts((#[trigger] keys@[j])@) == wanted[j],
        decreases dirs@.len() - i,
    {
        assert(dir_views(dirs@)[i as int] == dirs@[i as int]@);
        keys.push(copy_path(&dirs[i].dir));
        i += 1;
    }
    assert(path_list(keys@) =~= wanted);
    sort_order(&keys)
}

/// The entries for the node files of one kind.
fn index_files(dirs: &Vec<NodeDir>, databases: bool) -> (r: Vec<NodeInfo>)
    ensures
        link_views(r@) == links_at(
            dir_views(dirs@),
            ordering(file_paths(dir_views(dirs@), databases)),
            databases,
        ),
{
    let ghost all = dir_views(dirs@);
    let order: Vec<usize> = file_order(dirs, databases);
    let ghost places = positions(order@);
    let mut out: Vec<NodeInfo> = Vec::new();
    let mut i: usize = 0;
    assert(link_views(out@) =~= links_at(all, places.take(0), databases));
    while i < order.len()
        invariant
            i <= order@.len(),
            all == dir_views(dirs@),
            places == positions(order@),
            forall|j: int| 0 <= j < order@.len() ==> (#[trigger] order@[j]) < dirs@.len(),
            link_views(out@) == links_at(all, places.take(i as int), databases),
        decreases order@.len() - i,
    {
        let ghost before = link_views(out@);
        let at: usize = order[i];
        proof {
            let grown = places.take(i + 1);
            assert(grown.drop_last() =~= places.take(i as int));
            assert(grown.last() == at as int);
            assert(all[at as int] == dirs@[at as int]@);
        }
        let file: &NodeFile = if databases {
            &dirs[at].database
        } else {
            &dirs[at].page
        };
        if let Some(info) = link_to(file, &dirs[at].dir) {
            let ghost l = info@;
            out.push(info);
            assert(link_views(out@) =~= before.push(l));
        }
        i += 1;
    }
    assert(places.take(i as int) =~= places);
    out
}

/// Finds rendered files, seen from a directory.
pub struct NodeResolver<'a> {
    pub nodes: &'a Vec<NodeInfo>,
    pub dir: &'a Vec<String>,
}

impl<'a> Resolve for NodeResolver<'a> {
    open spec fn target(&self, reference: Seq<char>) -> Option<(Seq<char>, Seq<char>)> {
        links_from(link_views(self.nodes@), path_view(self.dir@))(reference)
    }

    fn resolve(&self, reference: &str) -> (r: Option<(String, String)>) {
        let id: String = match normalize_notion_id(Some(reference)) {
            Some(id) => id,
            None => {
                return None;
            },
        };
        let ghost all = link_views(self.nodes@);
        let mut i: usize = self.nodes.len();
        assert(all.take(i as int) =~= all);
        while i > 0
            invariant
                i <= self.nodes@.len(),
                all == link_views(self.nodes@),
                notion_id(reference@) == Some(id@),
                link_for(all, id@) == link_for(all.take(i as int), id@),
            decreases i,
        {
            proof {
                let part = all.take(i as int);
                assert(part.last() == self.nodes@[i - 1]@);
                assert(part.drop_last() =~= all.take(i - 1));
            }
            i -= 1;
            if same(&self.nodes[i].id, &id) {
                let mut target: Vec<String> = copy_path(&self.nodes[i].dir);
                let ghost before = texts(target@);
                target.push(INDEX_FILE.to_owned());
                assert(texts(target@) =~= before.push(INDEX_FILE@));
                let url: String = encode_path(&relative_path(self.dir, &target));
                return Some((url, self.nodes[i].title.clone()));
            }
        }
        None
    }
}

fn find_page<'a>(dirs: &'a Vec<NodeDir>, dir: &Vec<String>) -> (r: Option<&'a NodeFile>)
    ensures
        match r {
            Some(file) => page_in(dir_views(dirs@), path_view(dir@)) == Some(file@),
            None => page_in(dir_views(dirs@), path_view(dir@)) is None,
        },
{
    let ghost all = dir_views(dirs@);
    let ghost path = path_view(dir@);
    let mut i: usize = 0;
    assert(all.skip(0) =~= all);
    while i < dirs.len()
        invariant
            i <= dirs@.len(),
            all == dir_views(dirs@),
            path == path_view(dir@),
            page_in(all, path) == page_in(all.skip(i as int), path),
        decreases dirs@.len() - i,
    {
        assert(all.skip(i as int)[0] == dirs@[i as int]@);
        assert(all.skip(i as int).skip(1) =~= all.skip(i + 1));
        let there: bool = match dirs[i].page {
            NodeFile::Missing => false,
            _ => true,
        };
        if there && same_path(&dirs[i].dir, dir) {
            return Some(&dirs[i].page);
        }
        i += 1;
    }
    None
}

fn leads_down(name: &str) -> (r: bool)
    ensures
        r == is_straight(name@),
{
    if starts_at_root(name) {
        return false;
    }
    let names: Vec<String> = split_path(name);
    let up: bool = holds(&names, "..");
    !up
}

fn find_stray<'a>(strays: &'a Vec<(String, NodeFile)>, name: &str) -> (r: Option<&'a NodeFile>)
    ensures
        match r {
            Some(file) => stray_page(stray_views(strays@), name@) == Some(file@),
            None => stray_page(stray_views(strays@), name@) is None,
        },
{
    let ghost all = stray_views(strays@);
    let mut i: usize = 0;
    assert(all.skip(0) =~= all);
    while i < strays.len()
        invariant
            i <= strays@.len(),
            all == stray_views(strays@),
            stray_page(all, name@) == stray_page(all.skip(i as int), name@),
        decreases strays@.len() - i,
    {
        assert(all.skip(i as int)[0] == (strays@[i as int].0@, strays@[i as int].1@));
        assert(all.skip(i as int).skip(1) =~= all.skip(i + 1));
        let there: bool = match strays[i].1 {
            NodeFile::Missing => false,
            _ => true,
        };
        if there && same(&strays[i].0, name) {
            return Some(&strays[i].1);
        }
        i += 1;
    }
    None
}

fn find_row<'a>(dirs: &'a Vec<NodeDir>, d: &'a NodeDir, name: &str) -> (r: Option<&'a NodeFile>)
    ensures
        match r {
            Some(file) => page_at(dir_views(dirs@), d@, name@) == Some(file@),
            None => page_at(dir_views(dirs@), d@, name@) is None,
        },
{
    if leads_down(name) {
        find_page(dirs, &path_below(&d.dir, name))
    } else {
        find_stray(&d.strays, name)
    }
}

/// The names of rows, in the payload of a database, that may lead out of its directory.
pub fn stray_rows(payload: &Json) -> (r: Vec<String>)
    ensures
        texts(r@) == stray_names(order_of(payload@)),
{
    let mut out: Vec<String> = Vec::new();
    assert(texts(out@) =~= Seq::empty());
    if let Some(names) = payload.items_at("row_order") {
        let ghost list = views(names@);
        let mut i: usize = 0;
        while i < names.len()
            invariant
                i <= names@.len(),
                list == views(names@),
                texts(out@) == stray_names(list.take(i as int)),
            decreases names@.len() - i,
        {
            let ghost before = texts(out@);
            proof {
                let grown = list.take(i + 1);
                assert(grown.drop_last() =~= list.take(i as int));
                assert(grown.last() == names@[i as int]@);
            }
            if let Some(name) = names[i].as_str() {
                if !leads_down(name) {
                    out.push(name.to_owned());
                    assert(texts(out@) =~= before.push(name@));
                }
            }
            i += 1;
        }
        assert(list.take(i as int) =~= list);
    }
    out
}

fn rows_of(dirs: &Vec<NodeDir>, d: &NodeDir, payload: &Json) -> (r: Vec<(String, Json)>)
    ensures
        entry_views(r@) == rows_in(dir_views(dirs@), d@, order_of(payload@)),
{
    let ghost all = dir_views(dirs@);
    let mut out: Vec<(String, Json)> = Vec::new();
    assert(entry_views(out@) =~= Seq::empty());
    if let Some(names) = payload.items_at("row_order") {
        let ghost list = views(names@);
        let mut i: usize = 0;
        while i < names.len()
            invariant
                i <= names@.len(),
                list == views(names@),
                all == dir_views(dirs@),
                entry_views(out@) == rows_in(all, d@, list.take(i as int)),
            decreases names@.len() - i,
        {
            let ghost before = entry_views(out@);
            proof {
                let grown = list.take(i + 1);
                assert(grown.drop_last() =~= list.take(i as int));
                assert(grown.last() == names@[i as int]@);
            }
            if let Some(name) = names[i].as_str() {
                if let Some(file) = find_row(dirs, d, name) {
                    let data: Json = node_data(file);
                    let ghost d = data@;
                    out.push((name.to_owned(), data));
                    assert(entry_views(out@) =~= before.push((name@, d)));
                }
            }
            i += 1;
        }
        assert(list.take(i as int) =~= list);
    }
    out
}

fn page_text(payload: &Json, nodes: &Vec<NodeInfo>, dir: &Vec<String>) -> (r: String)
    ensures
        r@ == page_md(payload@, links_from(link_views(nodes@), path_view(dir@))),
{
    let page: Json = data_of(payload);
    let title: String = or_untitled(page_title(&page), "untitled");
    let resolver = NodeResolver { nodes, dir };
    assert(links(Some(&resolver)) =~= links_from(link_views(nodes@), path_view(dir@)));
    let none: Vec<Json> = Vec::new();
    assert(views(none@) =~= Seq::empty());
    let blocks: &Vec<Json> = match payload.items_at("blocks") {
        Some(blocks) => blocks,
        None => &none,
    };
    let body: String = blocks_to_md(blocks, 0, Some(&resolver));
    let mut out: String = cat5(&front_matter(&page, &title), "\n# ", &title, "\n\n", &body);
    out.append("\n");
    out
}

fn database_text(payload: &Json, rows: &Vec<(String, Json)>) -> (r: String)
    ensures
        r@ == database_md(payload@, entry_views(rows@)),
{
    let db: Json = data_of(payload);
    let title: String = or_untitled(database_title(&db), "untitled-database");
    let mut out: String = cat5(
        &front_matter(&db, &title),
        "\n# ",
        &title,
        "\n\n",
        &to_decimal(rows.len()),
    );
    out.append(" rows - full data in [`_index.csv`](_index.csv).");
    out.append("\n\n");
    out.append(&render_table(rows));
    out.append("\n");
    out
}

/// The outputs for the node in a directory.
fn render_node(dirs: &Vec<NodeDir>, at: usize, nodes: &Vec<NodeInfo>) -> (r: Result<
    Vec<Output>,
    String,
>)
    requires
        at < dirs@.len(),
    ensures
        match r {
            Ok(files) => node_outputs(dir_views(dirs@), dirs@[at as int]@, link_views(nodes@))
                == Ok::<Seq<OutputView>, Seq<char>>(output_views(files@)),
            Err(message) => node_outputs(dir_views(dirs@), dirs@[at as int]@, link_views(nodes@))
                == Err::<Seq<OutputView>, Seq<char>>(message@),
        },
{
    let d: &NodeDir = &dirs[at];
    let mut out: Vec<Output> = Vec::new();
    match &d.page {
        NodeFile::Loaded(payload) => {
            let text: String = page_text(payload, nodes, &d.dir);
            let ghost t = text@;
            out.push(Output::File(copy_path(&d.dir), INDEX_FILE.to_owned(), text));
            assert(output_views(out@) =~= seq![OutputView::File(d@.dir, INDEX_FILE@, t)]);
            Ok(out)
        },
        NodeFile::Unreadable(message) => Err(message.clone()),
        NodeFile::Missing => match &d.database {
            NodeFile::Loaded(payload) => {
                let rows: Vec<(String, Json)> = rows_of(dirs, d, payload);
                let csv: String = csv_of_rows(&rows);
                let text: String = database_text(payload, &rows);
                let ghost c = csv@;
                let ghost t = text@;
                out.push(Output::File(copy_path(&d.dir), CSV_FILE.to_owned(), csv));
                out.push(Output::File(copy_path(&d.dir), INDEX_FILE.to_owned(), text));
                assert(output_views(out@) =~= seq![
                    OutputView::File(d@.dir, CSV_FILE@, c),
                    OutputView::File(d@.dir, INDEX_FILE@, t),
                ]);
                Ok(out)
            },
            NodeFile::Unreadable(message) => Err(message.clone()),
            NodeFile::Missing => {
                assert(output_views(out@) =~= Seq::empty());
                Ok(out)
            },
        },
    }
}

/// The outputs for all directories, up to the first that fails.
fn render_dirs(dirs: &Vec<NodeDir>, order: &Vec<usize>, nodes: &Vec<NodeInfo>) -> (r: Rendering)
    requires
        forall|i: int| 0 <= i < order@.len() ==> (#[trigger] order@[i]) < dirs@.len(),
    ensures
        r@ == outputs_at(dir_views(dirs@), positions(order@), link_views(nodes@)),
{
    let ghost all = dir_views(dirs@);
    let ghost places = positions(order@);
    let ghost known = link_views(nodes@);
    let mut outputs: Vec<Output> = Vec::new();
    let mut i: usize = 0;
    assert(output_views(outputs@) =~= outputs_at(all, places.take(0), known).outputs);
    while i < order.len()
        invariant
            i <= order@.len(),
            all == dir_views(dirs@),
            places == positions(order@),
            known == link_views(nodes@),
            forall|j: int| 0 <= j < order@.len() ==> (#[trigger] order@[j]) < dirs@.len(),
            outputs_at(all, places.take(i as int), known) == (RenderView {
                outputs: output_views(outputs@),
                failure: None,
            }),
        decreases order@.len() - i,
    {
        let ghost before = output_views(outputs@);
        let at: usize = order[i];
        proof {
            let grown = places.take(i + 1);
            assert(grown.drop_last() =~= places.take(i as int));
            assert(grown.last() == at as int);
            assert(all[at as int] == dirs@[at as int]@);
            assert(dirs@[at as int]@.dir.len() == dirs@[at as int].dir@.len());
        }
        if dirs[at].dir.len() > 0 && is_shown(&dirs[at].dir) {
            outputs.push(Output::Dir(copy_path(&dirs[at].dir)));
            let ghost with_dir = before.push(OutputView::Dir(all[at as int].dir));
            assert(output_views(outputs@) =~= with_dir);
            match render_node(dirs, at, nodes) {
                Ok(files) => {
                    let mut files: Vec<Output> = files;
                    let ghost f = output_views(files@);
                    outputs.append(&mut files);
                    assert(output_views(outputs@) =~= with_dir + f);
                },
                Err(message) => {
                    proof {
                        lemma_failure_stays(all, places, known, i + 1);
                    }
                    return Rendering { outputs, failure: Some(message) };
                },
            }
        }
        i += 1;
    }
    assert(places.take(i as int) =~= places);
    Rendering { outputs, failure: None }
}

proof fn lemma_failure_stays(
    dirs: Seq<DirView>,
    order: Seq<int>,
    nodes: Seq<LinkView>,
    i: int,
)
    requires
        0 <= i <= order.len(),
        outputs_at(dirs, order.take(i), nodes).failure is Some,
    ensures
        outputs_at(dirs, order, nodes) == outputs_at(dirs, order.take(i), nodes),
    decreases order.len() - i,
{
    if i == order.len() {
        assert(order.take(i) =~= order);
    } else {
        let grown = order.take(i + 1);
        assert(grown.drop_last() =~= order.take(i));
        lemma_failure_stays(dirs, order, nodes, i + 1);
    }
}

fn readme_of(d: &NodeDir) -> (r: Option<(String, String)>)
    requires
        d@.dir.len() > 0,
    ensures
        match r {
            Some((title, line)) => readme_entry(d@) == Some((title@, line@)),
            None => readme_entry(d@) is None,
        },
{
    assert(d@.dir[0] == d.dir@[0]@);
    let link: String = encode_path(&cat2(&d.dir[0], "/index.md"));
    let is_page: bool = match d.page {
        NodeFile::Missing => false,
        _ => true,
    };
    let is_database: bool = match d.database {
        NodeFile::Missing => false,
        _ => true,
    };
    if is_page {
        let title: String = or_untitled(page_title(&node_data(&d.page)), "untitled");
        let line: String = line_of("\u{1F4C4}", &title, &link);
        Some((title, line))
    } else if is_database {
        let title: String = or_untitled(
            database_title(&node_data(&d.database)),
            "untitled-database",
        );
        let line: String = line_of("\u{1F4CA}", &title, &link);
        Some((title, line))
    } else {
        None
    }
}

fn line_of(icon: &str, title: &str, link: &str) -> (r: String)
    ensures
        r@ == readme_line(icon@, title@, link@),
{
    let mut out: String = cat5("- ", icon, " [", &md_label(title), "](");
    out.append(link);
    out.append(")");
    out
}

/// What a list of titles and lines holds.
pub open spec fn line_views(list: Seq<(String, String)>) -> Seq<(Seq<char>, Seq<char>)> {
    list.map_values(|e: (String, String)| (e.0@, e.1@))
}

fn readme_entries(dirs: &Vec<NodeDir>, order: &Vec<usize>) -> (r: Vec<(String, String)>)
    requires
        forall|i: int| 0 <= i < order@.len() ==> (#[trigger] order@[i]) < dirs@.len(),
    ensures
        line_views(r@) == entries_at(dir_views(dirs@), positions(order@)),
{
    let ghost all = dir_views(dirs@);
    let ghost places = positions(order@);
    let mut out: Vec<(String, String)> = Vec::new();
    let mut i: usize = 0;
    assert(line_views(out@) =~= entries_at(all, places.take(0)));
    while i < order.len()
        invariant
            i <= order@.len(),
            all == dir_views(dirs@),
            places == positions(order@),
            forall|j: int| 0 <= j < order@.len() ==> (#[trigger] order@[j]) < dirs@.len(),
            line_views(out@) == entries_at(all, places.take(i as int)),
        decreases order@.len() - i,
    {
        let ghost before = line_views(out@);
        let at: usize = order[i];
        proof {
            let grown = places.take(i + 1);
            assert(grown.drop_last() =~= places.take(i as int));
            assert(grown.last() == at as int);
            assert(all[at as int] == dirs@[at as int]@);
            assert(dirs@[at as int]@.dir.len() == dirs@[at as int].dir@.len());
        }
        if dirs[at].dir.len() == 1 && is_shown(&dirs[at].dir) {
            if let Some(entry) = readme_of(&dirs[at]) {
                let ghost e = (entry.0@, entry.1@);
                out.push(entry);
                assert(line_views(out@) =~= before.push(e));
            }
        }
        i += 1;
    }
    assert(places.take(i as int) =~= places);
    out
}

/// The text of the entry point.
fn readme(entries: &Vec<(String, String)>) -> (r: String)
    ensures
        r@ == readme_text(line_views(entries@)),
{
    let ghost all = line_views(entries@);
    let mut lines: Vec<String> = Vec::new();
    lines.push("# Notion backup".to_owned());
    lines.push("".to_owned());
    lines.push("Markdown render of the Notion workspace. Root pages:".to_owned());
    lines.push("".to_owned());
    let ghost top = seq![
        "# Notion backup"@,
        ""@,
        "Markdown render of the Notion workspace. Root pages:"@,
        ""@,
    ];
    assert(texts(lines@) =~= top);
    if entries.len() == 0 {
        lines.push("_No pages found._".to_owned());
        assert(texts(lines@) =~= top + seq!["_No pages found._"@]);
    } else {
        let order: Vec<usize> = title_order(entries);
        let ghost wanted = ordering(entry_keys(all)).map_values(|i: int| all[i].1);
        let mut i: usize = 0;
        assert(texts(lines@) =~= top + wanted.take(0));
        while i < order.len()
            invariant
                i <= order@.len(),
                all == line_views(entries@),
                positions(order@) == ordering(entry_keys(all)),
                wanted == ordering(entry_keys(all)).map_values(|i: int| all[i].1),
                forall|j: int| 0 <= j < order@.len() ==> (#[trigger] order@[j]) < entries@.len(),
                texts(lines@) == top + wanted.take(i as int),
            decreases order@.len() - i,
        {
            let ghost before = texts(lines@);
            let at: usize = order[i];
            lines.push(entries[at].1.clone());
            proof {
                assert(positions(order@)[i as int] == at as int);
                assert(wanted[i as int] == all[at as int].1);
                assert(texts(lines@) =~= before.push(wanted[i as int]));
                assert(top + wanted.take(i + 1) =~= before.push(wanted[i as int]));
            }
            i += 1;
        }
        assert(wanted.take(i as int) =~= wanted) by {
            assert(positions(order@).len() == order@.len());
        }
    }
    cat2(&join(&lines, "\n"), "\n")
}

/// The positions of the entries, sorted by title without regard to case.
fn title_order(entries: &Vec<(String, String)>) -> (r: Vec<usize>)
    ensures
        positions(r@) == ordering(entry_keys(line_views(entries@))),
        forall|i: int| 0 <= i < r@.len() ==> (#[trigger] r@[i]) < entries@.len(),
{
    let ghost wanted = entry_keys(line_views(entries@));
    let mut keys: Vec<Vec<String>> = Vec::new();
    let mut i: usize = 0;
    while i < entries.len()
        invariant
            i <= entries@.len(),
            keys@.len() == i,
            wanted == entry_keys(line_views(entries@)),
            forall|j: int| 0 <= j < i ==> texts((#[trigger] keys@[j])@) == wanted[j],
        decreases entries@.len() - i,
    {
        let mut key: Vec<String> = Vec::new();
        key.push(lower_case(&entries[i].0));
        assert(texts(key@) =~= seq![in_lower_case(entries@[i as int].0@)]);
        assert(line_views(entries@)[i as int].0 == entries@[i as int].0@);
        keys.push(key);
        i += 1;
    }
    assert(path_list(keys@) =~= wanted);
    sort_order(&keys)
}

/// Turns a JSON tree into a Markdown/CSV mirror.
pub struct MarkdownRenderer {
    json_dir: String,
    markdown_dir: String,
    nodes: Vec<NodeInfo>,
}

impl MarkdownRenderer {
    /// Where the JSON tree is.
    pub closed spec fn spec_json_dir(&self) -> Seq<char> {
        self.json_dir@
    }

    /// Where the Markdown tree goes.
    pub closed spec fn spec_markdown_dir(&self) -> Seq<char> {
        self.markdown_dir@
    }

    /// The link index so far.
    pub closed spec fn spec_nodes(&self) -> Seq<LinkView> {
        link_views(self.nodes@)
    }

    /// A renderer that knows no node yet.
    pub fn new(json_dir: String, markdown_dir: String) -> (r: MarkdownRenderer)
        ensures
            r.spec_json_dir() == json_dir@,
            r.spec_markdown_dir() == markdown_dir@,
            r.spec_nodes() == Seq::<LinkView>::empty(),
    {
        let r = MarkdownRenderer { json_dir, markdown_dir, nodes: Vec::new() };
        assert(r.spec_nodes() =~= Seq::<LinkView>::empty());
        r
    }

    /// Where the JSON tree is.
    pub fn json_dir(&self) -> (r: &str)
        ensures
            r@ == self.spec_json_dir(),
    {
        self.json_dir.as_str()
    }

    /// Where the Markdown tree goes.
    pub fn markdown_dir(&self) -> (r: &str)
        ensures
            r@ == self.spec_markdown_dir(),
    {
        self.markdown_dir.as_str()
    }

    /// Maps every object id to where its `index.md` will live, so that links between pages can be
    /// resolved to relative paths.
    fn build_index(&mut self, dirs: &Vec<NodeDir>)
        ensures
            final(self).spec_json_dir() == old(self).spec_json_dir(),
            final(self).spec_markdown_dir() == old(self).spec_markdown_dir(),
            final(self).spec_nodes() == old(self).spec_nodes() + link_index(dir_views(dirs@)),
    {
        let ghost before = self.spec_nodes();
        let mut pages: Vec<NodeInfo> = index_files(dirs, false);
        let mut databases: Vec<NodeInfo> = index_files(dirs, true);
        let ghost a = link_views(pages@);
        let ghost b = link_views(databases@);
        self.nodes.append(&mut pages);
        self.nodes.append(&mut databases);
        assert(self.spec_nodes() =~= before + (a + b));
    }

    /// Renders a tree. There is none where nothing was dumped: then the rendering fails. It fails
    /// too, with the outputs up to there, at the first node file that cannot be read.
    pub fn run(&mut self, tree: Option<&Vec<NodeDir>>) -> (r: Rendering)
        ensures
            final(self).spec_json_dir() == old(self).spec_json_dir(),
            final(self).spec_markdown_dir() == old(self).spec_markdown_dir(),
            match tree {
                Some(dirs) => {
                    &&& final(self).spec_nodes() == old(self).spec_nodes() + link_index(
                        dir_views(dirs@),
                    )
                    &&& r@ == rendered(dir_views(dirs@), final(self).spec_nodes())
                },
                None => {
                    &&& final(self).spec_nodes() == old(self).spec_nodes()
                    &&& r@ == (RenderView {
                        outputs: Seq::empty(),
                        failure: Some(missing_tree(old(self).spec_json_dir())),
                    })
                },
            },
    {
        let dirs: &Vec<NodeDir> = match tree {
            Some(dirs) => dirs,
            None => {
                let outputs: Vec<Output> = Vec::new();
                assert(output_views(outputs@) =~= Seq::empty());
                let message: String = cat3(
                    "No JSON tree at ",
                    &self.json_dir,
                    "; run the dump stage first.",
                );
                return Rendering { outputs, failure: Some(message) };
            },
        };
        self.build_index(dirs);
        let order: Vec<usize> = dir_order(dirs);
        let body: Rendering = render_dirs(dirs, &order, &self.nodes);
        let mut outputs: Vec<Output> = Vec::new();
        let mut rest: Vec<Output> = body.outputs;
        let ghost b = output_views(rest@);
        outputs.push(Output::Reset);
        outputs.append(&mut rest);
        assert(output_views(outputs@) =~= seq![OutputView::Reset] + b);
        if let Some(message) = body.failure {
            return Rendering { outputs, failure: Some(message) };
        }
        let text: String = readme(&readme_entries(dirs, &order));
        let root: Vec<String> = Vec::new();
        assert(path_view(root@) =~= Seq::empty());
        let ghost t = text@;
        let ghost so_far = output_views(outputs@);
        outputs.push(Output::File(root, README_FILE.to_owned(), text));
        assert(output_views(outputs@) =~= so_far.push(
            OutputView::File(Seq::empty(), README_FILE@, t),
        ));
        Rendering { outputs, failure: None }
    }
}

/// What is said where there is no tree.
pub open spec fn missing_tree(json_dir: Seq<char>) -> Seq<char> {
    "No JSON tree at "@ + json_dir + "; run the dump stage first."@
}

} // verus!
