//! The raw JSON tree: names of its nodes, what is written into them, and what is read back.
//!
//! Every page and database is written as the JSON returned by the API, less the fields that change
//! on every fetch. The directory tree mirrors the Notion hierarchy; every node directory is named
//! `<id>-<slug>`:
//!
//! ```text
//! <id>-<Page Slug>/
//!     page.json               # {"object": "page", "data": <page>, "blocks": [...]}
//!     <id>-<Child Page>/page.json
//! <id>-<Database Slug>/
//!     database.json           # {"object": "database", "data": <db>, "row_order": [...]}
//!     <id>-<Row Slug>/page.json   # each row is a page node (properties + body)
//! ```

use vstd::prelude::*;
use vstd::string::*;

use crate::json::{
    distinct_keys, entry_views, indented, integers_only, lemma_field_smaller, lemma_item_smaller,
    lemma_put_all_distinct, lemma_view, lookup, nested_within, parsed, put, put_all, views, Fields,
    Json, JsonView,
};
use crate::text::{
    cat2, cat3, cat5, chars_of, components, decimal, is_absolute, or_empty, same, split_path,
    starts_at_root, text_between, texts, to_decimal, trim, trimmed, Edge,
};
use crate::util::{slug, slugify};

verus! {

/// The file of a page node.
pub const PAGE_FILE: &'static str = "page.json";

/// The file of a database node.
pub const DATABASE_FILE: &'static str = "database.json";

// ---------------------------------------------------------------------------
// Volatile fields
// ---------------------------------------------------------------------------
/// Whether an object is a Notion-hosted file: it has a URL that expires.
pub open spec fn is_signed_file(fields: Seq<(Seq<char>, JsonView)>) -> bool {
    lookup(fields, "url"@) is Some && lookup(fields, "expiry_time"@) is Some
}

/// Whether a field changes on every fetch.
pub open spec fn is_volatile(key: Seq<char>, signed: bool) -> bool {
    key == "request_id"@ || signed && (key == "url"@ || key == "expiry_time"@)
}

/// A value without the fields that change on every fetch.
pub open spec fn sanitized(value: JsonView) -> JsonView
    decreases value,
{
    match value {
        JsonView::Object(fields) => JsonView::Object(
            sanitized_fields(fields, is_signed_file(fields)),
        ),
        JsonView::Array(items) => JsonView::Array(sanitized_items(items)),
        other => other,
    }
}

/// The fields that stay, each sanitized.
pub open spec fn sanitized_fields(fields: Seq<(Seq<char>, JsonView)>, signed: bool) -> Seq<
    (Seq<char>, JsonView),
>
    decreases fields,
{
    if fields.len() == 0 {
        Seq::empty()
    } else {
        let before = sanitized_fields(fields.drop_last(), signed);
        let (key, value) = fields.last();
        if is_volatile(key, signed) {
            before
        } else {
            before.push((key, sanitized(value)))
        }
    }
}

/// The items, each sanitized.
pub open spec fn sanitized_items(items: Seq<JsonView>) -> Seq<JsonView>
    decreases items,
{
    if items.len() == 0 {
        Seq::empty()
    } else {
        sanitized_items(items.drop_last()).push(sanitized(items.last()))
    }
}

/// The fields that stay are among the fields there were, in their order.
proof fn lemma_sanitized_keys(fields: Seq<(Seq<char>, JsonView)>, signed: bool)
    requires
        distinct_keys(fields),
    ensures
        distinct_keys(sanitized_fields(fields, signed)),
        forall|i: int|
            #![trigger sanitized_fields(fields, signed)[i]]
            0 <= i < sanitized_fields(fields, signed).len() ==> exists|j: int|
                0 <= j < fields.len() && (#[trigger] fields[j]).0 == sanitized_fields(
                    fields,
                    signed,
                )[i].0,
    decreases fields.len(),
{
    if fields.len() > 0 {
        let front = fields.drop_last();
        let out = sanitized_fields(fields, signed);
        let kept = sanitized_fields(front, signed);
        assert forall|i: int, j: int| 0 <= i < j < front.len() implies (#[trigger] front[i]).0 != (
        #[trigger] front[j]).0 by {
            assert(front[i] == fields[i] && front[j] == fields[j]);
        }
        lemma_sanitized_keys(front, signed);
        assert forall|i: int| 0 <= i < out.len() implies exists|j: int|
            0 <= j < fields.len() && (#[trigger] fields[j]).0 == (#[trigger] out[i]).0 by {
            if i < kept.len() {
                assert(out[i] == kept[i]);
                let j = choose|j: int| 0 <= j < front.len() && (#[trigger] front[j]).0 == kept[i].0;
                assert(fields[j] == front[j]);
            } else {
                assert(out[i].0 == fields[fields.len() - 1].0);
            }
        }
        assert forall|i: int, j: int| 0 <= i < j < out.len() implies (#[trigger] out[i]).0 != (
        #[trigger] out[j]).0 by {
            assert(out[i] == kept[i]);
            if j < kept.len() {
                assert(out[j] == kept[j]);
            } else {
                let k = choose|k: int| 0 <= k < front.len() && (#[trigger] front[k]).0 == kept[i].0;
                assert(front[k] == fields[k]);
                assert(fields[k].0 != fields[fields.len() - 1].0);
            }
        }
    }
}

/// Strips fields that change on every fetch, so that unchanged pages do not churn.
///
/// Removed: the API `request_id` envelope (wherever it is), and the signed `url` and `expiry_time`
/// of Notion-hosted file objects (which always carry both). Stable `external` URLs and page
/// permalinks have no `expiry_time` beside them and stay.
pub fn sanitize(value: Json) -> (r: Json)
    ensures
        r@ == sanitized(value@),
    decreases value@,
{
    let ghost whole = value@;
    proof {
        lemma_view(value);
    }
    match value {
        Json::Object(fields) => {
            let signed: bool = fields.get("url").is_some() && fields.get("expiry_time").is_some();
            let ghost source = fields@;
            let pairs: Vec<(String, Json)> = fields.into_pairs();
            let ghost all = pairs@;
            let mut out: Vec<(String, Json)> = Vec::new();
            assert(entry_views(out@) =~= sanitized_fields(source.take(0), signed));
            for pair in it: pairs
                invariant
                    it.seq() == all,
                    value@ == whole,
                    whole == JsonView::Object(source),
                    source == entry_views(all),
                    entry_views(out@) == sanitized_fields(source.take(it.index()), signed),
            {
                let ghost before = entry_views(out@);
                proof {
                    let i = it.index();
                    let grown = source.take(i + 1);
                    assert(grown.drop_last() =~= source.take(i));
                    assert(grown.last() == (pair.0@, pair.1@));
                    lemma_field_smaller(whole, i);
                    assert(source[i] == (pair.0@, pair.1@));
                }
                let drop: bool = same(&pair.0, "request_id") || (signed && (same(&pair.0, "url")
                    || same(&pair.0, "expiry_time")));
                if !drop {
                    let ghost entry = (pair.0@, sanitized(pair.1@));
                    out.push((pair.0, sanitize(pair.1)));
                    assert(entry_views(out@) =~= before.push(entry));
                }
            }
            proof {
                assert(source.take(all.len() as int) =~= source);
                lemma_sanitized_keys(source, signed);
                lemma_put_all_distinct(entry_views(out@));
            }
            Json::object(out)
        },
        Json::Array(items) => {
            let ghost all = items@;
            let ghost source = views(all);
            let mut out: Vec<Json> = Vec::new();
            assert(views(out@) =~= sanitized_items(source.take(0)));
            for item in it: items
                invariant
                    it.seq() == all,
                    value@ == whole,
                    whole == JsonView::Array(source),
                    source == views(all),
                    views(out@) == sanitized_items(source.take(it.index())),
            {
                let ghost before = views(out@);
                let ghost clean = sanitized(item@);
                proof {
                    let i = it.index();
                    let grown = source.take(i + 1);
                    assert(grown.drop_last() =~= source.take(i));
                    assert(grown.last() == item@);
                    lemma_item_smaller(whole, i);
                }
                out.push(sanitize(item));
                assert(views(out@) =~= before.push(clean));
            }
            assert(source.take(all.len() as int) =~= source);
            Json::array(out)
        },
        other => other,
    }
}

// ---------------------------------------------------------------------------
// Nodes
// ---------------------------------------------------------------------------
/// `s` without its dashes.
pub open spec fn undashed(s: Seq<char>) -> Seq<char>
    decreases s.len(),
{
    if s.len() == 0 {
        Seq::empty()
    } else if s.last() == '-' {
        undashed(s.drop_last())
    } else {
        undashed(s.drop_last()).push(s.last())
    }
}

/// The directory name of an object: `<id>-<slug>`.
pub open spec fn node_name(title: Seq<char>, id: Seq<char>) -> Seq<char> {
    undashed(id) + "-"@ + slug(title)
}

/// The directory that a path leads to from `dir`, name by name. An absolute path starts with `/` in
/// place of `dir`; `..` stays a name.
pub open spec fn path_from(dir: Seq<Seq<char>>, path: Seq<char>) -> Seq<Seq<char>> {
    if is_absolute(path) {
        seq!["/"@] + components(path)
    } else {
        dir + components(path)
    }
}

/// The directory of an object under `parent`. A slash in the id splits the name, as it does in any
/// path.
pub open spec fn node_path(parent: Seq<Seq<char>>, title: Seq<char>, id: Seq<char>) -> Seq<
    Seq<char>,
> {
    path_from(parent, node_name(title, id))
}

/// The directory above another; there is none above the root of the file system, and what is above
/// a relative path is left as it is.
pub open spec fn one_up(dir: Seq<Seq<char>>) -> Seq<Seq<char>> {
    if dir.len() == 0 || dir.last() == ".."@ {
        dir.push(".."@)
    } else if dir.last() == "/"@ {
        dir
    } else {
        dir.drop_last()
    }
}

/// Where a path leads: `..` goes up.
pub open spec fn resolved(dir: Seq<Seq<char>>) -> Seq<Seq<char>>
    decreases dir.len(),
{
    if dir.len() == 0 {
        Seq::empty()
    } else if dir.last() == ".."@ {
        one_up(resolved(dir.drop_last()))
    } else {
        resolved(dir.drop_last()).push(dir.last())
    }
}

/// The names on the way to a directory.
pub open spec fn path_view(dir: Seq<String>) -> Seq<Seq<char>> {
    texts(dir)
}

/// The content of a page node.
pub open spec fn page_node(page: JsonView, blocks: Seq<JsonView>) -> JsonView {
    JsonView::Object(
        seq![
            ("object"@, JsonView::Text("page"@)),
            ("data"@, page),
            ("blocks"@, JsonView::Array(blocks)),
        ],
    )
}

/// The content of a database node.
pub open spec fn database_node(db: JsonView, row_order: Seq<Seq<char>>) -> JsonView {
    JsonView::Object(
        seq![
            ("object"@, JsonView::Text("database"@)),
            ("data"@, db),
            (
                "row_order"@,
                JsonView::Array(row_order.map_values(|name: Seq<char>| JsonView::Text(name))),
            ),
        ],
    )
}

/// A text on one line, trimmed.
pub open spec fn one_line(text: Seq<char>) -> Seq<char> {
    trim(
        text.map_values(
            |c: char|
                if c == '\n' {
                    ' '
                } else {
                    c
                },
        ),
        Edge::WhiteSpace,
    )
}

/// A text for a log line: on one line, trimmed, and cut off behind `limit` characters.
pub open spec fn abridged(text: Seq<char>, limit: nat) -> Seq<char> {
    let line = one_line(text);
    if line.len() <= limit {
        line
    } else {
        line.take(limit - 1) + "\u{2026}"@
    }
}

/// The line that reports one more object: how many are done, of how many known so far.
pub open spec fn progress(
    processed: nat,
    total: nat,
    action: Seq<char>,
    kind: Seq<char>,
    title: Seq<char>,
) -> Seq<char> {
    "["@ + decimal(processed) + "/"@ + decimal(total) + "] "@ + action + " "@ + kind + ": "@
        + abridged(title, 60)
}

fn strip_dashes(s: &str) -> (r: String)
    ensures
        r@ == undashed(s@),
{
    let chars: Vec<char> = chars_of(s);
    let mut out: String = String::new();
    let mut i: usize = 0;
    while i < chars.len()
        invariant
            i <= chars@.len(),
            out@ == undashed(chars@.take(i as int)),
        decreases chars@.len() - i,
    {
        proof {
            let grown = chars@.take(i + 1);
            assert(grown.drop_last() =~= chars@.take(i as int));
            assert(grown.last() == chars@[i as int]);
        }
        if chars[i] != '-' {
            out.push(chars[i]);
        }
        i += 1;
    }
    assert(chars@.take(i as int) =~= s@);
    out
}

/// The directory name of an object.
pub fn node_file_name(title: &str, obj_id: &str) -> (r: String)
    ensures
        r@ == node_name(title@, obj_id@),
{
    cat3(&strip_dashes(obj_id), "-", &slugify(title))
}

/// The directory for an object under `parent`.
///
/// Prefixing the id makes every node name unique by construction and keeps the directory greppable
/// by id.
pub fn node_dir(parent: &Vec<String>, title: &str, obj_id: &str) -> (r: Vec<String>)
    ensures
        path_view(r@) == node_path(path_view(parent@), title@, obj_id@),
{
    let name: String = node_file_name(title, obj_id);
    path_below(parent, &name)
}

/// The directory that a path leads to from `dir`.
pub fn path_below(dir: &Vec<String>, path: &str) -> (r: Vec<String>)
    ensures
        path_view(r@) == path_from(path_view(dir@), path@),
{
    let mut out: Vec<String> = if starts_at_root(path) {
        let mut top: Vec<String> = Vec::new();
        top.push("/".to_owned());
        assert(path_view(top@) =~= seq!["/"@]);
        top
    } else {
        copy_path(dir)
    };
    let mut names: Vec<String> = split_path(path);
    let ghost a = path_view(out@);
    let ghost b = texts(names@);
    out.append(&mut names);
    assert(path_view(out@) =~= a + b);
    out
}

/// Follows the `..` in a path.
pub fn resolve_path(dir: &Vec<String>) -> (r: Vec<String>)
    ensures
        path_view(r@) == resolved(path_view(dir@)),
{
    let ghost all = path_view(dir@);
    let mut out: Vec<String> = Vec::new();
    let mut i: usize = 0;
    assert(path_view(out@) =~= resolved(all.take(0)));
    while i < dir.len()
        invariant
            i <= dir@.len(),
            all == path_view(dir@),
            path_view(out@) == resolved(all.take(i as int)),
        decreases dir@.len() - i,
    {
        let ghost before = path_view(out@);
        let n: usize = out.len();
        proof {
            let grown = all.take(i + 1);
            assert(grown.drop_last() =~= all.take(i as int));
            assert(grown.last() == dir@[i as int]@);
            assert(before.len() == n);
            if n > 0 {
                assert(before.last() == out@[n - 1]@);
            }
        }
        if !same(&dir[i], "..") || n == 0 || same(&out[n - 1], "..") {
            out.push(dir[i].clone());
            assert(path_view(out@) =~= before.push(dir@[i as int]@));
        } else if !same(&out[n - 1], "/") {
            out.pop();
            assert(path_view(out@) =~= before.drop_last());
        }
        i += 1;
    }
    assert(all.take(i as int) =~= all);
    out
}

/// Whether `dir` is `other` or stands above it.
pub fn is_above(dir: &Vec<String>, other: &Vec<String>) -> (r: bool)
    ensures
        r == path_view(dir@).is_prefix_of(path_view(other@)),
{
    let ghost a = path_view(dir@);
    let ghost b = path_view(other@);
    assert(a.len() == dir@.len() && b.len() == other@.len());
    if dir.len() > other.len() {
        return false;
    }
    let mut i: usize = 0;
    while i < dir.len()
        invariant
            i <= dir@.len() <= other@.len(),
            a == path_view(dir@),
            b == path_view(other@),
            forall|j: int| 0 <= j < i ==> a[j] == b[j],
        decreases dir@.len() - i,
    {
        assert(a[i as int] == dir@[i as int]@ && b[i as int] == other@[i as int]@);
        if !same(&dir[i], &other[i]) {
            assert(b.take(a.len() as int)[i as int] == b[i as int]);
            return false;
        }
        i += 1;
    }
    assert(a =~= b.take(a.len() as int));
    true
}

/// A copy of a path.
pub fn copy_path(dir: &Vec<String>) -> (r: Vec<String>)
    ensures
        path_view(r@) == path_view(dir@),
{
    let mut out: Vec<String> = Vec::new();
    let mut i: usize = 0;
    while i < dir.len()
        invariant
            i <= dir@.len(),
            out@.len() == i,
            forall|j: int| 0 <= j < i ==> (#[trigger] out@[j])@ == dir@[j]@,
        decreases dir@.len() - i,
    {
        out.push(dir[i].clone());
        i += 1;
    }
    assert(path_view(out@) =~= path_view(dir@));
    out
}

/// Whether the two paths are the same.
pub fn same_path(a: &Vec<String>, b: &Vec<String>) -> (r: bool)
    ensures
        r == (path_view(a@) == path_view(b@)),
{
    if a.len() != b.len() {
        assert(path_view(a@).len() != path_view(b@).len());
        return false;
    }
    let mut i: usize = 0;
    while i < a.len()
        invariant
            i <= a@.len(),
            a@.len() == b@.len(),
            forall|j: int| 0 <= j < i ==> a@[j]@ == b@[j]@,
        decreases a@.len() - i,
    {
        if !same(&a[i], &b[i]) {
            assert(path_view(a@)[i as int] != path_view(b@)[i as int]);
            return false;
        }
        i += 1;
    }
    assert(path_view(a@) =~= path_view(b@));
    true
}

proof fn lemma_resolved_plain(dir: Seq<Seq<char>>)
    requires
        forall|i: int| 0 <= i < dir.len() ==> #[trigger] dir[i] != ".."@,
    ensures
        resolved(dir) == dir,
    decreases dir.len(),
{
    if dir.len() > 0 {
        let front = dir.drop_last();
        assert forall|i: int| 0 <= i < front.len() implies #[trigger] front[i] != ".."@ by {
            assert(front[i] == dir[i]);
        }
        lemma_resolved_plain(front);
        assert(dir[dir.len() - 1] != ".."@);
        assert(front.push(dir.last()) =~= dir);
    } else {
        assert(dir =~= Seq::empty());
    }
}

/// Whether a path leads to `dir` or below it.
pub fn leads_below(dir: &Vec<String>, path: &Vec<String>) -> (r: bool)
    ensures
        r == path_view(dir@).is_prefix_of(resolved(path_view(path@))),
{
    let ghost all = path_view(path@);
    let mut i: usize = 0;
    while i < path.len()
        invariant
            i <= path@.len(),
            all == path_view(path@),
            forall|j: int| 0 <= j < i ==> #[trigger] all[j] != ".."@,
        decreases path@.len() - i,
    {
        assert(all[i as int] == path@[i as int]@);
        if same(&path[i], "..") {
            return is_above(dir, &resolve_path(path));
        }
        i += 1;
    }
    proof {
        lemma_resolved_plain(all);
    }
    is_above(dir, path)
}

/// Shortens a text for a log line. Where it has to be cut, there must be room for the ellipsis.
pub fn shorten(text: &str, limit: usize) -> (r: String)
    requires
        limit >= 1 || one_line(text@).len() == 0,
    ensures
        r@ == abridged(text@, limit as nat),
{
    let chars: Vec<char> = chars_of(text);
    let mut line: String = String::new();
    let mut i: usize = 0;
    let ghost wanted = text@.map_values(
        |c: char|
            if c == '\n' {
                ' '
            } else {
                c
            },
    );
    assert(wanted.take(0) =~= Seq::empty());
    while i < chars.len()
        invariant
            i <= chars@.len(),
            chars@ == text@,
            wanted == text@.map_values(
                |c: char|
                    if c == '\n' {
                        ' '
                    } else {
                        c
                    },
            ),
            line@ == wanted.take(i as int),
        decreases chars@.len() - i,
    {
        if chars[i] == '\n' {
            line.push(' ');
        } else {
            line.push(chars[i]);
        }
        i += 1;
        assert(wanted.take(i as int) =~= wanted.take(i - 1).push(wanted[i - 1]));
    }
    assert(wanted.take(i as int) =~= wanted);
    let bare: String = trimmed(&line, Edge::WhiteSpace);
    let rest: Vec<char> = chars_of(&bare);
    if rest.len() <= limit {
        bare
    } else {
        assert(rest@.subrange(0, limit - 1) =~= rest@.take(limit - 1));
        cat2(&text_between(&rest, 0, limit - 1), "\u{2026}")
    }
}

/// The line that reports one more object.
pub fn progress_line(processed: usize, total: usize, action: &str, kind: &str, title: &str) -> (r:
    String)
    ensures
        r@ == progress(processed as nat, total as nat, action@, kind@, title@),
{
    let mut out: String = cat5("[", &to_decimal(processed), "/", &to_decimal(total), "] ");
    out.append(action);
    out.append(" ");
    out.append(kind);
    out.append(": ");
    out.append(&shorten(title, 60));
    out
}

/// Puts a page node together.
pub fn make_page_node(page: Json, blocks: Vec<Json>) -> (r: Json)
    ensures
        r@ == page_node(page@, views(blocks@)),
{
    let ghost data = page@;
    let ghost list = views(blocks@);
    let r: Json = Json::from_fields(
        Fields::new().with("object".to_owned(), Json::string("page")).with(
            "data".to_owned(),
            page,
        ).with("blocks".to_owned(), Json::array(blocks)),
    );
    proof {
        reveal_strlit("object");
        reveal_strlit("data");
        reveal_strlit("blocks");
        assert("object"@.len() == 6 && "data"@.len() == 4 && "blocks"@.len() == 6);
        assert("object"@[0] != "blocks"@[0]);
        let wanted = page_node(data, list)->Object_0;
        assert(distinct_keys(wanted));
        lemma_put_all_distinct(wanted);
        lemma_three_puts(wanted);
    }
    r
}

/// Puts a database node together.
pub fn make_database_node(db: Json, row_order: &Vec<String>) -> (r: Json)
    ensures
        r@ == database_node(db@, texts(row_order@)),
{
    let ghost data = db@;
    let mut names: Vec<Json> = Vec::new();
    let mut i: usize = 0;
    while i < row_order.len()
        invariant
            i <= row_order@.len(),
            names@.len() == i,
            forall|j: int|
                0 <= j < i ==> (#[trigger] names@[j])@ == JsonView::Text(row_order@[j]@),
        decreases row_order@.len() - i,
    {
        names.push(Json::string(&row_order[i]));
        i += 1;
    }
    assert(views(names@) =~= texts(row_order@).map_values(
        |name: Seq<char>| JsonView::Text(name),
    ));
    let r: Json = Json::from_fields(
        Fields::new().with("object".to_owned(), Json::string("database")).with(
            "data".to_owned(),
            db,
        ).with("row_order".to_owned(), Json::array(names)),
    );
    proof {
        reveal_strlit("object");
        reveal_strlit("data");
        reveal_strlit("row_order");
        assert("object"@.len() == 6 && "data"@.len() == 4 && "row_order"@.len() == 9);
        let wanted = database_node(data, texts(row_order@))->Object_0;
        assert(distinct_keys(wanted));
        lemma_put_all_distinct(wanted);
        lemma_three_puts(wanted);
    }
    r
}

proof fn lemma_three_puts(pairs: Seq<(Seq<char>, JsonView)>)
    requires
        pairs.len() == 3,
    ensures
        put_all(pairs) == put(
            put(
                put(Seq::empty(), pairs[0].0, pairs[0].1),
                pairs[1].0,
                pairs[1].1,
            ),
            pairs[2].0,
            pairs[2].1,
        ),
{
    let two = pairs.drop_last();
    let one = two.drop_last();
    assert(two.last() == pairs[1]);
    assert(one.last() == pairs[0]);
    assert(one.drop_last() =~= Seq::empty());
    reveal_with_fuel(put_all, 4);
}

/// The text of a node file: the content without its volatile fields, indented.
pub fn node_text(content: Json) -> (r: String)
    ensures
        r@ == indented(sanitized(content@)) + "\n"@,
        integers_only(sanitized(content@)) && nested_within(sanitized(content@), 127) ==> parsed(
            r@,
        ) == Some(sanitized(content@)),
{
    sanitize(content).to_document()
}

// ---------------------------------------------------------------------------
// The earlier tree
// ---------------------------------------------------------------------------
/// A node file of the earlier tree: the directory that it is in, and its content where it could be
/// read.
pub struct StoredNode {
    pub dir: Vec<String>,
    pub content: Option<Json>,
}

/// What a node file holds.
pub struct StoredView {
    pub dir: Seq<Seq<char>>,
    pub content: Option<JsonView>,
}

impl View for StoredNode {
    type V = StoredView;

    open spec fn view(&self) -> StoredView {
        StoredView {
            dir: path_view(self.dir@),
            content: match self.content {
                Some(v) => Some(v@),
                None => None,
            },
        }
    }
}

/// What the files of the earlier tree hold.
pub open spec fn stored_views(files: Seq<StoredNode>) -> Seq<StoredView> {
    files.map_values(|f: StoredNode| f@)
}

/// Where an object was dumped before, and when it was last edited then.
pub struct PrevEntry {
    pub id: String,
    pub dir: Vec<String>,
    pub last_edited_time: String,
}

/// An entry of the earlier tree.
pub struct PrevView {
    pub id: Seq<char>,
    pub dir: Seq<Seq<char>>,
    pub last_edited_time: Seq<char>,
}

impl View for PrevEntry {
    type V = PrevView;

    open spec fn view(&self) -> PrevView {
        PrevView {
            id: self.id@,
            dir: path_view(self.dir@),
            last_edited_time: self.last_edited_time@,
        }
    }
}

/// The entries of the earlier tree.
pub open spec fn prev_views(entries: Seq<PrevEntry>) -> Seq<PrevView> {
    entries.map_values(|e: PrevEntry| e@)
}

/// The entry for a node file; nothing where it holds no object with an id.
pub open spec fn entry_of(file: StoredView) -> Option<PrevView> {
    match file.content {
        Some(content) => match content.get("data"@) {
            Some(data) => match data.text_at("id"@) {
                Some(id) => Some(
                    PrevView {
                        id,
                        dir: file.dir,
                        last_edited_time: or_empty(data.text_at("last_edited_time"@)),
                    },
                ),
                None => None,
            },
            None => None,
        },
        None => None,
    }
}

/// The position of the entry for an id; the number of entries where there is none.
pub open spec fn entry_index(entries: Seq<PrevView>, id: Seq<char>) -> int
    decreases entries.len(),
{
    if entries.len() == 0 {
        0
    } else if entries[0].id == id {
        0
    } else {
        1 + entry_index(entries.skip(1), id)
    }
}

/// The entry for an id.
pub open spec fn entry_for(entries: Seq<PrevView>, id: Seq<char>) -> Option<PrevView> {
    let i = entry_index(entries, id);
    if i < entries.len() {
        Some(entries[i])
    } else {
        None
    }
}

/// The earlier tree by object id: of two files with the same id the later one counts.
pub open spec fn scanned(files: Seq<StoredView>) -> Seq<PrevView>
    decreases files.len(),
{
    if files.len() == 0 {
        Seq::empty()
    } else {
        let before = scanned(files.drop_last());
        match entry_of(files.last()) {
            Some(entry) => {
                let i = entry_index(before, entry.id);
                if i < before.len() {
                    before.update(i, entry)
                } else {
                    before.push(entry)
                }
            },
            None => before,
        }
    }
}

proof fn lemma_entry_index_at(entries: Seq<PrevView>, id: Seq<char>, i: int)
    requires
        0 <= i <= entries.len(),
        forall|j: int| 0 <= j < i ==> (#[trigger] entries[j]).id != id,
        i < entries.len() ==> entries[i].id == id,
    ensures
        entry_index(entries, id) == i,
    decreases i,
{
    if i > 0 {
        assert(entries[0].id != id);
        let rest = entries.skip(1);
        assert forall|j: int| 0 <= j < i - 1 implies (#[trigger] rest[j]).id != id by {
            assert(rest[j] == entries[j + 1]);
        }
        lemma_entry_index_at(rest, id, i - 1);
    }
}

/// The index of an entry is in range, and points to the first entry with the id.
pub proof fn lemma_entry_index(entries: Seq<PrevView>, id: Seq<char>)
    ensures
        0 <= entry_index(entries, id) <= entries.len(),
        entry_index(entries, id) < entries.len() ==> entries[entry_index(entries, id)].id == id,
        forall|j: int| 0 <= j < entry_index(entries, id) ==> (#[trigger] entries[j]).id != id,
    decreases entries.len(),
{
    if entries.len() > 0 && entries[0].id != id {
        let rest = entries.skip(1);
        lemma_entry_index(rest, id);
        let k = entry_index(rest, id);
        assert forall|j: int| 0 <= j < k + 1 implies (#[trigger] entries[j]).id != id by {
            if j > 0 {
                assert(rest[j - 1] == entries[j]);
            }
        }
        if k < rest.len() {
            assert(rest[k] == entries[k + 1]);
        }
    }
}

/// Finds the entry for an id.
pub fn find_entry(entries: &Vec<PrevEntry>, id: &str) -> (r: usize)
    ensures
        r == entry_index(prev_views(entries@), id@),
        r <= entries@.len(),
{
    let mut i: usize = 0;
    while i < entries.len() && !same(&entries[i].id, id)
        invariant
            i <= entries@.len(),
            forall|j: int| 0 <= j < i ==> (#[trigger] entries@[j]).id@ != id@,
        decreases entries@.len() - i,
    {
        i += 1;
    }
    proof {
        let list = prev_views(entries@);
        assert forall|j: int| 0 <= j < i implies (#[trigger] list[j]).id != id@ by {
            assert(list[j] == entries@[j]@);
        }
        lemma_entry_index_at(list, id@, i as int);
    }
    i
}

/// What a list of paths holds.
pub open spec fn paths(list: Seq<Vec<String>>) -> Seq<Seq<Seq<char>>> {
    list.map_values(|dir: Vec<String>| path_view(dir@))
}

/// The directories of the nodes in an earlier tree: of every file that holds an object with an id.
pub open spec fn node_dirs(files: Seq<StoredView>) -> Seq<Seq<Seq<char>>>
    decreases files.len(),
{
    if files.len() == 0 {
        Seq::empty()
    } else {
        let before = node_dirs(files.drop_last());
        match entry_of(files.last()) {
            Some(entry) => before.push(entry.dir),
            None => before,
        }
    }
}

fn has_object(file: &StoredNode) -> (r: bool)
    ensures
        r == (entry_of(file@) is Some),
{
    match &file.content {
        Some(content) => match content.get("data") {
            Some(data) => data.text_at("id").is_some(),
            None => false,
        },
        None => false,
    }
}

/// Collects the directories of the nodes in an earlier tree.
pub fn stored_dirs(files: &Vec<StoredNode>) -> (r: Vec<Vec<String>>)
    ensures
        paths(r@) == node_dirs(stored_views(files@)),
{
    let ghost all = stored_views(files@);
    let mut out: Vec<Vec<String>> = Vec::new();
    let mut i: usize = 0;
    assert(paths(out@) =~= node_dirs(all.take(0)));
    while i < files.len()
        invariant
            i <= files@.len(),
            all == stored_views(files@),
            paths(out@) == node_dirs(all.take(i as int)),
        decreases files@.len() - i,
    {
        let ghost before = paths(out@);
        proof {
            let grown = all.take(i + 1);
            assert(grown.drop_last() =~= all.take(i as int));
            assert(grown.last() == files@[i as int]@);
        }
        if has_object(&files[i]) {
            let dir: Vec<String> = copy_path(&files[i].dir);
            let ghost d = path_view(dir@);
            out.push(dir);
            assert(paths(out@) =~= before.push(d));
        }
        i += 1;
    }
    assert(all.take(i as int) =~= all);
    out
}

/// Indexes the earlier tree by object id.
pub fn scan_prev_tree(files: &Vec<StoredNode>) -> (r: Vec<PrevEntry>)
    ensures
        prev_views(r@) == scanned(stored_views(files@)),
{
    let ghost all = stored_views(files@);
    let mut out: Vec<PrevEntry> = Vec::new();
    let mut i: usize = 0;
    assert(prev_views(out@) =~= scanned(all.take(0)));
    while i < files.len()
        invariant
            i <= files@.len(),
            all == stored_views(files@),
            prev_views(out@) == scanned(all.take(i as int)),
        decreases files@.len() - i,
    {
        let ghost before = prev_views(out@);
        proof {
            let grown = all.take(i + 1);
            assert(grown.drop_last() =~= all.take(i as int));
            assert(grown.last() == files@[i as int]@);
        }
        if let Some(content) = &files[i].content {
            if let Some(data) = content.get("data") {
                if let Some(id) = data.text_at("id") {
                    let at: usize = find_entry(&out, id);
                    let entry = PrevEntry {
                        id: id.to_owned(),
                        dir: copy_path(&files[i].dir),
                        last_edited_time: match data.text_at("last_edited_time") {
                            Some(t) => t.to_owned(),
                            None => String::new(),
                        },
                    };
                    assert(Some(entry@) == entry_of(files@[i as int]@));
                    if at < out.len() {
                        out.set(at, entry);
                        assert(prev_views(out@) =~= before.update(at as int, entry@));
                    } else {
                        out.push(entry);
                        assert(prev_views(out@) =~= before.push(entry@));
                    }
                }
            }
        }
        i += 1;
    }
    assert(all.take(i as int) =~= all);
    out
}

/// The blocks in the content of a page node.
pub open spec fn blocks_in(content: JsonView) -> Seq<JsonView> {
    match content.items_at("blocks"@) {
        Some(blocks) => blocks,
        None => Seq::empty(),
    }
}

/// Takes the blocks out of the content of a page node.
pub fn stored_blocks(content: &Json) -> (r: Vec<Json>)
    ensures
        views(r@) == blocks_in(content@),
{
    match content.items_at("blocks") {
        Some(blocks) => copy_list(blocks),
        None => {
            let r: Vec<Json> = Vec::new();
            assert(views(r@) =~= Seq::empty());
            r
        },
    }
}

/// A copy of a list of values.
pub fn copy_list(list: &Vec<Json>) -> (r: Vec<Json>)
    ensures
        views(r@) == views(list@),
{
    let mut out: Vec<Json> = Vec::new();
    let mut i: usize = 0;
    while i < list.len()
        invariant
            i <= list@.len(),
            out@.len() == i,
            forall|j: int| 0 <= j < i ==> (#[trigger] out@[j])@ == list@[j]@,
        decreases list@.len() - i,
    {
        out.push(list[i].duplicate());
        i += 1;
    }
    assert(views(out@) =~= views(list@));
    out
}

/// Whether a file or directory is hidden: its name starts with a dot.
pub fn is_hidden(name: &str) -> (r: bool)
    ensures
        r == (name@.len() > 0 && name@[0] == '.'),
{
    let chars: Vec<char> = chars_of(name);
    chars.len() > 0 && chars[0] == '.'
}

} // verus!
