//! What holds of the raw JSON tree: node names, sanitized content, and what is read back.

use vstd::prelude::*;

use crate::dump::{
    blocks_in, entry_for, entry_index, entry_of, is_signed_file, is_volatile, lemma_entry_index,
    node_name, node_path, page_node, resolved, sanitized, sanitized_fields, sanitized_items,
    scanned, undashed, PrevView, StoredView,
};
use crate::json::{lemma_field_smaller, lemma_item_smaller, lookup, JsonView};
use crate::text::{components, is_absolute, naming, or_empty, pieces};
use crate::util::{is_unsafe, law_slugs_are_safe, slug};

verus! {

// ---------------------------------------------------------------------------
// Names
// ---------------------------------------------------------------------------
proof fn lemma_undashed(id: Seq<char>)
    ensures
        forall|i: int| 0 <= i < undashed(id).len() ==> #[trigger] undashed(id)[i] != '-',
    decreases id.len(),
{
    if id.len() > 0 {
        let front = undashed(id.drop_last());
        lemma_undashed(id.drop_last());
        assert forall|i: int| 0 <= i < undashed(id).len() implies #[trigger] undashed(id)[i]
            != '-' by {
            if i < front.len() {
                assert(undashed(id)[i] == front[i]);
            }
        }
    }
}

/// The name of a node starts with the id of its object, and objects with different ids have
/// different names, whatever their titles are.
pub proof fn law_node_names_tell_objects_apart(
    a: Seq<char>,
    title_a: Seq<char>,
    b: Seq<char>,
    title_b: Seq<char>,
)
    ensures
        undashed(a).is_prefix_of(node_name(title_a, a)),
        node_name(title_a, a) == node_name(title_b, b) ==> undashed(a) == undashed(b),
{
    reveal_strlit("-");
    let x = undashed(a);
    let y = undashed(b);
    let m = node_name(title_a, a);
    let n = node_name(title_b, b);
    lemma_undashed(a);
    lemma_undashed(b);
    assert(x =~= m.take(x.len() as int));
    assert(y =~= n.take(y.len() as int));
    assert(m[x.len() as int] == '-');
    assert(n[y.len() as int] == '-');
    if m == n {
        if x.len() < y.len() {
            assert(y[x.len() as int] == n[x.len() as int]);
        } else if y.len() < x.len() {
            assert(x[y.len() as int] == m[y.len() as int]);
        }
        assert(x.len() == y.len());
    }
}

/// Whether a name holds a dash.
pub open spec fn is_dashed(name: Seq<char>) -> bool {
    name.contains('-')
}

proof fn lemma_pieces(s: Seq<char>)
    requires
        !is_dashed(s),
    ensures
        pieces(s).len() > 0,
        forall|i: int| 0 <= i < pieces(s).len() ==> !is_dashed(#[trigger] pieces(s)[i]),
    decreases s.len(),
{
    if s.len() > 0 {
        let front = s.drop_last();
        let before = pieces(front);
        assert(!is_dashed(front)) by {
            if front.contains('-') {
                let k = choose|k: int| 0 <= k < front.len() && front[k] == '-';
                assert(s[k] == '-');
            }
        }
        lemma_pieces(front);
        assert(s[s.len() - 1] != '-');
        let all = pieces(s);
        assert forall|i: int| 0 <= i < all.len() implies !is_dashed(#[trigger] all[i]) by {
            if i < all.len() - 1 {
                assert(all[i] == before[i]);
            } else if all[i].contains('-') {
                let k = choose|k: int| 0 <= k < all[i].len() && all[i][k] == '-';
                assert(!is_dashed(before[before.len() - 1]));
                assert(before.last()[k] == '-');
            }
        }
    }
}

/// What has no slash goes into the last part.
proof fn lemma_pieces_cat(a: Seq<char>, b: Seq<char>)
    requires
        !b.contains('/'),
        pieces(a).len() > 0,
    ensures
        pieces(a + b) == pieces(a).drop_last().push(pieces(a).last() + b),
    decreases b.len(),
{
    if b.len() == 0 {
        assert(a + b =~= a);
        assert(pieces(a).last() + b =~= pieces(a).last());
        assert(pieces(a).drop_last().push(pieces(a).last()) =~= pieces(a));
    } else {
        let front = b.drop_last();
        assert(!front.contains('/')) by {
            if front.contains('/') {
                let k = choose|k: int| 0 <= k < front.len() && front[k] == '/';
                assert(b[k] == '/');
            }
        }
        lemma_pieces_cat(a, front);
        assert(b[b.len() - 1] != '/');
        assert((a + b).drop_last() =~= a + front);
        assert((pieces(a).last() + front).push(b.last()) =~= pieces(a).last() + b);
        assert(pieces(a + b) =~= pieces(a).drop_last().push(pieces(a).last() + b));
    }
}

proof fn lemma_naming(parts: Seq<Seq<char>>)
    requires
        forall|i: int| 0 <= i < parts.len() ==> !is_dashed(#[trigger] parts[i]),
    ensures
        forall|i: int| 0 <= i < naming(parts).len() ==> !is_dashed(#[trigger] naming(parts)[i]),
    decreases parts.len(),
{
    if parts.len() > 0 {
        let front = parts.drop_last();
        assert forall|i: int| 0 <= i < front.len() implies !is_dashed(#[trigger] front[i]) by {
            assert(front[i] == parts[i]);
        }
        lemma_naming(front);
        assert(!is_dashed(parts[parts.len() - 1]));
        let all = naming(parts);
        assert forall|i: int| 0 <= i < all.len() implies !is_dashed(#[trigger] all[i]) by {
            if i < naming(front).len() {
                assert(all[i] == naming(front)[i]);
            }
        }
    }
}

/// The directory that the name of a node starts from: the one that the node is placed in, or the
/// root of the file system, where the name is an absolute path.
pub open spec fn node_start(parent: Seq<Seq<char>>, title: Seq<char>, id: Seq<char>) -> Seq<
    Seq<char>,
> {
    if is_absolute(node_name(title, id)) {
        seq!["/"@]
    } else {
        parent
    }
}

/// The directory of a node stands below the one that it is placed in, unless its id is an absolute
/// path; and what tells it from the names between them is the dash in its name.
pub proof fn law_node_directories_are_dashed(
    parent: Seq<Seq<char>>,
    title: Seq<char>,
    id: Seq<char>,
)
    ensures
        ({
            let dir = node_path(parent, title, id);
            let start = node_start(parent, title, id);
            &&& dir.len() > start.len()
            &&& start.is_prefix_of(dir)
            &&& is_dashed(dir.last())
            &&& forall|i: int| start.len() <= i < dir.len() - 1 ==> !is_dashed(#[trigger] dir[i])
        }),
{
    let dir = node_path(parent, title, id);
    let start = node_start(parent, title, id);
    let head = undashed(id);
    let tail = "-"@ + slug(title);
    let name = node_name(title, id);
    reveal_strlit("-");
    reveal_strlit(".");
    lemma_undashed(id);
    assert(!is_dashed(head));
    lemma_pieces(head);
    law_slugs_are_safe(title);
    assert(!tail.contains('/')) by {
        if tail.contains('/') {
            let k = choose|k: int| 0 <= k < tail.len() && tail[k] == '/';
            assert(k > 0);
            assert(slug(title)[k - 1] == '/');
            assert(is_unsafe('/'));
        }
    }
    assert(name =~= head + tail);
    lemma_pieces_cat(head, tail);
    let front = pieces(head).drop_last();
    let last = pieces(head).last() + tail;
    assert(pieces(name).drop_last() =~= front);
    assert(last[pieces(head).last().len() as int] == '-');
    assert(is_dashed(last));
    assert(last != "."@) by {
        if last == "."@ {
            let k = choose|k: int| 0 <= k < last.len() && last[k] == '-';
            assert("."@[k] == '.');
        }
    }
    assert forall|i: int| 0 <= i < front.len() implies !is_dashed(#[trigger] front[i]) by {
        assert(front[i] == pieces(head)[i]);
    }
    lemma_naming(front);
    assert(components(name) == naming(front).push(last));
    assert(dir == start + components(name));
    assert forall|i: int| start.len() <= i < dir.len() - 1 implies !is_dashed(
        #[trigger] dir[i],
    ) by {
        assert(dir[i] == naming(front)[i - start.len()]);
    }
    assert(start =~= dir.take(start.len() as int));
}

/// Names without a dash leave no directory with a dash in its name that was not there before.
proof fn lemma_undashed_way(start: Seq<Seq<char>>, more: Seq<Seq<char>>, above: Seq<Seq<char>>)
    requires
        forall|i: int| 0 <= i < more.len() ==> !is_dashed(#[trigger] more[i]),
        above.len() > 0,
        is_dashed(above.last()),
        above.is_prefix_of(resolved(start + more)),
    ensures
        above.is_prefix_of(resolved(start)),
    decreases more.len(),
{
    if more.len() == 0 {
        assert(start + more =~= start);
    } else {
        let front = more.drop_last();
        let before = resolved(start + front);
        let now = resolved(start + more);
        assert forall|i: int| 0 <= i < front.len() implies !is_dashed(#[trigger] front[i]) by {
            assert(front[i] == more[i]);
        }
        assert((start + more).drop_last() =~= start + front);
        assert(!is_dashed(more[more.len() - 1]));
        reveal_strlit("..");
        assert(!is_dashed(".."@)) by {
            if ".."@.contains('-') {
                let k = choose|k: int| 0 <= k < ".."@.len() && ".."@[k] == '-';
                assert(".."@[k] == '.');
            }
        }
        assert(above.len() <= before.len()) by {
            if above.len() > before.len() {
                assert(now.len() == before.len() + 1);
                assert(above =~= now);
            }
        }
        assert(above =~= before.take(above.len() as int)) by {
            assert forall|i: int| 0 <= i < above.len() implies above[i] == before[i] by {
                assert(above[i] == now.take(above.len() as int)[i]);
            }
        }
        lemma_undashed_way(start, front, above);
    }
}

/// A directory that is named as nodes are, with a dash, and stands above a node, is the node's own
/// or stands above the one that the node is placed in.
pub proof fn law_nodes_add_no_other_directories(
    parent: Seq<Seq<char>>,
    title: Seq<char>,
    id: Seq<char>,
    above: Seq<Seq<char>>,
)
    requires
        above.len() > 0,
        is_dashed(above.last()),
        above.is_prefix_of(resolved(node_path(parent, title, id))),
    ensures
        above == resolved(node_path(parent, title, id)) || !is_absolute(node_name(title, id))
            && above.is_prefix_of(resolved(parent)),
{
    let dir = node_path(parent, title, id);
    let start = node_start(parent, title, id);
    let front = dir.drop_last();
    let more = front.skip(start.len() as int);
    let all = resolved(dir);
    law_node_directories_are_dashed(parent, title, id);
    assert(front =~= start + more) by {
        assert forall|i: int| 0 <= i < start.len() implies front[i] == start[i] by {
            assert(start[i] == dir.take(start.len() as int)[i]);
        }
    }
    reveal_strlit("..");
    assert(dir.last() != ".."@) by {
        if dir.last() == ".."@ {
            let k = choose|k: int| 0 <= k < dir.last().len() && dir.last()[k] == '-';
            assert(".."@[k] == '.');
        }
    }
    assert(all == resolved(front).push(dir.last()));
    if above.len() == all.len() {
        assert(above =~= all);
    } else {
        assert(above =~= resolved(front).take(above.len() as int)) by {
            assert forall|i: int| 0 <= i < above.len() implies above[i] == resolved(front)[i] by {
                assert(above[i] == all.take(above.len() as int)[i]);
            }
        }
        assert forall|i: int| 0 <= i < more.len() implies !is_dashed(#[trigger] more[i]) by {
            assert(more[i] == dir[start.len() + i]);
        }
        lemma_undashed_way(start, more, above);
        if is_absolute(node_name(title, id)) {
            reveal_strlit("/");
            reveal_with_fuel(resolved, 2);
            assert("/"@.len() == 1 && ".."@.len() == 2);
            assert(start.drop_last() =~= Seq::empty());
            assert(resolved(start) =~= seq!["/"@]);
            assert(above =~= seq!["/"@]);
            let k = choose|k: int| 0 <= k < above.last().len() && above.last()[k] == '-';
            assert("/"@[k] == '/');
        }
    }
}

// ---------------------------------------------------------------------------
// Sanitized content
// ---------------------------------------------------------------------------
/// Whether a value holds, at any depth, none of the fields that change on every fetch.
pub open spec fn is_settled(value: JsonView) -> bool
    decreases value,
{
    match value {
        JsonView::Object(fields) => {
            &&& lookup(fields, "request_id"@) is None
            &&& !is_signed_file(fields)
            &&& forall|i: int| 0 <= i < fields.len() ==> is_settled((#[trigger] fields[i]).1)
        },
        JsonView::Array(items) => forall|i: int|
            0 <= i < items.len() ==> is_settled(#[trigger] items[i]),
        _ => true,
    }
}

proof fn lemma_lookup_push(
    fields: Seq<(Seq<char>, JsonView)>,
    entry: (Seq<char>, JsonView),
    key: Seq<char>,
)
    ensures
        lookup(fields.push(entry), key) == if lookup(fields, key) is Some {
            lookup(fields, key)
        } else if entry.0 == key {
            Some(entry.1)
        } else {
            None
        },
    decreases fields.len(),
{
    let all = fields.push(entry);
    if fields.len() == 0 {
        assert(lookup(all.skip(1), key) is None);
    } else if fields[0].0 != key {
        assert(all.skip(1) =~= fields.skip(1).push(entry));
        lemma_lookup_push(fields.skip(1), entry, key);
    }
}

proof fn lemma_lookup_none(fields: Seq<(Seq<char>, JsonView)>, key: Seq<char>)
    ensures
        lookup(fields, key) is None <==> forall|i: int|
            0 <= i < fields.len() ==> (#[trigger] fields[i]).0 != key,
    decreases fields.len(),
{
    if fields.len() > 0 {
        let rest = fields.skip(1);
        lemma_lookup_none(rest, key);
        if lookup(fields, key) is None {
            assert forall|i: int| 0 <= i < fields.len() implies (#[trigger] fields[i]).0 != key by {
                if i > 0 {
                    assert(rest[i - 1] == fields[i]);
                }
            }
        } else if forall|i: int| 0 <= i < fields.len() ==> (#[trigger] fields[i]).0 != key {
            assert(fields[0].0 != key);
            assert forall|i: int| 0 <= i < rest.len() implies (#[trigger] rest[i]).0 != key by {
                assert(rest[i] == fields[i + 1]);
            }
        }
    }
}

/// A field that stays is found under its key, sanitized; one that goes is not found.
proof fn lemma_sanitized_lookup(
    fields: Seq<(Seq<char>, JsonView)>,
    signed: bool,
    key: Seq<char>,
)
    ensures
        lookup(sanitized_fields(fields, signed), key) == if is_volatile(key, signed) {
            None
        } else {
            match lookup(fields, key) {
                Some(v) => Some(sanitized(v)),
                None => None,
            }
        },
    decreases fields.len(),
{
    if fields.len() > 0 {
        let front = fields.drop_last();
        lemma_sanitized_lookup(front, signed, key);
        assert(front.push(fields.last()) =~= fields);
        lemma_lookup_push(front, fields.last(), key);
        let kept = sanitized_fields(front, signed);
        lemma_lookup_push(kept, (fields.last().0, sanitized(fields.last().1)), key);
    }
}

proof fn lemma_sanitized_fields_settled(fields: Seq<(Seq<char>, JsonView)>, signed: bool)
    requires
        forall|i: int| 0 <= i < fields.len() ==> is_settled(sanitized((#[trigger] fields[i]).1)),
    ensures
        forall|i: int|
            0 <= i < sanitized_fields(fields, signed).len() ==> is_settled(
                (#[trigger] sanitized_fields(fields, signed)[i]).1,
            ),
    decreases fields.len(),
{
    if fields.len() > 0 {
        let front = fields.drop_last();
        assert forall|i: int| 0 <= i < front.len() implies is_settled(
            sanitized((#[trigger] front[i]).1),
        ) by {
            assert(front[i] == fields[i]);
        }
        lemma_sanitized_fields_settled(front, signed);
        let kept = sanitized_fields(front, signed);
        let all = sanitized_fields(fields, signed);
        assert(is_settled(sanitized(fields[fields.len() - 1].1)));
        assert forall|i: int| 0 <= i < all.len() implies is_settled((#[trigger] all[i]).1) by {
            if i < kept.len() {
                assert(all[i] == kept[i]);
            }
        }
    }
}

proof fn lemma_sanitized_items_at(items: Seq<JsonView>)
    ensures
        sanitized_items(items).len() == items.len(),
        forall|i: int|
            0 <= i < items.len() ==> #[trigger] sanitized_items(items)[i] == sanitized(items[i]),
    decreases items.len(),
{
    if items.len() > 0 {
        let front = items.drop_last();
        lemma_sanitized_items_at(front);
        assert forall|i: int| 0 <= i < items.len() implies #[trigger] sanitized_items(items)[i]
            == sanitized(items[i]) by {
            if i < front.len() {
                assert(sanitized_items(items)[i] == sanitized_items(front)[i]);
                assert(front[i] == items[i]);
            }
        }
    }
}

/// Sanitizing leaves none of the fields that change on every fetch, at any depth: no `request_id`,
/// and no URL that expires.
pub proof fn law_sanitized_is_settled(value: JsonView)
    ensures
        is_settled(sanitized(value)),
    decreases value,
{
    match value {
        JsonView::Object(fields) => {
            let signed = is_signed_file(fields);
            assert forall|i: int| 0 <= i < fields.len() implies is_settled(
                sanitized((#[trigger] fields[i]).1),
            ) by {
                lemma_field_smaller(value, i);
                law_sanitized_is_settled(fields[i].1);
            }
            lemma_sanitized_fields_settled(fields, signed);
            lemma_sanitized_lookup(fields, signed, "request_id"@);
            lemma_sanitized_lookup(fields, signed, "url"@);
            lemma_sanitized_lookup(fields, signed, "expiry_time"@);
        },
        JsonView::Array(items) => {
            lemma_sanitized_items_at(items);
            assert forall|i: int| 0 <= i < items.len() implies is_settled(
                #[trigger] sanitized_items(items)[i],
            ) by {
                lemma_item_smaller(value, i);
                law_sanitized_is_settled(items[i]);
            }
        },
        _ => {},
    }
}

proof fn lemma_settled_fields_stay(fields: Seq<(Seq<char>, JsonView)>)
    requires
        lookup(fields, "request_id"@) is None,
        forall|i: int|
            0 <= i < fields.len() ==> sanitized((#[trigger] fields[i]).1) == fields[i].1,
    ensures
        sanitized_fields(fields, false) == fields,
    decreases fields.len(),
{
    if fields.len() > 0 {
        let front = fields.drop_last();
        lemma_lookup_none(fields, "request_id"@);
        assert(fields[fields.len() - 1].0 != "request_id"@);
        assert forall|i: int| 0 <= i < front.len() implies (#[trigger] front[i]).0
            != "request_id"@ && sanitized(front[i].1) == front[i].1 by {
            assert(front[i] == fields[i]);
        }
        lemma_lookup_none(front, "request_id"@);
        lemma_settled_fields_stay(front);
        assert(front.push(fields.last()) =~= fields);
    } else {
        assert(sanitized_fields(fields, false) =~= fields);
    }
}

/// Sanitizing takes nothing else away: a value without such fields stays as it is. Stable `external`
/// URLs and page permalinks survive.
pub proof fn law_settled_stays(value: JsonView)
    requires
        is_settled(value),
    ensures
        sanitized(value) == value,
    decreases value,
{
    match value {
        JsonView::Object(fields) => {
            assert forall|i: int| 0 <= i < fields.len() implies sanitized((#[trigger] fields[i]).1)
                == fields[i].1 by {
                lemma_field_smaller(value, i);
                law_settled_stays(fields[i].1);
            }
            lemma_settled_fields_stay(fields);
        },
        JsonView::Array(items) => {
            lemma_sanitized_items_at(items);
            assert forall|i: int| 0 <= i < items.len() implies sanitized_items(items)[i]
                == #[trigger] items[i] by {
                lemma_item_smaller(value, i);
                law_settled_stays(items[i]);
            }
            assert(sanitized_items(items) =~= items);
        },
        _ => {},
    }
}

/// Sanitizing again changes nothing.
pub proof fn law_sanitizing_is_idempotent(value: JsonView)
    ensures
        sanitized(sanitized(value)) == sanitized(value),
{
    law_sanitized_is_settled(value);
    law_settled_stays(sanitized(value));
}

proof fn lemma_update_keeps_keys(
    fields: Seq<(Seq<char>, JsonView)>,
    i: int,
    value: JsonView,
    key: Seq<char>,
)
    requires
        0 <= i < fields.len(),
    ensures
        lookup(fields.update(i, (fields[i].0, value)), key) is Some == lookup(fields, key) is Some,
{
    let other = fields.update(i, (fields[i].0, value));
    lemma_lookup_none(fields, key);
    lemma_lookup_none(other, key);
    if lookup(fields, key) is None {
        assert forall|j: int| 0 <= j < other.len() implies (#[trigger] other[j]).0 != key by {
            assert(fields[j].0 != key);
        }
    }
    if lookup(other, key) is None {
        assert forall|j: int| 0 <= j < fields.len() implies (#[trigger] fields[j]).0 != key by {
            assert(other[j].0 != key);
        }
    }
}

proof fn lemma_update_volatile(
    fields: Seq<(Seq<char>, JsonView)>,
    i: int,
    value: JsonView,
    signed: bool,
)
    requires
        0 <= i < fields.len(),
        is_volatile(fields[i].0, signed),
    ensures
        sanitized_fields(fields.update(i, (fields[i].0, value)), signed) == sanitized_fields(
            fields,
            signed,
        ),
    decreases fields.len(),
{
    let other = fields.update(i, (fields[i].0, value));
    let front = fields.drop_last();
    if i < front.len() {
        assert(other.drop_last() =~= front.update(i, (front[i].0, value)));
        lemma_update_volatile(front, i, value, signed);
    } else {
        assert(other.drop_last() =~= front);
    }
}

/// What a field that changes on every fetch holds does not matter: another fetch of the same object
/// comes to the same content.
pub proof fn law_volatile_values_do_not_matter(
    fields: Seq<(Seq<char>, JsonView)>,
    i: int,
    value: JsonView,
)
    requires
        0 <= i < fields.len(),
        is_volatile(fields[i].0, is_signed_file(fields)),
    ensures
        sanitized(JsonView::Object(fields.update(i, (fields[i].0, value)))) == sanitized(
            JsonView::Object(fields),
        ),
{
    lemma_update_keeps_keys(fields, i, value, "url"@);
    lemma_update_keeps_keys(fields, i, value, "expiry_time"@);
    lemma_update_volatile(fields, i, value, is_signed_file(fields));
}

// ---------------------------------------------------------------------------
// Reading back
// ---------------------------------------------------------------------------
proof fn lemma_sanitized_text(value: JsonView, key: Seq<char>)
    requires
        key != "request_id"@,
        key != "url"@,
        key != "expiry_time"@,
    ensures
        sanitized(value).text_at(key) == value.text_at(key),
{
    if let JsonView::Object(fields) = value {
        lemma_sanitized_lookup(fields, is_signed_file(fields), key);
    }
}

proof fn lemma_sanitized_page_node(page: JsonView, blocks: Seq<JsonView>)
    ensures
        sanitized(page_node(page, blocks)) == page_node(sanitized(page), sanitized_items(blocks)),
{
    reveal_strlit("object");
    reveal_strlit("data");
    reveal_strlit("blocks");
    reveal_strlit("request_id");
    reveal_strlit("url");
    reveal_strlit("expiry_time");
    assert("object"@.len() == 6 && "data"@.len() == 4 && "blocks"@.len() == 6);
    assert("request_id"@.len() == 10 && "url"@.len() == 3 && "expiry_time"@.len() == 11);
    let fields = page_node(page, blocks)->Object_0;
    lemma_lookup_none(fields, "url"@);
    assert(!is_signed_file(fields));
    assert(sanitized(JsonView::Text("page"@)) == JsonView::Text("page"@));
    assert(sanitized(JsonView::Array(blocks)) == JsonView::Array(sanitized_items(blocks)));
    let two = fields.drop_last();
    let one = two.drop_last();
    assert(two.last() == fields[1]);
    assert(one.last() == fields[0]);
    assert(one.drop_last() =~= Seq::empty());
    assert(sanitized_fields(one.drop_last(), false) =~= Seq::empty());
    assert(sanitized_fields(one, false) == Seq::empty().push(
        ("object"@, JsonView::Text("page"@)),
    ));
    assert(sanitized_fields(two, false) == sanitized_fields(one, false).push(
        ("data"@, sanitized(page)),
    ));
    assert(sanitized_fields(fields, false) == sanitized_fields(two, false).push(
        ("blocks"@, JsonView::Array(sanitized_items(blocks))),
    ));
    assert(sanitized_fields(fields, false) =~= page_node(
        sanitized(page),
        sanitized_items(blocks),
    )->Object_0);
}

proof fn lemma_page_node_fields(page: JsonView, blocks: Seq<JsonView>)
    ensures
        page_node(page, blocks).get("data"@) == Some(page),
        page_node(page, blocks).get("blocks"@) == Some(JsonView::Array(blocks)),
{
    reveal_strlit("object");
    reveal_strlit("data");
    reveal_strlit("blocks");
    assert("object"@.len() == 6 && "data"@.len() == 4 && "blocks"@.len() == 6);
    assert("object"@[0] != "blocks"@[0]);
    let fields = page_node(page, blocks)->Object_0;
    assert(fields.skip(1)[0] == fields[1]);
    assert(fields.skip(1).skip(1)[0] == fields[2]);
    reveal_with_fuel(lookup, 4);
}

/// What is written for a page is known again when the tree is scanned: the entry has the page's id
/// and the time of its last edit, and the blocks are those that were written.
pub proof fn law_written_pages_are_known_again(
    page: JsonView,
    blocks: Seq<JsonView>,
    dir: Seq<Seq<char>>,
    id: Seq<char>,
)
    requires
        page.text_at("id"@) == Some(id),
    ensures
        entry_of(
            StoredView { dir, content: Some(sanitized(page_node(page, blocks))) },
        ) == Some(
            PrevView { id, dir, last_edited_time: or_empty(page.text_at("last_edited_time"@)) },
        ),
        blocks_in(sanitized(page_node(page, blocks))) == sanitized_items(blocks),
{
    reveal_strlit("id");
    reveal_strlit("last_edited_time");
    reveal_strlit("request_id");
    reveal_strlit("url");
    reveal_strlit("expiry_time");
    assert("id"@.len() == 2 && "last_edited_time"@.len() == 16);
    assert("request_id"@.len() == 10 && "url"@.len() == 3 && "expiry_time"@.len() == 11);
    lemma_sanitized_page_node(page, blocks);
    lemma_page_node_fields(sanitized(page), sanitized_items(blocks));
    lemma_sanitized_text(page, "id"@);
    lemma_sanitized_text(page, "last_edited_time"@);
}

/// A page that is written again with the blocks that were stored for it comes to the same content:
/// unchanged pages do not churn.
pub proof fn law_reused_pages_do_not_churn(page: JsonView, blocks: Seq<JsonView>)
    ensures
        sanitized(page_node(page, blocks_in(sanitized(page_node(page, blocks))))) == sanitized(
            page_node(page, blocks),
        ),
{
    lemma_sanitized_page_node(page, blocks);
    lemma_page_node_fields(sanitized(page), sanitized_items(blocks));
    let stored = sanitized_items(blocks);
    assert(blocks_in(sanitized(page_node(page, blocks))) == stored);
    lemma_sanitized_page_node(page, stored);
    lemma_sanitized_items_at(blocks);
    lemma_sanitized_items_at(stored);
    assert forall|i: int| 0 <= i < stored.len() implies sanitized_items(stored)[i]
        == #[trigger] stored[i] by {
        law_sanitizing_is_idempotent(blocks[i]);
    }
    assert(sanitized_items(stored) =~= stored);
}

/// Of the files that hold an object, the scan keeps the last one.
pub proof fn law_scan_keeps_the_last_file(files: Seq<StoredView>, k: int, entry: PrevView)
    requires
        0 <= k < files.len(),
        entry_of(files[k]) == Some(entry),
        forall|j: int|
            k < j < files.len() ==> (entry_of(#[trigger] files[j]) is None || entry_of(
                files[j],
            )->0.id != entry.id),
    ensures
        entry_for(scanned(files), entry.id) == Some(entry),
    decreases files.len(),
{
    let front = files.drop_last();
    let before = scanned(front);
    let last = entry_of(files.last());
    if k == files.len() - 1 {
        lemma_entry_index(before, entry.id);
        let i = entry_index(before, entry.id);
        let now = scanned(files);
        lemma_entry_index(now, entry.id);
        if i < before.len() {
            assert(now[i].id == entry.id);
            if entry_index(now, entry.id) < i {
                let j = entry_index(now, entry.id);
                assert(now[j] == before[j]);
            }
        } else {
            assert(now[i] == entry);
            if entry_index(now, entry.id) < i {
                let j = entry_index(now, entry.id);
                assert(now[j] == before[j]);
            }
        }
    } else {
        assert(front[k] == files[k]);
        assert forall|j: int| k < j < front.len() implies (entry_of(#[trigger] front[j]) is None
            || entry_of(front[j])->0.id != entry.id) by {
            assert(front[j] == files[j]);
        }
        law_scan_keeps_the_last_file(front, k, entry);
        if let Some(other) = last {
            assert(files[files.len() - 1] == files.last());
            assert(other.id != entry.id);
            lemma_entry_index(before, entry.id);
            lemma_entry_index(before, other.id);
            let now = scanned(files);
            lemma_entry_index(now, entry.id);
            let i = entry_index(before, entry.id);
            let j = entry_index(now, entry.id);
            assert(now[i] == before[i]);
            if j < i {
                assert(now[j] == before[j] || now[j] == other);
            }
        }
    }
}

/// Whether a field stays when an object is sanitized: it is no `request_id`, and where the object has
/// both a `url` and an `expiry_time`, it is neither of them.
pub open spec fn stays(fields: Seq<(Seq<char>, JsonView)>, key: Seq<char>) -> bool {
    let object = JsonView::Object(fields);
    &&& key != "request_id"@
    &&& object.get("url"@) is Some && object.get("expiry_time"@) is Some ==> key != "url"@ && key
        != "expiry_time"@
}

proof fn lemma_fields_that_stay(
    fields: Seq<(Seq<char>, JsonView)>,
    all: Seq<(Seq<char>, JsonView)>,
)
    ensures
        sanitized_fields(fields, is_signed_file(all)) == fields.filter(
            |f: (Seq<char>, JsonView)| stays(all, f.0),
        ).map_values(|f: (Seq<char>, JsonView)| (f.0, sanitized(f.1))),
    decreases fields.len(),
{
    reveal(Seq::filter);
    let kept = fields.filter(|f: (Seq<char>, JsonView)| stays(all, f.0));
    if fields.len() > 0 {
        lemma_fields_that_stay(fields.drop_last(), all);
    }
    assert(sanitized_fields(fields, is_signed_file(all)) =~= kept.map_values(
        |f: (Seq<char>, JsonView)| (f.0, sanitized(f.1)),
    ));
}

/// Sanitizing takes away the fields that change on every fetch and nothing else, at any depth: every
/// other field of an object stays, in order and under its name, and so does every item of a list;
/// texts, numbers and truth values stay as they are.
pub proof fn law_sanitizing_takes_nothing_else(
    fields: Seq<(Seq<char>, JsonView)>,
    items: Seq<JsonView>,
    scalar: JsonView,
)
    ensures
        sanitized(JsonView::Object(fields)) == JsonView::Object(
            fields.filter(|f: (Seq<char>, JsonView)| stays(fields, f.0)).map_values(
                |f: (Seq<char>, JsonView)| (f.0, sanitized(f.1)),
            ),
        ),
        sanitized(JsonView::Array(items)) == JsonView::Array(
            items.map_values(|v: JsonView| sanitized(v)),
        ),
        !(scalar is Object) && !(scalar is Array) ==> sanitized(scalar) == scalar,
{
    lemma_fields_that_stay(fields, fields);
    lemma_sanitized_items_at(items);
    assert(sanitized_items(items) =~= items.map_values(|v: JsonView| sanitized(v)));
}

/// An object of the earlier tree is known by the id in its file, with the directory of the file and
/// the time of last edit in it; a file without a readable object with an id is none.
pub proof fn law_stored_objects_are_known_by_their_ids(
    file: StoredView,
    content: JsonView,
    data: JsonView,
    id: Seq<char>,
)
    ensures
        file.content == Some(content) && content.get("data"@) == Some(data) && data.text_at("id"@)
            == Some(id) ==> entry_of(file) == Some(
            PrevView { id, dir: file.dir, last_edited_time: or_empty(data.text_at("last_edited_time"@)) },
        ),
        file.content is None ==> entry_of(file) is None,
        file.content == Some(content) && content.get("data"@) is None ==> entry_of(file) is None,
        file.content == Some(content) && content.get("data"@) == Some(data) && data.text_at(
            "id"@,
        ) is None ==> entry_of(file) is None,
{
}

/// Where a path leads: a name goes down, `..` goes up again, and at the top stays there.
pub proof fn law_dots_lead_up(dir: Seq<Seq<char>>, name: Seq<char>)
    requires
        name != ".."@,
    ensures
        resolved(dir.push(name)) == resolved(dir).push(name),
        name != "/"@ ==> resolved(dir.push(name).push(".."@)) == resolved(dir),
        resolved(seq!["/"@].push(".."@)) == seq!["/"@],
{
    let down = dir.push(name);
    let up = down.push(".."@);
    assert(down.drop_last() =~= dir);
    assert(up.drop_last() =~= down);
    assert(resolved(down).drop_last() =~= resolved(dir));
    reveal_strlit("/");
    reveal_strlit("..");
    assert("/"@.len() == 1 && ".."@.len() == 2);
    let top = seq!["/"@];
    assert(top.push(".."@).drop_last() =~= top);
    assert(top.drop_last() =~= Seq::empty());
    assert(resolved(top.drop_last()) =~= Seq::empty());
    assert(resolved(top) =~= top);
}

} // verus!
