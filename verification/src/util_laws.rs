//! What holds of ids, slugs, titles and flattened property values.

use vstd::prelude::*;

use crate::blocks::{items_of, plain, spans_plain};
use crate::json::{compact, JsonView};
use crate::text::{is_white_space, joined, or_empty, Edge};
use crate::text_laws::{is_edge, law_trimming_leaves_the_middle, law_white_space_is_that_of_unicode};
use crate::util::{
    before, cleaned, collapsed, hex_digits, is_unsafe, notion_id, objects_among, property_text,
    property_texts, rollup_text, slug, title_among, title_of_database, title_of_page, truncated,
};

verus! {

// ---------------------------------------------------------------------------
// Plain text
// ---------------------------------------------------------------------------
/// The text of a value, where it is one; else the empty text.
pub open spec fn text_or_nothing(value: Option<JsonView>) -> Seq<char> {
    match value {
        Some(JsonView::Text(s)) => s,
        _ => Seq::empty(),
    }
}

proof fn lemma_spans_plain_cat(a: Seq<JsonView>, b: Seq<JsonView>)
    ensures
        spans_plain(a + b) == spans_plain(a) + spans_plain(b),
    decreases b.len(),
{
    if b.len() == 0 {
        assert(a + b =~= a);
        assert(spans_plain(a) + Seq::empty() =~= spans_plain(a));
    } else {
        lemma_spans_plain_cat(a, b.drop_last());
        assert((a + b).drop_last() =~= a + b.drop_last());
        assert((a + b).last() == b.last());
        assert(spans_plain(a) + spans_plain(b.drop_last()) + text_or_nothing(
            b.last().get("plain_text"@),
        ) =~= spans_plain(a) + spans_plain(b));
    }
}

/// The unformatted text of a rich text is the `plain_text` of every span, in order and with nothing
/// between them. What is no array has no text.
pub proof fn law_plain_text_is_all_the_text(a: Seq<JsonView>, b: Seq<JsonView>, span: JsonView)
    ensures
        plain(Some(JsonView::Array(a + b))) == plain(Some(JsonView::Array(a))) + plain(
            Some(JsonView::Array(b)),
        ),
        plain(Some(JsonView::Array(seq![span]))) == text_or_nothing(span.get("plain_text"@)),
        plain(None) == Seq::<char>::empty(),
        span.items() is None ==> plain(Some(span)) == Seq::<char>::empty(),
{
    lemma_spans_plain_cat(a, b);
    let one = seq![span];
    assert(one.drop_last() =~= Seq::empty());
    assert(one.last() == span);
    assert(spans_plain(one.drop_last()) =~= Seq::empty());
    assert(Seq::<char>::empty() + text_or_nothing(span.get("plain_text"@)) =~= text_or_nothing(
        span.get("plain_text"@),
    ));
}

// ---------------------------------------------------------------------------
// Titles
// ---------------------------------------------------------------------------
proof fn lemma_title_among(props: Seq<(Seq<char>, JsonView)>, i: int)
    requires
        0 <= i <= props.len(),
        forall|j: int|
            0 <= j < i ==> (#[trigger] props[j]).1.text_at("type"@) != Some("title"@),
        i < props.len() ==> props[i].1.text_at("type"@) == Some("title"@),
    ensures
        title_among(props) == if i < props.len() {
            plain(props[i].1.get("title"@))
        } else {
            Seq::empty()
        },
    decreases i,
{
    if i > 0 {
        assert(props[0].1.text_at("type"@) != Some("title"@));
        let rest = props.skip(1);
        assert forall|j: int| 0 <= j < i - 1 implies (#[trigger] rest[j]).1.text_at("type"@) != Some(
            "title"@,
        ) by {
            assert(rest[j] == props[j + 1]);
        }
        lemma_title_among(rest, i - 1);
    }
}

/// The title of a page is the text of its first property of type `title`, whatever that is called
/// and wherever it stands; a page without one has no title. The title of a database is the text
/// under `title`.
pub proof fn law_titles_are_found(object: JsonView, props: Seq<(Seq<char>, JsonView)>, i: int)
    requires
        object.get("properties"@) == Some(JsonView::Object(props)),
        0 <= i <= props.len(),
        forall|j: int|
            0 <= j < i ==> (#[trigger] props[j]).1.text_at("type"@) != Some("title"@),
        i < props.len() ==> props[i].1.text_at("type"@) == Some("title"@),
    ensures
        i < props.len() ==> title_of_page(object) == plain(props[i].1.get("title"@)),
        i == props.len() ==> title_of_page(object) == Seq::<char>::empty(),
        title_of_database(object) == plain(object.get("title"@)),
{
    lemma_title_among(props, i);
}

// ---------------------------------------------------------------------------
// Property values
// ---------------------------------------------------------------------------
/// The names of the property types differ.
proof fn lemma_types()
    ensures
        "title"@.len() == 5,
        "rich_text"@.len() == 9,
        "number"@.len() == 6,
        "select"@.len() == 6,
        "status"@.len() == 6,
        "multi_select"@.len() == 12,
        "date"@.len() == 4,
        "checkbox"@.len() == 8,
        "url"@.len() == 3,
        "email"@.len() == 5,
        "phone_number"@.len() == 12,
        "people"@.len() == 6,
        "files"@.len() == 5,
        "relation"@.len() == 8,
        "created_time"@.len() == 12,
        "last_edited_time"@.len() == 16,
        "created_by"@.len() == 10,
        "last_edited_by"@.len() == 14,
        "unique_id"@.len() == 9,
        "formula"@.len() == 7,
        "rollup"@.len() == 6,
        "verification"@.len() == 12,
        "title"@[0] == 't',
        "email"@[0] == 'e',
        "files"@[0] == 'f',
        "rich_text"@[0] == 'r',
        "unique_id"@[0] == 'u',
        "number"@[3] == 'b',
        "select"@[3] == 'e',
        "status"@[3] == 't',
        "people"@[3] == 'p',
        "rollup"@[3] == 'l',
        "multi_select"@[0] == 'm',
        "phone_number"@[0] == 'p',
        "created_time"@[0] == 'c',
        "verification"@[0] == 'v',
        "checkbox"@[0] == 'c',
        "relation"@[0] == 'r',
{
    reveal_strlit("title");
    reveal_strlit("rich_text");
    reveal_strlit("number");
    reveal_strlit("select");
    reveal_strlit("status");
    reveal_strlit("multi_select");
    reveal_strlit("date");
    reveal_strlit("checkbox");
    reveal_strlit("url");
    reveal_strlit("email");
    reveal_strlit("phone_number");
    reveal_strlit("people");
    reveal_strlit("files");
    reveal_strlit("relation");
    reveal_strlit("created_time");
    reveal_strlit("last_edited_time");
    reveal_strlit("created_by");
    reveal_strlit("last_edited_by");
    reveal_strlit("unique_id");
    reveal_strlit("formula");
    reveal_strlit("rollup");
    reveal_strlit("verification");
}

/// Whether a property has a type, and a value of it.
pub open spec fn is_property(prop: JsonView, kind: Seq<char>, value: JsonView) -> bool {
    prop.text_at("type"@) == Some(kind) && prop.get(kind) == Some(value)
}

/// A property whose value is a plain text is flattened to that text.
pub proof fn law_plain_texts_stay(prop: JsonView, kind: Seq<char>, s: Seq<char>)
    requires
        kind == "url"@ || kind == "email"@ || kind == "phone_number"@ || kind == "created_time"@
            || kind == "last_edited_time"@,
        is_property(prop, kind, JsonView::Text(s)),
    ensures
        property_text(prop) == s,
{
    lemma_types();
}

/// Titles and rich texts are flattened to all their text.
pub proof fn law_rich_texts_are_flattened(prop: JsonView, kind: Seq<char>, value: JsonView)
    requires
        kind == "title"@ || kind == "rich_text"@,
        is_property(prop, kind, value),
    ensures
        property_text(prop) == plain(Some(value)),
{
    lemma_types();
}

/// A number is written as it is, and a truth value in lower case: a checkbox is `true` exactly where
/// it is ticked.
pub proof fn law_numbers_and_ticks_stay(prop: JsonView, value: JsonView, number: Seq<char>)
    ensures
        is_property(prop, "number"@, JsonView::Number(number)) ==> property_text(prop) == number,
        is_property(prop, "checkbox"@, value) ==> property_text(prop) == if value
            == JsonView::Bool(true) {
            "true"@
        } else {
            "false"@
        },
        prop.text_at("type"@) == Some("checkbox"@) && prop.get("checkbox"@) is None
            ==> property_text(prop) == "false"@,
{
    lemma_types();
}

/// The option of a choice is flattened to its name, and a verification to its state.
pub proof fn law_choices_give_their_names(prop: JsonView, kind: Seq<char>, value: JsonView)
    requires
        is_property(prop, kind, value),
    ensures
        kind == "select"@ || kind == "status"@ ==> property_text(prop) == text_or_nothing(
            value.get("name"@),
        ),
        kind == "verification"@ ==> property_text(prop) == text_or_nothing(value.get("state"@)),
{
    lemma_types();
}

proof fn lemma_objects(items: Seq<JsonView>)
    ensures
        objects_among(items) == items.filter(|v: JsonView| v is Object),
    decreases items.len(),
{
    reveal(Seq::filter);
    if items.len() > 0 {
        lemma_objects(items.drop_last());
    } else {
        assert(objects_among(items) =~= items);
    }
}

/// A list is flattened to one text for every object in it, in order, with a comma and a blank
/// between them: the names of options and files, the ids of related pages, and of people their names
/// or else their ids.
pub proof fn law_lists_name_every_object(
    prop: JsonView,
    kind: Seq<char>,
    items: Seq<JsonView>,
    names: Seq<Seq<char>>,
)
    requires
        is_property(prop, kind, JsonView::Array(items)),
        names.len() == items.filter(|v: JsonView| v is Object).len(),
        forall|i: int|
            0 <= i < names.len() ==> #[trigger] names[i] == ({
                let object = items.filter(|v: JsonView| v is Object)[i];
                if kind == "relation"@ {
                    text_or_nothing(object.get("id"@))
                } else if kind == "people"@ && object.text_at("name"@) is None {
                    text_or_nothing(object.get("id"@))
                } else {
                    text_or_nothing(object.get("name"@))
                }
            }),
    ensures
        kind == "multi_select"@ || kind == "files"@ || kind == "relation"@ || kind == "people"@
            ==> property_text(prop) == joined(names, ", "@),
{
    lemma_types();
    lemma_objects(items);
    let objects = objects_among(items);
    assert(items_of(prop.get(kind)) == items);
    if kind == "multi_select"@ || kind == "files"@ {
        assert(names =~= objects.map_values(
            |v: JsonView| or_empty(v.text_at("name"@)),
        ));
    } else if kind == "relation"@ {
        assert(names =~= objects.map_values(
            |v: JsonView| or_empty(v.text_at("id"@)),
        ));
    } else if kind == "people"@ {
        assert(names =~= objects.map_values(|v: JsonView| crate::util::name_or_id_of(v)));
    }
}

/// Whoever made or edited a page is flattened to a name, or else to an id.
pub proof fn law_users_give_their_names(prop: JsonView, kind: Seq<char>, user: JsonView)
    requires
        kind == "created_by"@ || kind == "last_edited_by"@,
        is_property(prop, kind, user),
    ensures
        user.text_at("name"@) is Some ==> Some(property_text(prop)) == user.text_at("name"@),
        user.text_at("name"@) is None ==> property_text(prop) == text_or_nothing(user.get("id"@)),
{
    lemma_types();
}

/// What a date comes to: its start, and where there is an end, that behind an arrow.
pub open spec fn is_date_text(date: JsonView, text: Seq<char>) -> bool {
    let start = text_or_nothing(date.get("start"@));
    let end = text_or_nothing(date.get("end"@));
    text == if end.len() == 0 {
        start
    } else {
        start + " \u{2192} "@ + end
    }
}

/// A date is flattened to its start, and a range to both ends, whether it is a property of its own
/// or what a formula or a rollup came to.
pub proof fn law_dates_keep_both_ends(prop: JsonView, value: JsonView, date: JsonView)
    ensures
        is_property(prop, "date"@, date) ==> is_date_text(date, property_text(prop)),
        is_property(prop, "formula"@, value) && is_property(value, "date"@, date) ==> is_date_text(
            date,
            property_text(prop),
        ),
        is_property(prop, "rollup"@, value) && is_property(value, "date"@, date) ==> is_date_text(
            date,
            property_text(prop),
        ),
{
    lemma_types();
    reveal_strlit("array");
    assert("array"@.len() == 5);
}

/// A unique id is its prefix, where it has one, and its number, where it has one.
pub proof fn law_unique_ids_are_whole(prop: JsonView, id: JsonView, number: Seq<char>)
    requires
        is_property(prop, "unique_id"@, id),
    ensures
        id.get("number"@) == Some(JsonView::Number(number)) ==> property_text(prop)
            == text_or_nothing(id.get("prefix"@)) + number,
        id.get("number"@) is None || id.get("number"@) == Some(JsonView::Null) ==> property_text(
            prop,
        ) == text_or_nothing(id.get("prefix"@)),
{
    lemma_types();
    let prefix = text_or_nothing(id.get("prefix"@));
    assert(prefix + Seq::empty() =~= prefix);
}

/// What is no list names nothing, and a rollup of no list holds nothing.
pub proof fn law_what_is_no_list_is_empty(prop: JsonView, kind: Seq<char>, value: JsonView)
    requires
        is_property(prop, kind, value),
    ensures
        (kind == "multi_select"@ || kind == "files"@ || kind == "relation"@ || kind == "people"@)
            && !(value is Array) ==> property_text(prop).len() == 0,
        kind == "rollup"@ && value.text_at("type"@) == Some("array"@) && value.items_at(
            "array"@,
        ) is None ==> property_text(prop).len() == 0,
{
    lemma_types();
    if !(value is Array) {
        assert(objects_among(items_of(prop.get(kind))) =~= Seq::empty());
    }
}

/// A formula or a rollup is flattened to what it came to: a text or a number as it is. The truth
/// value of a formula is written in lower case.
pub proof fn law_results_are_flattened(
    prop: JsonView,
    value: JsonView,
    kind: Seq<char>,
    inner: JsonView,
)
    requires
        is_property(prop, "formula"@, value) || is_property(prop, "rollup"@, value),
        is_property(value, kind, inner),
        kind != "date"@,
    ensures
        kind == "number"@ ==> (inner matches JsonView::Number(n) ==> property_text(prop) == n),
        kind == "string"@ ==> (inner matches JsonView::Text(s) ==> property_text(prop) == s),
        kind == "boolean"@ && is_property(prop, "formula"@, value) ==> property_text(prop)
            == if inner == JsonView::Bool(true) {
            "true"@
        } else {
            "false"@
        },
        kind != "array"@ && !(kind == "boolean"@ && is_property(prop, "formula"@, value)) ==> (
        match inner {
            JsonView::Number(n) => property_text(prop) == n,
            JsonView::Text(s) => property_text(prop) == s,
            JsonView::Bool(b) => property_text(prop) == if b {
                "True"@
            } else {
                "False"@
            },
            JsonView::Null => property_text(prop).len() == 0,
            _ => true,
        }),
{
    lemma_types();
    reveal_strlit("array");
    reveal_strlit("string");
    reveal_strlit("boolean");
    assert("array"@.len() == 5 && "string"@.len() == 6 && "boolean"@.len() == 7);
}

proof fn lemma_property_texts(items: Seq<JsonView>)
    ensures
        property_texts(items) == items.filter(|v: JsonView| v is Object).map_values(
            |v: JsonView| property_text(v),
        ),
    decreases items.len(),
{
    reveal(Seq::filter);
    let objects = items.filter(|v: JsonView| v is Object);
    if items.len() > 0 {
        lemma_property_texts(items.drop_last());
    }
    assert(property_texts(items) =~= objects.map_values(|v: JsonView| property_text(v)));
}

/// A rollup of several properties is flattened to the texts of all of them, in order, with a
/// semicolon and a blank between them.
pub proof fn law_rollups_hold_every_property(
    prop: JsonView,
    value: JsonView,
    items: Seq<JsonView>,
    parts: Seq<Seq<char>>,
)
    requires
        is_property(prop, "rollup"@, value),
        is_property(value, "array"@, JsonView::Array(items)),
        parts == items.filter(|v: JsonView| v is Object).map_values(
            |v: JsonView| property_text(v),
        ),
    ensures
        property_text(prop) == joined(parts, "; "@),
{
    lemma_types();
    reveal_strlit("array");
    lemma_property_texts(items);
    assert(rollup_text(value) == joined(property_texts(items), "; "@));
}

/// Of any other type a text stays as it is, a number too, a truth value is capitalised, and nothing
/// is left of a null. A property without a value is empty, a checkbox apart.
pub proof fn law_other_properties_degrade_to_text(prop: JsonView, kind: Seq<char>, value: JsonView)
    requires
        prop.text_at("type"@) == Some(kind),
        kind != "checkbox"@,
    ensures
        prop.get(kind) is None ==> property_text(prop) == Seq::<char>::empty(),
        prop.get(kind) == Some(JsonView::Null) ==> property_text(prop) == Seq::<char>::empty(),
        prop.get(kind) == Some(value) && !seq![
            "title"@,
            "rich_text"@,
            "select"@,
            "status"@,
            "multi_select"@,
            "date"@,
            "url"@,
            "email"@,
            "phone_number"@,
            "people"@,
            "files"@,
            "relation"@,
            "created_time"@,
            "last_edited_time"@,
            "created_by"@,
            "last_edited_by"@,
            "unique_id"@,
            "formula"@,
            "rollup"@,
            "verification"@,
        ].contains(kind) ==> match value {
            JsonView::Text(s) => property_text(prop) == s,
            JsonView::Number(n) => property_text(prop) == n,
            JsonView::Bool(b) => property_text(prop) == if b {
                "True"@
            } else {
                "False"@
            },
            JsonView::Null => property_text(prop).len() == 0,
            other => property_text(prop) == compact(other),
        },
{
    lemma_types();
    reveal_strlit("array");
    reveal_strlit("boolean");
    assert("array"@.len() == 5 && "boolean"@.len() == 7);
    if prop.get(kind) == Some(JsonView::Null) {
        assert(Seq::<char>::empty() + Seq::<char>::empty() =~= Seq::empty());
        assert(items_of(prop.get(kind)) =~= Seq::empty());
        if kind == "rollup"@ {
            assert(rollup_text(JsonView::Null) =~= Seq::empty());
        }
    }
}

// ---------------------------------------------------------------------------
// Object ids
// ---------------------------------------------------------------------------
/// Whether a character is a hexadecimal digit.
pub open spec fn is_digit(c: char) -> bool {
    '0' <= c <= '9' || 'a' <= c <= 'f' || 'A' <= c <= 'F'
}

proof fn lemma_before_cat(a: Seq<char>, b: Seq<char>, stop: char)
    ensures
        before(a + b, stop) == if a.contains(stop) {
            before(a, stop)
        } else {
            a + before(b, stop)
        },
    decreases a.len(),
{
    if a.len() == 0 {
        assert(a + b =~= b);
        assert(a + before(b, stop) =~= before(b, stop));
    } else {
        let rest = a.skip(1);
        lemma_before_cat(rest, b, stop);
        assert((a + b).skip(1) =~= rest + b);
        assert((a + b)[0] == a[0]);
        if a[0] == stop {
            assert(a.contains(stop));
        } else {
            if rest.contains(stop) {
                let k = choose|k: int| 0 <= k < rest.len() && rest[k] == stop;
                assert(a[k + 1] == stop);
            } else if a.contains(stop) {
                let k = choose|k: int| 0 <= k < a.len() && a[k] == stop;
                assert(rest[k - 1] == stop);
            } else {
                assert(seq![a[0]] + (rest + before(b, stop)) =~= a + before(b, stop));
            }
        }
    }
}

proof fn lemma_before_none(s: Seq<char>, stop: char)
    requires
        !s.contains(stop),
    ensures
        before(s, stop) == s,
{
    lemma_before_cat(s, Seq::empty(), stop);
    assert(s + Seq::empty() =~= s);
    assert(s + before(Seq::empty(), stop) =~= s);
}

proof fn lemma_before_holds(s: Seq<char>, stop: char, other: char)
    requires
        !s.contains(other),
    ensures
        !before(s, stop).contains(other),
    decreases s.len(),
{
    if s.len() > 0 && s[0] != stop {
        let rest = s.skip(1);
        assert(!rest.contains(other)) by {
            if rest.contains(other) {
                let k = choose|k: int| 0 <= k < rest.len() && rest[k] == other;
                assert(s[k + 1] == other);
            }
        }
        lemma_before_holds(rest, stop, other);
        let out = before(s, stop);
        if out.contains(other) {
            let k = choose|k: int| 0 <= k < out.len() && out[k] == other;
            if k == 0 {
                assert(s[0] == other);
            } else {
                assert(before(rest, stop)[k - 1] == other);
            }
        }
    }
}

proof fn lemma_hex_digits(s: Seq<char>)
    ensures
        hex_digits(s) == s.filter(|c: char| is_digit(c)),
    decreases s.len(),
{
    reveal(Seq::filter);
    if s.len() > 0 {
        lemma_hex_digits(s.drop_last());
    } else {
        assert(hex_digits(s) =~= s);
    }
}

proof fn lemma_all_digits(s: Seq<char>, i: int)
    requires
        0 <= i < s.filter(|c: char| is_digit(c)).len(),
    ensures
        is_digit(s.filter(|c: char| is_digit(c))[i]),
    decreases s.len(),
{
    reveal(Seq::filter);
    let front = s.drop_last();
    if i < front.filter(|c: char| is_digit(c)).len() {
        lemma_all_digits(front, i);
    }
}

/// The id in a text is its last 32 hexadecimal digits, in lower case, whatever stands between them
/// and in front of them; a text with fewer digits has none.
pub proof fn law_ids_are_the_last_digits(value: Seq<char>)
    requires
        !value.contains('?'),
        !value.contains('#'),
    ensures
        ({
            let digits = value.filter(|c: char| is_digit(c));
            &&& notion_id(value) is None <==> digits.len() < 32
            &&& notion_id(value) matches Some(id) ==> {
                &&& id.len() == 32
                &&& forall|i: int|
                    0 <= i < 32 ==> {
                        let d = digits[digits.len() - 32 + i];
                        &&& 'A' <= d <= 'F' ==> #[trigger] id[i] as u32 == d as u32 + 32
                        &&& !('A' <= d <= 'F') ==> id[i] == d
                    }
            }
        }),
{
    lemma_before_none(value, '?');
    lemma_before_none(value, '#');
    lemma_hex_digits(value);
    let digits = value.filter(|c: char| is_digit(c));
    if let Some(id) = notion_id(value) {
        assert forall|i: int| 0 <= i < 32 implies ({
            let d = digits[digits.len() - 32 + i];
            &&& 'A' <= d <= 'F' ==> #[trigger] id[i] as u32 == d as u32 + 32
            &&& !('A' <= d <= 'F') ==> id[i] == d
        }) by {
            let d = digits[digits.len() - 32 + i];
            lemma_all_digits(value, digits.len() - 32 + i);
            assert(digits.skip(digits.len() - 32)[i] == d);
        }
    }
}

/// What stands behind a question mark or a hash does not belong to the id.
pub proof fn law_queries_are_no_part_of_ids(s: Seq<char>, t: Seq<char>)
    ensures
        !s.contains('?') ==> notion_id(s + seq!['?'] + t) == notion_id(s),
        !s.contains('#') ==> notion_id(s + seq!['#'] + t) == notion_id(s),
{
    if !s.contains('?') {
        let tail = seq!['?'] + t;
        assert(s + seq!['?'] + t =~= s + tail);
        lemma_before_cat(s, tail, '?');
        assert(before(tail, '?') =~= Seq::empty());
        assert(s + Seq::empty() =~= s);
        lemma_before_none(s, '?');
    }
    if !s.contains('#') {
        let tail = seq!['#'] + t;
        let all = s + seq!['#'] + t;
        assert(all =~= s + tail);
        lemma_before_cat(s, tail, '?');
        if !s.contains('?') {
            lemma_before_none(s, '?');
            lemma_before_none(s, '#');
            lemma_before_cat(seq!['#'], t, '?');
            let rest = before(tail, '?');
            assert(rest[0] == '#');
            assert(before(rest, '#') =~= Seq::empty());
            lemma_before_cat(s, rest, '#');
            assert(s + Seq::empty() =~= s);
        }
    }
}

// ---------------------------------------------------------------------------
// Slugs
// ---------------------------------------------------------------------------
/// Whether a character may not stand in the name of a file on some system, or is a control
/// character.
pub open spec fn is_forbidden(c: char) -> bool {
    seq!['\\', '/', ':', '*', '?', '"', '<', '>', '|'].contains(c) || (c as u32) < 32
}

proof fn lemma_forbidden(c: char)
    ensures
        is_unsafe(c) == is_forbidden(c),
{
    let list = seq!['\\', '/', ':', '*', '?', '"', '<', '>', '|'];
    if is_unsafe(c) && (c as u32) >= 32 {
        let i: int = if c == '\\' {
            0
        } else if c == '/' {
            1
        } else if c == ':' {
            2
        } else if c == '*' {
            3
        } else if c == '?' {
            4
        } else if c == '"' {
            5
        } else if c == '<' {
            6
        } else if c == '>' {
            7
        } else {
            8
        };
        assert(list[i] == c);
    }
}

/// Whether a text could be the name of a directory as it stands: no forbidden character, and no white
/// space but single blanks.
pub open spec fn is_tidy(s: Seq<char>) -> bool {
    &&& forall|i: int| 0 <= i < s.len() ==> !is_forbidden(#[trigger] s[i])
    &&& forall|i: int| 0 <= i < s.len() && is_edge(Edge::WhiteSpace, #[trigger] s[i]) ==> s[i] == ' '
    &&& forall|i: int, j: int|
        0 <= i && j == i + 1 && j < s.len() && #[trigger] s[i] == ' ' ==> #[trigger] s[j] != ' '
}

proof fn lemma_tidy(s: Seq<char>)
    requires
        is_tidy(s),
    ensures
        cleaned(s) == s,
        collapsed(s) == s,
    decreases s.len(),
{
    assert forall|i: int| 0 <= i < s.len() implies cleaned(s)[i] == s[i] by {
        lemma_forbidden(s[i]);
        assert(!is_forbidden(s[i]));
    }
    assert(cleaned(s) =~= s);
    if s.len() > 0 {
        let front = s.drop_last();
        assert forall|i: int| 0 <= i < front.len() implies !is_forbidden(#[trigger] front[i]) && (
        is_edge(Edge::WhiteSpace, front[i]) ==> front[i] == ' ') by {
            assert(front[i] == s[i]);
        }
        assert forall|i: int, j: int|
            0 <= i && j == i + 1 && j < front.len() && #[trigger] front[i] == ' ' implies
            #[trigger] front[j] != ' ' by {
            assert(front[i] == s[i] && front[j] == s[j]);
        }
        lemma_tidy(front);
        let n = s.len() - 1;
        law_white_space_is_that_of_unicode(s[n]);
        if n > 0 {
            law_white_space_is_that_of_unicode(s[n - 1]);
            if is_white_space(s[n]) {
                assert(s[n] == ' ');
                assert(is_white_space(s[n - 1]) ==> s[n - 1] == ' ');
                assert(s[n - 1] == ' ' ==> s[n] != ' ');
            }
        }
        assert(front.push(s.last()) =~= s);
    } else {
        assert(collapsed(s) =~= s);
    }
}

/// A title that could name a directory as it stands is its own slug, whatever dots stand around it:
/// only what is longer than 80 characters is cut off.
pub proof fn law_tidy_titles_stay(front: Seq<char>, title: Seq<char>, back: Seq<char>)
    requires
        title.len() > 0,
        is_tidy(title),
        !is_edge(Edge::WhiteSpace, title[0]) && title[0] != '.',
        !is_edge(Edge::WhiteSpace, title.last()) && title.last() != '.',
        forall|i: int| 0 <= i < front.len() ==> #[trigger] front[i] == '.',
        forall|i: int| 0 <= i < back.len() ==> #[trigger] back[i] == '.',
    ensures
        title.len() <= 80 ==> slug(front + title + back) == title,
        title.len() > 80 && !is_edge(Edge::WhiteSpace, title[79]) ==> slug(front + title + back)
            == title.take(80),
{
    reveal_strlit(".");
    reveal_strlit("..");
    let all = front + title + back;
    assert forall|i: int| 0 <= i < all.len() implies !is_forbidden(#[trigger] all[i]) && (is_edge(
        Edge::WhiteSpace,
        all[i],
    ) ==> all[i] == ' ') && (all[i] == ' ' ==> front.len() < i < front.len() + title.len() - 1) by {
        lemma_forbidden('.');
        law_white_space_is_that_of_unicode('.');
        if i < front.len() {
            assert(all[i] == front[i]);
        } else if i < front.len() + title.len() {
            assert(all[i] == title[i - front.len()]);
            if all[i] == ' ' {
                law_white_space_is_that_of_unicode(' ');
            }
        } else {
            assert(all[i] == back[i - front.len() - title.len()]);
        }
    }
    assert forall|i: int, j: int|
        0 <= i && j == i + 1 && j < all.len() && #[trigger] all[i] == ' ' implies #[trigger] all[j]
        != ' ' by {
        assert(all[i] == title[i - front.len()]);
        assert(all[j] == title[j - front.len()]);
    }
    lemma_tidy(all);
    assert(!is_edge(Edge::WhiteSpace, all[0])) by {
        if is_edge(Edge::WhiteSpace, all[0]) {
            assert(all[0] == ' ');
        }
    }
    assert(!is_edge(Edge::WhiteSpace, all.last())) by {
        if is_edge(Edge::WhiteSpace, all[all.len() - 1]) {
            assert(all[all.len() - 1] == ' ');
        }
    }
    law_trimming_leaves_the_middle(Seq::empty(), all, Seq::empty(), Edge::WhiteSpace);
    assert(Seq::<char>::empty() + all + Seq::<char>::empty() =~= all);
    law_trimming_leaves_the_middle(front, title, back, Edge::Dots);
    let short = truncated(title, 80);
    if title.len() <= 80 {
        assert(short == title);
    } else {
        assert(short == title.take(80));
    }
    if title.len() <= 80 || !is_edge(Edge::WhiteSpace, title[79]) {
        law_trimming_leaves_the_middle(Seq::empty(), short, Seq::empty(), Edge::WhiteSpace);
        assert(Seq::<char>::empty() + short + Seq::<char>::empty() =~= short);
        assert(short[0] == title[0]);
        assert(short != "."@ && short != ".."@);
    }
}

/// A forbidden character counts as a blank, wherever it stands.
pub proof fn law_forbidden_characters_are_blanks(a: Seq<char>, c: char, b: Seq<char>)
    requires
        is_forbidden(c),
    ensures
        slug(a + seq![c] + b) == slug(a + seq![' '] + b),
{
    lemma_forbidden(c);
    assert(cleaned(a + seq![c] + b) =~= cleaned(a + seq![' '] + b));
}

proof fn lemma_collapse_run(a: Seq<char>, u: char, v: char, b: Seq<char>)
    requires
        is_white_space(u),
        is_white_space(v),
    ensures
        collapsed(a + seq![u, v] + b) == collapsed(a + seq![' '] + b),
    decreases b.len(),
{
    let x = a + seq![u, v] + b;
    let y = a + seq![' '] + b;
    if b.len() == 0 {
        assert(x.drop_last() =~= a + seq![u]);
        assert(y.drop_last() =~= a);
        assert(x.last() == v && y.last() == ' ');
        assert((a + seq![u]).last() == u);
        assert((a + seq![u]).drop_last() =~= a);
        assert(collapsed(x) == collapsed(a + seq![u]));
    } else {
        let front = b.drop_last();
        lemma_collapse_run(a, u, v, front);
        assert(x.drop_last() =~= a + seq![u, v] + front);
        assert(y.drop_last() =~= a + seq![' '] + front);
        assert(x.last() == b.last() && y.last() == b.last());
        if front.len() > 0 {
            assert(x.drop_last().last() == front.last());
            assert(y.drop_last().last() == front.last());
        } else {
            assert(x.drop_last().last() == v);
            assert(y.drop_last().last() == ' ');
        }
    }
}

/// A run of white space counts as one blank, wherever it stands.
pub proof fn law_white_space_runs_are_one_blank(a: Seq<char>, u: char, v: char, b: Seq<char>)
    requires
        is_edge(Edge::WhiteSpace, u),
        is_edge(Edge::WhiteSpace, v),
    ensures
        slug(a + seq![u, v] + b) == slug(a + seq![' '] + b),
{
    law_white_space_is_that_of_unicode(u);
    law_white_space_is_that_of_unicode(v);
    let one = |c: char|
        if is_unsafe(c) {
            ' '
        } else {
            c
        };
    assert(cleaned(a + seq![u, v] + b) =~= cleaned(a) + seq![one(u), one(v)] + cleaned(b));
    assert(cleaned(a + seq![' '] + b) =~= cleaned(a) + seq![' '] + cleaned(b));
    lemma_collapse_run(cleaned(a), one(u), one(v), cleaned(b));
}

proof fn lemma_collapse_blank(s: Seq<char>)
    requires
        forall|i: int| 0 <= i < s.len() ==> is_white_space(#[trigger] s[i]),
    ensures
        collapsed(s) == if s.len() == 0 {
            Seq::<char>::empty()
        } else {
            seq![' ']
        },
    decreases s.len(),
{
    if s.len() > 0 {
        let front = s.drop_last();
        assert forall|i: int| 0 <= i < front.len() implies is_white_space(#[trigger] front[i]) by {
            assert(front[i] == s[i]);
        }
        lemma_collapse_blank(front);
        assert(is_white_space(s[s.len() - 1]));
        if front.len() > 0 {
            assert(is_white_space(front[front.len() - 1]));
        }
        assert(collapsed(s) =~= seq![' ']);
    }
}

/// A title of nothing but blanks and forbidden characters, or of nothing but dots, counts as
/// missing.
pub proof fn law_empty_titles_are_untitled(title: Seq<char>)
    requires
        (forall|i: int|
            0 <= i < title.len() ==> is_forbidden(#[trigger] title[i]) || is_edge(
                Edge::WhiteSpace,
                title[i],
            )) || forall|i: int| 0 <= i < title.len() ==> #[trigger] title[i] == '.',
    ensures
        slug(title) == "untitled"@,
{
    let clean = cleaned(title);
    let none = Seq::<char>::empty();
    law_trimming_leaves_the_middle(none, none, none, Edge::WhiteSpace);
    law_trimming_leaves_the_middle(none, none, none, Edge::Dots);
    assert(none + none + none =~= none);
    if forall|i: int| 0 <= i < title.len() ==> #[trigger] title[i] == '.' {
        assert(is_tidy(title)) by {
            lemma_forbidden('.');
            law_white_space_is_that_of_unicode('.');
            assert forall|i: int| 0 <= i < title.len() implies !is_forbidden(#[trigger] title[i])
                && !is_edge(Edge::WhiteSpace, title[i]) by {
                assert(title[i] == '.');
            }
        }
        lemma_tidy(title);
        law_white_space_is_that_of_unicode('.');
        if title.len() > 0 {
            assert(title[0] == '.' && title[title.len() - 1] == '.');
            law_trimming_leaves_the_middle(none, title, none, Edge::WhiteSpace);
            assert(none + title + none =~= title);
        } else {
            assert(title =~= none);
        }
        law_trimming_leaves_the_middle(title, none, none, Edge::Dots);
        assert(title + none + none =~= title);
    } else {
        assert forall|i: int| 0 <= i < clean.len() implies is_white_space(#[trigger] clean[i]) by {
            lemma_forbidden(title[i]);
            law_white_space_is_that_of_unicode(title[i]);
        }
        lemma_collapse_blank(clean);
        let single = collapsed(clean);
        law_white_space_is_that_of_unicode(' ');
        assert forall|i: int| 0 <= i < single.len() implies is_edge(
            Edge::WhiteSpace,
            #[trigger] single[i],
        ) by {}
        law_trimming_leaves_the_middle(single, none, none, Edge::WhiteSpace);
        assert(single + none + none =~= single);
    }
    assert(truncated(none, 80) =~= none);
}

} // verus!
