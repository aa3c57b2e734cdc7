//! Pure helpers shared by the dump (JSON) and render (Markdown/CSV) stages.

use vstd::prelude::*;
use vstd::string::*;

use crate::blocks::{items_of, plain, plain_text};
use crate::json::{
    compact, lemma_get_smaller, lemma_items_at_smaller, view_in, views, Fields, Json, JsonView,
};
use crate::text::{
    cat2, cat3, chars_of, covers, is_white_space, join, joined, lemma_trim_range, lower, or_empty,
    same, string_of, text_between, texts, trim, trimmed, Edge,
};

verus! {

/// The longest slug, in characters.
pub const MAX_SLUG_LEN: usize = 80;

/// The characters that a directory name must not hold.
pub const UNSAFE_CHARS: &'static str = "[\\\\/:*?\"<>|\\x00-\\x1f]";

/// A run of white space.
pub const WHITESPACE: &'static str = "\\s+";

// ---------------------------------------------------------------------------
// Object ids
// ---------------------------------------------------------------------------
/// `s` up to the first `stop`.
pub open spec fn before(s: Seq<char>, stop: char) -> Seq<char>
    decreases s.len(),
{
    if s.len() == 0 || s[0] == stop {
        Seq::empty()
    } else {
        seq![s[0]] + before(s.skip(1), stop)
    }
}

/// Whether the character is an ASCII hexadecimal digit.
pub open spec fn is_hex(c: char) -> bool {
    '0' <= c <= '9' || 'a' <= c <= 'f' || 'A' <= c <= 'F'
}

/// The hexadecimal digits of `s`, in order.
pub open spec fn hex_digits(s: Seq<char>) -> Seq<char>
    decreases s.len(),
{
    if s.len() == 0 {
        Seq::empty()
    } else if is_hex(s.last()) {
        hex_digits(s.drop_last()).push(s.last())
    } else {
        hex_digits(s.drop_last())
    }
}

/// The object id in an id or URL: the last 32 hexadecimal digits in front of query and fragment.
pub open spec fn notion_id(value: Seq<char>) -> Option<Seq<char>> {
    let digits = hex_digits(before(before(value, '?'), '#'));
    if digits.len() >= 32 {
        Some(digits.skip(digits.len() - 32).map_values(|c: char| lower(c)))
    } else {
        None
    }
}

proof fn lemma_before_at(s: Seq<char>, stop: char, i: int)
    requires
        0 <= i <= s.len(),
        forall|j: int| 0 <= j < i ==> #[trigger] s[j] != stop,
        i < s.len() ==> s[i] == stop,
    ensures
        before(s, stop) == s.take(i),
    decreases i,
{
    if i == 0 {
        assert(s.take(0) =~= Seq::empty());
    } else {
        assert(s[0] != stop);
        let t = s.skip(1);
        assert forall|j: int| 0 <= j < i - 1 implies #[trigger] t[j] != stop by {
            assert(t[j] == s[j + 1]);
        }
        lemma_before_at(t, stop, i - 1);
        assert(seq![s[0]] + t.take(i - 1) =~= s.take(i));
    }
}

/// The position of the first `stop` at or behind none of the first `end` characters.
fn find_char(chars: &Vec<char>, end: usize, stop: char) -> (r: usize)
    requires
        end <= chars@.len(),
    ensures
        r <= end,
        before(chars@.take(end as int), stop) == chars@.take(r as int),
{
    let mut i: usize = 0;
    while i < end && chars[i] != stop
        invariant
            i <= end <= chars@.len(),
            forall|j: int| 0 <= j < i ==> #[trigger] chars@[j] != stop,
        decreases end - i,
    {
        i += 1;
    }
    proof {
        lemma_before_at(chars@.take(end as int), stop, i as int);
        assert(chars@.take(end as int).take(i as int) =~= chars@.take(i as int));
    }
    i
}

fn is_hex_digit(c: char) -> (r: bool)
    ensures
        r == is_hex(c),
{
    ('0' <= c && c <= '9') || ('a' <= c && c <= 'f') || ('A' <= c && c <= 'F')
}

fn lower_ascii(c: char) -> (r: char)
    requires
        is_hex(c),
    ensures
        r == lower(c),
{
    if 'A' <= c && c <= 'Z' {
        (c as u8 + 32) as char
    } else {
        c
    }
}

proof fn lemma_hex_digits_are_hex(s: Seq<char>)
    ensures
        forall|i: int| 0 <= i < hex_digits(s).len() ==> is_hex(#[trigger] hex_digits(s)[i]),
    decreases s.len(),
{
    if s.len() > 0 {
        let front = hex_digits(s.drop_last());
        lemma_hex_digits_are_hex(s.drop_last());
        assert forall|i: int| 0 <= i < hex_digits(s).len() implies is_hex(
            #[trigger] hex_digits(s)[i],
        ) by {
            if i < front.len() {
                assert(hex_digits(s)[i] == front[i]);
            }
        }
    }
}

/// Extracts a Notion object id (32 hex digits, dashes stripped) from an id or URL.
///
/// Handles raw UUIDs, full page URLs that end in the id, and links such as
/// `/Page-Title-<id>?v=...`. There is none where fewer than 32 digits can be found.
pub fn normalize_notion_id(value: Option<&str>) -> (r: Option<String>)
    ensures
        string_of(r) == match value {
            Some(v) => notion_id(v@),
            None => None,
        },
{
    let text: &str = match value {
        Some(v) => v,
        None => {
            return None;
        },
    };
    let chars: Vec<char> = chars_of(text);
    assert(chars@.take(chars@.len() as int) =~= chars@);
    let query: usize = find_char(&chars, chars.len(), '?');
    let end: usize = find_char(&chars, query, '#');
    let mut digits: Vec<char> = Vec::new();
    let mut i: usize = 0;
    while i < end
        invariant
            i <= end <= chars@.len(),
            digits@ == hex_digits(chars@.take(i as int)),
        decreases end - i,
    {
        proof {
            let grown = chars@.take(i + 1);
            assert(grown.drop_last() =~= chars@.take(i as int));
            assert(grown.last() == chars@[i as int]);
        }
        if is_hex_digit(chars[i]) {
            digits.push(chars[i]);
        }
        i += 1;
    }
    let ghost all = digits@;
    assert(all == hex_digits(before(before(text@, '?'), '#')));
    if digits.len() < 32 {
        return None;
    }
    let start: usize = digits.len() - 32;
    let mut out: String = String::new();
    let mut k: usize = start;
    let ghost wanted = all.skip(start as int).map_values(|c: char| lower(c));
    proof {
        lemma_hex_digits_are_hex(chars@.take(end as int));
        assert(wanted.take(0) =~= Seq::empty());
    }
    while k < digits.len()
        invariant
            start <= k <= digits@.len(),
            digits@ == all,
            wanted == all.skip(start as int).map_values(|c: char| lower(c)),
            forall|j: int| 0 <= j < all.len() ==> is_hex(#[trigger] all[j]),
            out@ == wanted.take(k - start),
        decreases digits@.len() - k,
    {
        out.push(lower_ascii(digits[k]));
        k += 1;
        assert(wanted.take(k - start) =~= wanted.take(k - 1 - start).push(lower(all[k - 1])));
    }
    assert(wanted.take(k - start) =~= wanted);
    Some(out)
}

// ---------------------------------------------------------------------------
// Slugs
// ---------------------------------------------------------------------------
/// The characters that some file system gives a meaning of its own, and the control characters.
pub open spec fn is_unsafe(c: char) -> bool {
    ||| c == '\\'
    ||| c == '/'
    ||| c == ':'
    ||| c == '*'
    ||| c == '?'
    ||| c == '"'
    ||| c == '<'
    ||| c == '>'
    ||| c == '|'
    ||| (c as u32) <= 0x1f
}

/// `s` with a blank in place of every unsafe character.
pub open spec fn cleaned(s: Seq<char>) -> Seq<char> {
    s.map_values(
        |c: char|
            if is_unsafe(c) {
                ' '
            } else {
                c
            },
    )
}

/// `s` with one blank in place of every run of white space.
pub open spec fn collapsed(s: Seq<char>) -> Seq<char>
    decreases s.len(),
{
    if s.len() == 0 {
        Seq::empty()
    } else {
        let front = s.drop_last();
        if !is_white_space(s.last()) {
            collapsed(front).push(s.last())
        } else if front.len() > 0 && is_white_space(front.last()) {
            collapsed(front)
        } else {
            collapsed(front).push(' ')
        }
    }
}

/// At most the first `n` characters.
pub open spec fn truncated(s: Seq<char>, n: nat) -> Seq<char> {
    if s.len() > n {
        s.take(n as int)
    } else {
        s
    }
}

/// The directory name for a title. What is left of a title may be empty, or name the directory
/// itself or the one above: then the title counts as missing.
pub open spec fn slug(title: Seq<char>) -> Seq<char> {
    let stripped = trim(trim(collapsed(cleaned(title)), Edge::WhiteSpace), Edge::Dots);
    let name = trim(truncated(stripped, MAX_SLUG_LEN as nat), Edge::WhiteSpace);
    if name.len() == 0 || name == "."@ || name == ".."@ {
        "untitled"@
    } else {
        name
    }
}

/// `Regex::replace_all` with a blank as replacement. A character class matches one character at a
/// time; `\s+` matches every maximal run of characters with the property `White_Space`.
#[verifier::external_body]
fn replace_all(pattern: &str, text: &str) -> (r: String)
    requires
        pattern@ == UNSAFE_CHARS@ || pattern@ == WHITESPACE@,
    ensures
        pattern@ == UNSAFE_CHARS@ ==> r@ == cleaned(text@),
        pattern@ == WHITESPACE@ ==> r@ == collapsed(text@),
{
    regex::Regex::new(pattern).unwrap().replace_all(text, " ").into_owned()
}

/// At most the first `n` characters of a text.
pub fn shortened(s: &str, n: usize) -> (r: String)
    ensures
        r@ == truncated(s@, n as nat),
{
    let chars: Vec<char> = chars_of(s);
    let end: usize = if chars.len() > n {
        n
    } else {
        chars.len()
    };
    assert(chars@.subrange(0, end as int) =~= truncated(s@, n as nat));
    text_between(&chars, 0, end)
}

/// Turns a Notion title into a filesystem-safe directory name.
pub fn slugify(title: &str) -> (r: String)
    ensures
        r@ == slug(title@),
{
    let clean: String = replace_all(UNSAFE_CHARS, title);
    let single: String = replace_all(WHITESPACE, &clean);
    let bare: String = trimmed(&trimmed(&single, Edge::WhiteSpace), Edge::Dots);
    let short: String = shortened(&bare, MAX_SLUG_LEN);
    let name: String = trimmed(&short, Edge::WhiteSpace);
    if name.as_str().is_empty() || same(&name, ".") || same(&name, "..") {
        "untitled".to_owned()
    } else {
        name
    }
}

// ---------------------------------------------------------------------------
// Titles
// ---------------------------------------------------------------------------
/// The text of the first property of type `title`; nothing where there is none.
pub open spec fn title_among(props: Seq<(Seq<char>, JsonView)>) -> Seq<char>
    decreases props.len(),
{
    if props.len() == 0 {
        Seq::empty()
    } else if is_title(props[0].1) {
        plain(props[0].1.get("title"@))
    } else {
        title_among(props.skip(1))
    }
}

/// Whether a property is of type `title`.
pub open spec fn is_title(prop: JsonView) -> bool {
    prop.text_at("type"@) == Some("title"@)
}

/// The properties of an object, in order.
pub open spec fn properties(data: JsonView) -> Seq<(Seq<char>, JsonView)> {
    match data.get("properties"@) {
        Some(props) => match props.fields() {
            Some(fields) => fields,
            None => Seq::empty(),
        },
        None => Seq::empty(),
    }
}

/// The title of a page.
pub open spec fn title_of_page(page: JsonView) -> Seq<char> {
    title_among(properties(page))
}

/// The title of a database.
pub open spec fn title_of_database(db: JsonView) -> Seq<char> {
    plain(db.get("title"@))
}

/// Whether a property is of type `title`.
pub fn is_title_property(prop: &Json) -> (r: bool)
    ensures
        r == is_title(prop@),
{
    match prop.text_at("type") {
        Some(t) => same(t, "title"),
        None => false,
    }
}

/// The properties of an object.
pub fn properties_of(data: &Json) -> (r: Option<&Fields>)
    ensures
        properties(data@) == match r {
            Some(fields) => fields@,
            None => Seq::empty(),
        },
{
    match data.get("properties") {
        Some(props) => props.as_object(),
        None => None,
    }
}

/// Extracts the title of a page from its properties.
pub fn page_title(page: &Json) -> (r: String)
    ensures
        r@ == title_of_page(page@),
{
    if let Some(props) = properties_of(page) {
        let mut i: usize = 0;
        assert(props@.skip(0) =~= props@);
        while i < props.len()
            invariant
                i <= props@.len(),
                properties(page@) == props@,
                title_among(props@) == title_among(props@.skip(i as int)),
            decreases props@.len() - i,
        {
            assert(props@.skip(i as int)[0] == props@[i as int]);
            assert(props@.skip(i as int).skip(1) =~= props@.skip(i + 1));
            if is_title_property(props.value(i)) {
                return plain_text(props.value(i).get("title"));
            }
            i += 1;
        }
    }
    String::new()
}

/// Extracts the title of a database.
pub fn database_title(db: &Json) -> (r: String)
    ensures
        r@ == title_of_database(db@),
{
    plain_text(db.get("title"))
}

// ---------------------------------------------------------------------------
// Property values
// ---------------------------------------------------------------------------
/// A scalar: a text as it is, a number bare, a truth value capitalised, nothing for `null`. Any
/// other value is written as compact JSON.
pub open spec fn scalar_text(value: JsonView) -> Seq<char> {
    match value {
        JsonView::Text(s) => s,
        JsonView::Number(t) => t,
        JsonView::Bool(b) => if b {
            "True"@
        } else {
            "False"@
        },
        JsonView::Null => Seq::empty(),
        other => compact(other),
    }
}

/// The scalar, where there is a value.
pub open spec fn scalar_or_blank(value: Option<JsonView>) -> Seq<char> {
    match value {
        Some(v) => scalar_text(v),
        None => Seq::empty(),
    }
}

/// A truth value in lower case.
pub open spec fn flag_text(b: bool) -> Seq<char> {
    if b {
        "true"@
    } else {
        "false"@
    }
}

/// Whether the value is there and true.
pub open spec fn is_true(value: Option<JsonView>) -> bool {
    value == Some(JsonView::Bool(true))
}

/// The text, where the value is one.
pub open spec fn text_or_blank(value: Option<JsonView>) -> Seq<char> {
    match value {
        Some(v) => or_empty(v.text()),
        None => Seq::empty(),
    }
}

/// The text of a field, where the value has it.
pub open spec fn field_or_blank(value: Option<JsonView>, field: Seq<char>) -> Seq<char> {
    match value {
        Some(v) => or_empty(v.text_at(field)),
        None => Seq::empty(),
    }
}

/// The name of an object, or else its id.
pub open spec fn name_or_id_of(value: JsonView) -> Seq<char> {
    match value.text_at("name"@) {
        Some(name) => name,
        None => or_empty(value.text_at("id"@)),
    }
}

/// The objects among the items.
pub open spec fn objects_among(items: Seq<JsonView>) -> Seq<JsonView>
    decreases items.len(),
{
    if items.len() == 0 {
        Seq::empty()
    } else if items.last() is Object {
        objects_among(items.drop_last()).push(items.last())
    } else {
        objects_among(items.drop_last())
    }
}

/// One field of every object in the array, with `, ` between them.
pub open spec fn field_list(value: Option<JsonView>, field: Seq<char>) -> Seq<char> {
    joined(
        objects_among(items_of(value)).map_values(|v: JsonView| or_empty(v.text_at(field))),
        ", "@,
    )
}

/// The name or id of every object in the array, with `, ` between them.
pub open spec fn name_list(value: Option<JsonView>) -> Seq<char> {
    joined(objects_among(items_of(value)).map_values(|v: JsonView| name_or_id_of(v)), ", "@)
}

/// A prefix and a number, as far as they are there.
pub open spec fn unique_id_text(value: Option<JsonView>) -> Seq<char> {
    match value {
        Some(v) => or_empty(v.text_at("prefix"@)) + scalar_or_blank(v.get("number"@)),
        None => Seq::empty(),
    }
}

/// A date, or the two ends of a range with an arrow between them.
pub open spec fn date_text(value: Option<JsonView>) -> Seq<char> {
    let start = field_or_blank(value, "start"@);
    let end = field_or_blank(value, "end"@);
    if end.len() == 0 {
        start
    } else {
        start + " \u{2192} "@ + end
    }
}

/// What a formula came to.
pub open spec fn formula_text(value: Option<JsonView>) -> Seq<char> {
    match value {
        Some(v) => {
            let ftype = or_empty(v.text_at("type"@));
            if ftype == "date"@ {
                date_text(v.get(ftype))
            } else if ftype == "boolean"@ {
                flag_text(is_true(v.get(ftype)))
            } else {
                scalar_or_blank(v.get(ftype))
            }
        },
        None => Seq::empty(),
    }
}

/// What a rollup came to: the text of every property in its array, a date, or a scalar.
pub open spec fn rollup_text(value: JsonView) -> Seq<char>
    decreases value,
{
    let rtype = or_empty(value.text_at("type"@));
    if rtype == "array"@ {
        match value.items_at("array"@) {
            Some(items) => {
                proof {
                    lemma_items_at_smaller(value, "array"@);
                }
                joined(property_texts(items), "; "@)
            },
            None => Seq::empty(),
        }
    } else if rtype == "date"@ {
        date_text(value.get("date"@))
    } else {
        scalar_or_blank(value.get(rtype))
    }
}

/// The texts of the objects among the items, each taken as a property.
pub open spec fn property_texts(items: Seq<JsonView>) -> Seq<Seq<char>>
    decreases items,
{
    if items.len() == 0 {
        Seq::empty()
    } else if items.last() is Object {
        property_texts(items.drop_last()).push(property_text(items.last()))
    } else {
        property_texts(items.drop_last())
    }
}

/// A property value flattened to a text.
pub open spec fn property_text(prop: JsonView) -> Seq<char>
    decreases prop,
{
    let ptype = or_empty(prop.text_at("type"@));
    let value = prop.get(ptype);
    if ptype == "title"@ || ptype == "rich_text"@ {
        plain(value)
    } else if ptype == "number"@ {
        scalar_or_blank(value)
    } else if ptype == "select"@ || ptype == "status"@ {
        field_or_blank(value, "name"@)
    } else if ptype == "multi_select"@ {
        field_list(value, "name"@)
    } else if ptype == "date"@ {
        date_text(value)
    } else if ptype == "checkbox"@ {
        flag_text(is_true(value))
    } else if ptype == "url"@ || ptype == "email"@ || ptype == "phone_number"@ {
        text_or_blank(value)
    } else if ptype == "people"@ {
        name_list(value)
    } else if ptype == "files"@ {
        field_list(value, "name"@)
    } else if ptype == "relation"@ {
        field_list(value, "id"@)
    } else if ptype == "created_time"@ || ptype == "last_edited_time"@ {
        text_or_blank(value)
    } else if ptype == "created_by"@ || ptype == "last_edited_by"@ {
        match value {
            Some(v) => name_or_id_of(v),
            None => Seq::empty(),
        }
    } else if ptype == "unique_id"@ {
        unique_id_text(value)
    } else if ptype == "formula"@ {
        formula_text(value)
    } else if ptype == "rollup"@ {
        match value {
            Some(v) => {
                proof {
                    lemma_get_smaller(prop, ptype);
                }
                rollup_text(v)
            },
            None => Seq::empty(),
        }
    } else if ptype == "verification"@ {
        field_or_blank(value, "state"@)
    } else {
        scalar_or_blank(value)
    }
}

fn scalar_str(value: &Json) -> (r: String)
    ensures
        r@ == scalar_text(value@),
{
    if let Some(s) = value.as_str() {
        return s.to_owned();
    }
    if let Some(n) = value.number() {
        return n;
    }
    if let Some(b) = value.as_bool() {
        if b {
            return "True".to_owned();
        }
        return "False".to_owned();
    }
    if value.is_null() {
        return String::new();
    }
    value.to_compact()
}

fn scalar_or_empty(value: Option<&Json>) -> (r: String)
    ensures
        r@ == scalar_or_blank(view_in(value)),
{
    match value {
        Some(v) => scalar_str(v),
        None => String::new(),
    }
}

fn bool_str(value: bool) -> (r: String)
    ensures
        r@ == flag_text(value),
{
    if value {
        "true".to_owned()
    } else {
        "false".to_owned()
    }
}

fn holds_true(value: Option<&Json>) -> (r: bool)
    ensures
        r == is_true(view_in(value)),
{
    match value {
        Some(v) => match v.as_bool() {
            Some(b) => b,
            None => false,
        },
        None => false,
    }
}

fn text_or_empty(value: Option<&Json>) -> (r: String)
    ensures
        r@ == text_or_blank(view_in(value)),
{
    match value {
        Some(v) => match v.as_str() {
            Some(s) => s.to_owned(),
            None => String::new(),
        },
        None => String::new(),
    }
}

fn obj_field(value: Option<&Json>, field: &str) -> (r: String)
    ensures
        r@ == field_or_blank(view_in(value), field@),
{
    match value {
        Some(v) => match v.text_at(field) {
            Some(s) => s.to_owned(),
            None => String::new(),
        },
        None => String::new(),
    }
}

/// The object items of an array value (anything unexpected is dropped).
fn dicts(value: Option<&Json>) -> (r: Vec<&Json>)
    ensures
        r@.map_values(|v: &Json| v@) == objects_among(items_of(view_in(value))),
{
    let mut out: Vec<&Json> = Vec::new();
    if let Some(v) = value {
        if let Some(items) = v.as_array() {
            let ghost all = views(items@);
            let mut i: usize = 0;
            assert(out@.map_values(|v: &Json| v@) =~= objects_among(all.take(0)));
            while i < items.len()
                invariant
                    i <= items@.len(),
                    all == views(items@),
                    out@.map_values(|v: &Json| v@) == objects_among(all.take(i as int)),
                decreases items@.len() - i,
            {
                let ghost before = out@.map_values(|v: &Json| v@);
                proof {
                    let grown = all.take(i + 1);
                    assert(grown.drop_last() =~= all.take(i as int));
                    assert(grown.last() == items@[i as int]@);
                }
                if items[i].is_object() {
                    out.push(&items[i]);
                    assert(out@.map_values(|v: &Json| v@) =~= before.push(items@[i as int]@));
                }
                i += 1;
            }
            assert(all.take(i as int) =~= all);
            return out;
        }
    }
    assert(out@.map_values(|v: &Json| v@) =~= Seq::empty());
    out
}

fn join_field(value: Option<&Json>, field: &str) -> (r: String)
    ensures
        r@ == field_list(view_in(value), field@),
{
    let found: Vec<&Json> = dicts(value);
    let mut out: Vec<String> = Vec::new();
    let mut i: usize = 0;
    while i < found.len()
        invariant
            i <= found@.len(),
            out@.len() == i,
            forall|j: int|
                0 <= j < i ==> (#[trigger] out@[j])@ == or_empty(found@[j]@.text_at(field@)),
        decreases found@.len() - i,
    {
        out.push(obj_field(Some(found[i]), field));
        i += 1;
    }
    proof {
        let objects = objects_among(items_of(view_in(value)));
        assert forall|j: int| 0 <= j < found@.len() implies #[trigger] objects[j] == found@[j]@ by {
            assert(found@.map_values(|v: &Json| v@)[j] == found@[j]@);
        }
        assert(texts(out@) =~= objects.map_values(|v: JsonView| or_empty(v.text_at(field@))));
    }
    join(&out, ", ")
}

fn name_or_id(value: &Json) -> (r: String)
    ensures
        r@ == name_or_id_of(value@),
{
    match value.text_at("name") {
        Some(name) => name.to_owned(),
        None => obj_field(Some(value), "id"),
    }
}

fn join_name_or_id(value: Option<&Json>) -> (r: String)
    ensures
        r@ == name_list(view_in(value)),
{
    let found: Vec<&Json> = dicts(value);
    let mut out: Vec<String> = Vec::new();
    let mut i: usize = 0;
    while i < found.len()
        invariant
            i <= found@.len(),
            out@.len() == i,
            forall|j: int| 0 <= j < i ==> (#[trigger] out@[j])@ == name_or_id_of(found@[j]@),
        decreases found@.len() - i,
    {
        out.push(name_or_id(found[i]));
        i += 1;
    }
    proof {
        let objects = objects_among(items_of(view_in(value)));
        assert forall|j: int| 0 <= j < found@.len() implies #[trigger] objects[j] == found@[j]@ by {
            assert(found@.map_values(|v: &Json| v@)[j] == found@[j]@);
        }
        assert(texts(out@) =~= objects.map_values(|v: JsonView| name_or_id_of(v)));
    }
    join(&out, ", ")
}

fn unique_id_to_text(value: Option<&Json>) -> (r: String)
    ensures
        r@ == unique_id_text(view_in(value)),
{
    match value {
        Some(v) => cat2(&obj_field(value, "prefix"), &scalar_or_empty(v.get("number"))),
        None => String::new(),
    }
}

fn date_to_text(value: Option<&Json>) -> (r: String)
    ensures
        r@ == date_text(view_in(value)),
{
    let start: String = obj_field(value, "start");
    let end: String = obj_field(value, "end");
    if end.as_str().is_empty() {
        start
    } else {
        cat3(&start, " \u{2192} ", &end)
    }
}

fn formula_to_text(value: Option<&Json>) -> (r: String)
    ensures
        r@ == formula_text(view_in(value)),
{
    match value {
        Some(v) => {
            let ftype: String = obj_field(value, "type");
            let inner: Option<&Json> = v.get(&ftype);
            if same(&ftype, "date") {
                date_to_text(inner)
            } else if same(&ftype, "boolean") {
                bool_str(holds_true(inner))
            } else {
                scalar_or_empty(inner)
            }
        },
        None => String::new(),
    }
}

fn rollup_to_text(value: &Json) -> (r: String)
    ensures
        r@ == rollup_text(value@),
    decreases value@,
{
    let rtype: String = obj_field(Some(value), "type");
    if same(&rtype, "array") {
        match value.items_at("array") {
            Some(items) => {
                let ghost all = views(items@);
                let mut out: Vec<String> = Vec::new();
                let mut i: usize = 0;
                proof {
                    lemma_items_at_smaller(value@, "array"@);
                    assert(texts(out@) =~= property_texts(all.take(0)));
                }
                while i < items.len()
                    invariant
                        i <= items@.len(),
                        all == views(items@),
                        decreases_to!(value@ => all),
                        texts(out@) == property_texts(all.take(i as int)),
                    decreases items@.len() - i,
                {
                    let ghost before = texts(out@);
                    proof {
                        let grown = all.take(i + 1);
                        assert(grown.drop_last() =~= all.take(i as int));
                        assert(grown.last() == items@[i as int]@);
                        assert(decreases_to!(all => all[i as int]));
                    }
                    if items[i].is_object() {
                        let text: String = property_to_text(&items[i]);
                        out.push(text);
                        assert(texts(out@) =~= before.push(text@));
                    }
                    i += 1;
                }
                assert(all.take(i as int) =~= all);
                join(&out, "; ")
            },
            None => String::new(),
        }
    } else if same(&rtype, "date") {
        date_to_text(value.get("date"))
    } else {
        scalar_or_empty(value.get(&rtype))
    }
}

/// Flattens a single Notion property value to a CSV-friendly string.
///
/// The value may arrive in an unexpected shape; it then degrades to a text.
pub fn property_to_text(prop: &Json) -> (r: String)
    ensures
        r@ == property_text(prop@),
    decreases prop@,
{
    let ptype: String = obj_field(Some(prop), "type");
    let value: Option<&Json> = prop.get(&ptype);
    if same(&ptype, "title") || same(&ptype, "rich_text") {
        plain_text(value)
    } else if same(&ptype, "number") {
        scalar_or_empty(value)
    } else if same(&ptype, "select") || same(&ptype, "status") {
        obj_field(value, "name")
    } else if same(&ptype, "multi_select") {
        join_field(value, "name")
    } else if same(&ptype, "date") {
        date_to_text(value)
    } else if same(&ptype, "checkbox") {
        bool_str(holds_true(value))
    } else if same(&ptype, "url") || same(&ptype, "email") || same(&ptype, "phone_number") {
        text_or_empty(value)
    } else if same(&ptype, "people") {
        join_name_or_id(value)
    } else if same(&ptype, "files") {
        join_field(value, "name")
    } else if same(&ptype, "relation") {
        join_field(value, "id")
    } else if same(&ptype, "created_time") || same(&ptype, "last_edited_time") {
        text_or_empty(value)
    } else if same(&ptype, "created_by") || same(&ptype, "last_edited_by") {
        match value {
            Some(v) => name_or_id(v),
            None => String::new(),
        }
    } else if same(&ptype, "unique_id") {
        unique_id_to_text(value)
    } else if same(&ptype, "formula") {
        formula_to_text(value)
    } else if same(&ptype, "rollup") {
        match value {
            Some(v) => {
                proof {
                    lemma_get_smaller(prop@, ptype@);
                }
                rollup_to_text(v)
            },
            None => String::new(),
        }
    } else if same(&ptype, "verification") {
        obj_field(value, "state")
    } else {
        scalar_or_empty(value)
    }
}

// ---------------------------------------------------------------------------
// What holds of ids and slugs
// ---------------------------------------------------------------------------
/// Whether a character may stand in a normalized id.
pub open spec fn is_lower_hex(c: char) -> bool {
    '0' <= c <= '9' || 'a' <= c <= 'f'
}

proof fn lemma_before_whole(s: Seq<char>, stop: char)
    requires
        forall|i: int| 0 <= i < s.len() ==> #[trigger] s[i] != stop,
    ensures
        before(s, stop) == s,
{
    lemma_before_at(s, stop, s.len() as int);
    assert(s.take(s.len() as int) =~= s);
}

proof fn lemma_hex_digits_whole(s: Seq<char>)
    requires
        forall|i: int| 0 <= i < s.len() ==> is_hex(#[trigger] s[i]),
    ensures
        hex_digits(s) == s,
    decreases s.len(),
{
    if s.len() > 0 {
        let front = s.drop_last();
        assert forall|i: int| 0 <= i < front.len() implies is_hex(#[trigger] front[i]) by {
            assert(front[i] == s[i]);
        }
        lemma_hex_digits_whole(front);
        assert(is_hex(s[s.len() - 1]));
        assert(front.push(s.last()) =~= s);
    } else {
        assert(hex_digits(s) =~= s);
    }
}

/// A normalized id is 32 hexadecimal digits in lower case, and normalizing it again changes nothing.
pub proof fn law_ids_are_normal(value: Seq<char>)
    requires
        notion_id(value) is Some,
    ensures
        notion_id(value)->0.len() == 32,
        forall|i: int| 0 <= i < 32 ==> is_lower_hex(#[trigger] notion_id(value)->0[i]),
        notion_id(notion_id(value)->0) == notion_id(value),
{
    let text = before(before(value, '?'), '#');
    let digits = hex_digits(text);
    let tail = digits.skip(digits.len() - 32);
    let id = notion_id(value)->0;
    lemma_hex_digits_are_hex(text);
    assert forall|i: int| 0 <= i < 32 implies is_lower_hex(#[trigger] id[i]) && is_hex(id[i])
        && lower(id[i]) == id[i] && id[i] != '?' && id[i] != '#' by {
        assert(tail[i] == digits[digits.len() - 32 + i]);
        assert(is_hex(tail[i]));
    }
    lemma_before_whole(id, '?');
    lemma_before_whole(id, '#');
    lemma_hex_digits_whole(id);
    assert(id.skip(0).map_values(|c: char| lower(c)) =~= id);
}

/// Whether all white space in a text is single blanks.
pub open spec fn is_single_spaced(s: Seq<char>) -> bool {
    &&& forall|i: int| 0 <= i < s.len() && is_white_space(#[trigger] s[i]) ==> s[i] == ' '
    &&& forall|i: int, j: int|
        0 <= i < s.len() && j == i + 1 && j < s.len() && #[trigger] s[i] == ' ' ==> #[trigger] s[j]
            != ' '
}

/// Whether a text holds no unsafe character.
pub open spec fn is_safe(s: Seq<char>) -> bool {
    forall|i: int| 0 <= i < s.len() ==> !is_unsafe(#[trigger] s[i])
}

proof fn lemma_collapsed(s: Seq<char>)
    requires
        is_safe(s),
    ensures
        is_safe(collapsed(s)),
        is_single_spaced(collapsed(s)),
        s.len() > 0 ==> collapsed(s).len() > 0,
        s.len() > 0 && is_white_space(s.last()) ==> collapsed(s).last() == ' ',
        s.len() > 0 && !is_white_space(s.last()) ==> collapsed(s).last() == s.last(),
    decreases s.len(),
{
    if s.len() > 0 {
        let front = s.drop_last();
        let out = collapsed(front);
        assert forall|i: int| 0 <= i < front.len() implies !is_unsafe(#[trigger] front[i]) by {
            assert(front[i] == s[i]);
        }
        lemma_collapsed(front);
        let all = collapsed(s);
        assert(!is_unsafe(s[s.len() - 1]));
        if front.len() == 0 {
            assert(out.len() == 0);
        }
        assert forall|i: int| 0 <= i < all.len() implies !is_unsafe(#[trigger] all[i]) && (
        is_white_space(all[i]) ==> all[i] == ' ') by {
            if i < out.len() {
                assert(all[i] == out[i]);
            }
        }
        assert forall|i: int, j: int|
            0 <= i < all.len() && j == i + 1 && j < all.len() && #[trigger] all[i] == ' ' implies
            #[trigger] all[j] != ' ' by {
            if j < out.len() {
                assert(all[i] == out[i] && all[j] == out[j]);
            } else {
                assert(all[i] == out[i]);
            }
        }
    }
}

proof fn lemma_part_is_safe(s: Seq<char>, from: int, to: int)
    requires
        0 <= from <= to <= s.len(),
        is_safe(s),
        is_single_spaced(s),
    ensures
        is_safe(s.subrange(from, to)),
        is_single_spaced(s.subrange(from, to)),
{
    let t = s.subrange(from, to);
    assert forall|i: int| 0 <= i < t.len() implies !is_unsafe(#[trigger] t[i]) && (is_white_space(
        t[i],
    ) ==> t[i] == ' ') by {
        assert(t[i] == s[from + i]);
    }
    assert forall|i: int, j: int|
        0 <= i < t.len() && j == i + 1 && j < t.len() && #[trigger] t[i] == ' ' implies #[trigger] t[j]
        != ' ' by {
        assert(t[i] == s[from + i] && t[j] == s[from + j]);
    }
}

/// A slug can name a directory of its own: it is not empty and not too long, holds no character
/// that some file system gives a meaning of its own, its white space is single blanks between other
/// characters, and it is neither the directory itself nor the one above.
pub proof fn law_slugs_are_safe(title: Seq<char>)
    ensures
        0 < slug(title).len() <= MAX_SLUG_LEN,
        is_safe(slug(title)),
        is_single_spaced(slug(title)),
        !is_white_space(slug(title)[0]),
        !is_white_space(slug(title).last()),
        slug(title) != "."@,
        slug(title) != ".."@,
{
    reveal_strlit(".");
    reveal_strlit("..");
    let clean = cleaned(title);
    assert forall|i: int| 0 <= i < clean.len() implies !is_unsafe(#[trigger] clean[i]) by {}
    lemma_collapsed(clean);
    let single = collapsed(clean);
    let a = lemma_trim_range(single, Edge::WhiteSpace);
    let bare = trim(single, Edge::WhiteSpace);
    lemma_part_is_safe(single, a.0, a.1);
    let b = lemma_trim_range(bare, Edge::Dots);
    let stripped = trim(bare, Edge::Dots);
    lemma_part_is_safe(bare, b.0, b.1);
    let short = truncated(stripped, MAX_SLUG_LEN as nat);
    assert(short =~= stripped.subrange(0, short.len() as int));
    lemma_part_is_safe(stripped, 0, short.len() as int);
    let c = lemma_trim_range(short, Edge::WhiteSpace);
    let out = trim(short, Edge::WhiteSpace);
    lemma_part_is_safe(short, c.0, c.1);
    reveal_strlit("untitled");
    assert("."@.len() == 1 && ".."@.len() == 2 && "untitled"@.len() == 8);
    if out.len() > 0 {
        assert(out[0] == short[c.0]);
        assert(out.last() == short[c.1 - 1]);
        assert(!covers(Edge::WhiteSpace, short[c.0]));
    }
}

} // verus!
