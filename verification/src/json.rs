//! JSON values as the backup reads them.
//!
//! [`Json`] is the library's own value tree. Its view, [`JsonView`], is what every contract speaks
//! of. The text forms (compact, indented, parsed) are those of `serde_json`, reached through
//! `serde_json::Value`.

use vstd::prelude::*;
use vstd::string::*;

use crate::text::{decimal, same, text_of};

verus! {

// ---------------------------------------------------------------------------
// Model
// ---------------------------------------------------------------------------
/// What a JSON value holds. A number is held by its decimal text; the fields of an object stand
/// in their order.
pub enum JsonView {
    Null,
    Bool(bool),
    Number(Seq<char>),
    Text(Seq<char>),
    Array(Seq<JsonView>),
    Object(Seq<(Seq<char>, JsonView)>),
}

/// The value under the first field named `key`.
pub open spec fn lookup(fields: Seq<(Seq<char>, JsonView)>, key: Seq<char>) -> Option<JsonView>
    decreases fields.len(),
{
    if fields.len() == 0 {
        None
    } else if fields[0].0 == key {
        Some(fields[0].1)
    } else {
        lookup(fields.skip(1), key)
    }
}

/// The fields with `key` set to `value`: in place where the key is there already, else at the end.
pub open spec fn put(
    fields: Seq<(Seq<char>, JsonView)>,
    key: Seq<char>,
    value: JsonView,
) -> Seq<(Seq<char>, JsonView)>
    decreases fields.len(),
{
    if fields.len() == 0 {
        seq![(key, value)]
    } else if fields[0].0 == key {
        seq![(key, value)] + fields.skip(1)
    } else {
        seq![fields[0]] + put(fields.skip(1), key, value)
    }
}

/// Every pair put in turn, starting from no field.
pub open spec fn put_all(pairs: Seq<(Seq<char>, JsonView)>) -> Seq<(Seq<char>, JsonView)>
    decreases pairs.len(),
{
    if pairs.len() == 0 {
        Seq::empty()
    } else {
        put(put_all(pairs.drop_last()), pairs.last().0, pairs.last().1)
    }
}

/// No key occurs twice.
pub open spec fn distinct_keys(fields: Seq<(Seq<char>, JsonView)>) -> bool {
    forall|i: int, j: int|
        0 <= i < j < fields.len() ==> (#[trigger] fields[i]).0 != (#[trigger] fields[j]).0
}

impl JsonView {
    /// The value of a field; nothing where this is no object.
    pub open spec fn get(self, key: Seq<char>) -> Option<JsonView> {
        match self {
            JsonView::Object(fields) => lookup(fields, key),
            _ => None,
        }
    }

    /// The text, where this is a string.
    pub open spec fn text(self) -> Option<Seq<char>> {
        match self {
            JsonView::Text(s) => Some(s),
            _ => None,
        }
    }

    /// The truth value, where this is one.
    pub open spec fn flag(self) -> Option<bool> {
        match self {
            JsonView::Bool(b) => Some(b),
            _ => None,
        }
    }

    /// The items, where this is an array.
    pub open spec fn items(self) -> Option<Seq<JsonView>> {
        match self {
            JsonView::Array(items) => Some(items),
            _ => None,
        }
    }

    /// The fields, where this is an object.
    pub open spec fn fields(self) -> Option<Seq<(Seq<char>, JsonView)>> {
        match self {
            JsonView::Object(fields) => Some(fields),
            _ => None,
        }
    }

    /// The text of a string field.
    pub open spec fn text_at(self, key: Seq<char>) -> Option<Seq<char>> {
        match self.get(key) {
            Some(v) => v.text(),
            None => None,
        }
    }

    /// The truth value of a field; false where there is none.
    pub open spec fn flag_at(self, key: Seq<char>) -> bool {
        match self.get(key) {
            Some(v) => v.flag() == Some(true),
            None => false,
        }
    }

    /// The items of an array field.
    pub open spec fn items_at(self, key: Seq<char>) -> Option<Seq<JsonView>> {
        match self.get(key) {
            Some(v) => v.items(),
            None => None,
        }
    }
}

/// Every number in the value is written as an integer.
pub open spec fn integers_only(v: JsonView) -> bool
    decreases v,
{
    match v {
        JsonView::Number(t) => forall|i: int|
            0 <= i < t.len() ==> (#[trigger] t[i] == '-' || '0' <= t[i] <= '9'),
        JsonView::Array(items) => forall|i: int|
            0 <= i < items.len() ==> integers_only(#[trigger] items[i]),
        JsonView::Object(fields) => forall|i: int|
            0 <= i < fields.len() ==> integers_only((#[trigger] fields[i]).1),
        _ => true,
    }
}

/// Arrays and objects are nested at most `levels` deep.
pub open spec fn nested_within(v: JsonView, levels: nat) -> bool
    decreases v,
{
    match v {
        JsonView::Array(items) => levels > 0 && forall|i: int|
            0 <= i < items.len() ==> nested_within(#[trigger] items[i], (levels - 1) as nat),
        JsonView::Object(fields) => levels > 0 && forall|i: int|
            0 <= i < fields.len() ==> nested_within((#[trigger] fields[i]).1, (levels - 1) as nat),
        _ => true,
    }
}

// ---------------------------------------------------------------------------
// Facts about the model
// ---------------------------------------------------------------------------
pub proof fn lemma_lookup_smaller(fields: Seq<(Seq<char>, JsonView)>, key: Seq<char>)
    ensures
        lookup(fields, key) matches Some(v) ==> decreases_to!(fields => v),
    decreases fields.len(),
{
    if fields.len() > 0 {
        if fields[0].0 == key {
            assert(decreases_to!(fields => fields[0]));
            assert(decreases_to!(fields[0] => fields[0].1));
        } else {
            lemma_lookup_smaller(fields.skip(1), key);
            assert(decreases_to!(fields => fields.skip(1)));
        }
    }
}

/// A field of an object is smaller than the object.
pub proof fn lemma_get_smaller(v: JsonView, key: Seq<char>)
    ensures
        v.get(key) matches Some(w) ==> decreases_to!(v => w),
{
    if let JsonView::Object(fields) = v {
        lemma_lookup_smaller(fields, key);
        assert(decreases_to!(v => fields));
    }
}

/// An item of an array is smaller than the array.
pub proof fn lemma_item_smaller(v: JsonView, i: int)
    ensures
        v.items() matches Some(items) ==> 0 <= i < items.len() ==> decreases_to!(v => items[i]),
{
    if let JsonView::Array(items) = v {
        if 0 <= i < items.len() {
            assert(decreases_to!(v => items));
            assert(decreases_to!(items => items[i]));
        }
    }
}

/// The value of a field, by its position, is smaller than the object.
pub proof fn lemma_field_smaller(v: JsonView, i: int)
    ensures
        v.fields() matches Some(fields) ==> 0 <= i < fields.len() ==> decreases_to!(
            v => fields[i].1
        ),
{
    if let JsonView::Object(fields) = v {
        if 0 <= i < fields.len() {
            assert(decreases_to!(v => fields));
            assert(decreases_to!(fields => fields[i]));
            assert(decreases_to!(fields[i] => fields[i].1));
        }
    }
}

/// The items of an array field are smaller than the object.
pub proof fn lemma_items_at_smaller(v: JsonView, key: Seq<char>)
    ensures
        v.items_at(key) matches Some(items) ==> decreases_to!(v => items),
{
    lemma_get_smaller(v, key);
    if let Some(w) = v.get(key) {
        if let JsonView::Array(items) = w {
            assert(decreases_to!(w => items));
        }
    }
}

proof fn lemma_lookup_skip(fields: Seq<(Seq<char>, JsonView)>, key: Seq<char>, i: int)
    requires
        0 <= i <= fields.len(),
        forall|j: int| 0 <= j < i ==> (#[trigger] fields[j]).0 != key,
    ensures
        lookup(fields, key) == lookup(fields.skip(i), key),
    decreases i,
{
    if i == 0 {
        assert(fields.skip(0) =~= fields);
    } else {
        assert(fields[0].0 != key);
        let rest = fields.skip(1);
        assert forall|j: int| 0 <= j < i - 1 implies (#[trigger] rest[j]).0 != key by {
            assert(rest[j] == fields[j + 1]);
        }
        lemma_lookup_skip(rest, key, i - 1);
        assert(rest.skip(i - 1) =~= fields.skip(i));
    }
}

proof fn lemma_put_at(
    fields: Seq<(Seq<char>, JsonView)>,
    key: Seq<char>,
    value: JsonView,
    i: int,
)
    requires
        0 <= i <= fields.len(),
        forall|j: int| 0 <= j < i ==> (#[trigger] fields[j]).0 != key,
        i < fields.len() ==> fields[i].0 == key,
    ensures
        put(fields, key, value) == if i < fields.len() {
            fields.update(i, (key, value))
        } else {
            fields.push((key, value))
        },
    decreases i,
{
    if i == 0 {
        if fields.len() == 0 {
            assert(put(fields, key, value) =~= fields.push((key, value)));
        } else {
            assert(put(fields, key, value) =~= fields.update(0, (key, value)));
        }
    } else {
        assert(fields[0].0 != key);
        let rest = fields.skip(1);
        assert forall|j: int| 0 <= j < i - 1 implies (#[trigger] rest[j]).0 != key by {
            assert(rest[j] == fields[j + 1]);
        }
        lemma_put_at(rest, key, value, i - 1);
        if i < fields.len() {
            assert(put(fields, key, value) =~= fields.update(i, (key, value)));
        } else {
            assert(put(fields, key, value) =~= fields.push((key, value)));
        }
    }
}

/// A value that was put is found again.
pub proof fn lemma_put_lookup(fields: Seq<(Seq<char>, JsonView)>, key: Seq<char>, value: JsonView)
    ensures
        lookup(put(fields, key, value), key) == Some(value),
    decreases fields.len(),
{
    let after = put(fields, key, value);
    if fields.len() > 0 && fields[0].0 != key {
        lemma_put_lookup(fields.skip(1), key, value);
        assert(after.skip(1) =~= put(fields.skip(1), key, value));
    }
}

/// Pairs whose keys differ are kept as they are, in their order.
pub proof fn lemma_put_all_distinct(pairs: Seq<(Seq<char>, JsonView)>)
    requires
        distinct_keys(pairs),
    ensures
        put_all(pairs) == pairs,
    decreases pairs.len(),
{
    if pairs.len() > 0 {
        let front = pairs.drop_last();
        assert forall|i: int, j: int| 0 <= i < j < front.len() implies (#[trigger] front[i]).0 != (
        #[trigger] front[j]).0 by {
            assert(front[i] == pairs[i] && front[j] == pairs[j]);
        }
        lemma_put_all_distinct(front);
        assert forall|j: int| 0 <= j < front.len() implies (#[trigger] front[j]).0
            != pairs.last().0 by {
            assert(front[j] == pairs[j]);
        }
        lemma_put_at(front, pairs.last().0, pairs.last().1, front.len() as int);
        assert(front.push(pairs.last()) =~= pairs);
    }
}

// ---------------------------------------------------------------------------
// serde_json
// ---------------------------------------------------------------------------
/// `serde_json::Number`, carried as it is.
#[verifier::external_type_specification]
#[verifier::external_body]
pub struct ExNumber(serde_json::Number);

/// `serde_json::Value`, the form in which `serde_json` reads and writes text.
#[verifier::external_type_specification]
#[verifier::external_body]
pub struct ExValue(serde_json::Value);

/// The decimal text that `serde_json::Number` displays as.
pub uninterp spec fn number_text(n: serde_json::Number) -> Seq<char>;

/// What a `serde_json::Value` holds, the fields of an object in the order of its map.
pub uninterp spec fn value_view(v: serde_json::Value) -> JsonView;

/// The compact text that `serde_json::Value` displays as.
pub uninterp spec fn compact(v: JsonView) -> Seq<char>;

/// The indented text that `serde_json::to_string_pretty` writes.
pub uninterp spec fn indented(v: JsonView) -> Seq<char>;

/// What `serde_json::from_str` reads out of a text, where the text is JSON.
pub uninterp spec fn parsed(text: Seq<char>) -> Option<JsonView>;

/// One level of a value: what `serde_json::Value` is made of.
pub enum Parts {
    Null,
    Bool(bool),
    Number(serde_json::Number),
    Text(String),
    Array(Vec<serde_json::Value>),
    Object(Vec<(String, serde_json::Value)>),
}

/// What the parts hold.
pub open spec fn parts_view(p: Parts) -> JsonView {
    match p {
        Parts::Null => JsonView::Null,
        Parts::Bool(b) => JsonView::Bool(b),
        Parts::Number(n) => JsonView::Number(number_text(n)),
        Parts::Text(s) => JsonView::Text(s@),
        Parts::Array(items) => JsonView::Array(
            items@.map_values(|v: serde_json::Value| value_view(v)),
        ),
        Parts::Object(pairs) => JsonView::Object(pairs_view(pairs@)),
    }
}

/// What the pairs of an object hold.
pub open spec fn pairs_view(pairs: Seq<(String, serde_json::Value)>) -> Seq<
    (Seq<char>, JsonView),
> {
    pairs.map_values(|e: (String, serde_json::Value)| (e.0@, value_view(e.1)))
}

/// `Number`'s `to_string`: the result is named [`number_text`].
#[verifier::external_body]
fn show_number(n: &serde_json::Number) -> (r: String)
    ensures
        r@ == number_text(*n),
{
    n.to_string()
}

/// `Number::from` on an unsigned integer: the number is written in decimal.
#[verifier::external_body]
fn number_from(n: u64) -> (r: serde_json::Number)
    ensures
        number_text(r) == decimal(n as nat),
{
    serde_json::Number::from(n)
}

/// `Number`'s `clone`: the copy is the number itself.
#[verifier::external_body]
fn copy_number(n: &serde_json::Number) -> (r: serde_json::Number)
    ensures
        r == *n,
{
    n.clone()
}

/// The constructors of `serde_json::Value`: the value holds what its parts hold. The map behind an
/// object keeps the order in which keys are inserted; the keys must differ.
#[verifier::external_body]
fn assemble(parts: Parts) -> (r: serde_json::Value)
    requires
        parts matches Parts::Object(pairs) ==> distinct_keys(pairs_view(pairs@)),
    ensures
        value_view(r) == parts_view(parts),
{
    match parts {
        Parts::Null => serde_json::Value::Null,
        Parts::Bool(b) => serde_json::Value::Bool(b),
        Parts::Number(n) => serde_json::Value::Number(n),
        Parts::Text(s) => serde_json::Value::String(s),
        Parts::Array(items) => serde_json::Value::Array(items),
        Parts::Object(pairs) => serde_json::Value::Object(pairs.into_iter().collect()),
    }
}

/// The variants of `serde_json::Value`, taken apart: the parts hold what the value held. The map
/// behind an object hands out its entries in its own order, no key twice.
#[verifier::external_body]
fn take_apart(value: serde_json::Value) -> (r: Parts)
    ensures
        parts_view(r) == value_view(value),
        r matches Parts::Object(pairs) ==> distinct_keys(pairs_view(pairs@)),
{
    match value {
        serde_json::Value::Null => Parts::Null,
        serde_json::Value::Bool(b) => Parts::Bool(b),
        serde_json::Value::Number(n) => Parts::Number(n),
        serde_json::Value::String(s) => Parts::Text(s),
        serde_json::Value::Array(items) => Parts::Array(items),
        serde_json::Value::Object(map) => Parts::Object(map.into_iter().collect()),
    }
}

/// `Value`'s `to_string`: the result is named [`compact`].
#[verifier::external_body]
fn show_compact(value: &serde_json::Value) -> (r: String)
    ensures
        r@ == compact(value_view(*value)),
{
    value.to_string()
}

/// `serde_json::to_string_pretty`: it succeeds on every `Value`, and the text is named
/// [`indented`]. With a line feed behind it, `serde_json::from_str` reads the same value back,
/// where all numbers are integers and the nesting stays within the parser's limit.
#[verifier::external_body]
fn show_indented(value: &serde_json::Value) -> (r: String)
    ensures
        r@ == indented(value_view(*value)),
        integers_only(value_view(*value)) && nested_within(value_view(*value), 127) ==> parsed(
            r@ + "\n"@,
        ) == Some(value_view(*value)),
{
    serde_json::to_string_pretty(value).unwrap()
}

/// `serde_json::from_str` into a `Value`: whether it succeeds, and what it reads, is named
/// [`parsed`]. Nothing is said of the message of a failure.
#[verifier::external_body]
fn read_value(text: &str) -> (r: Result<serde_json::Value, String>)
    ensures
        match r {
            Ok(v) => parsed(text@) == Some(value_view(v)),
            Err(_) => parsed(text@) is None,
        },
{
    serde_json::from_str(text).map_err(|e: serde_json::Error| e.to_string())
}

// ---------------------------------------------------------------------------
// Values
// ---------------------------------------------------------------------------
/// A JSON value.
#[derive(Debug, PartialEq)]
pub enum Json {
    Null,
    Bool(bool),
    Number(serde_json::Number),
    Text(String),
    Array(Vec<Json>),
    Object(Fields),
}

/// The fields of an object, in order; no key occurs twice.
#[derive(Debug, PartialEq)]
pub struct Fields {
    entries: Vec<(String, Json)>,
}

pub closed spec fn view_of(j: Json) -> JsonView
    decreases j,
{
    match j {
        Json::Null => JsonView::Null,
        Json::Bool(b) => JsonView::Bool(b),
        Json::Number(n) => JsonView::Number(number_text(n)),
        Json::Text(s) => JsonView::Text(s@),
        Json::Array(items) => JsonView::Array(
            Seq::new(
                items@.len(),
                |i: int|
                    if 0 <= i < items@.len() {
                        view_of(items@[i])
                    } else {
                        JsonView::Null
                    },
            ),
        ),
        Json::Object(f) => JsonView::Object(
            Seq::new(
                f.entries@.len(),
                |i: int|
                    if 0 <= i < f.entries@.len() {
                        (f.entries@[i].0@, view_of(f.entries@[i].1))
                    } else {
                        (Seq::empty(), JsonView::Null)
                    },
            ),
        ),
    }
}

impl View for Json {
    type V = JsonView;

    closed spec fn view(&self) -> JsonView {
        view_of(*self)
    }
}

/// What the values of a list hold.
pub open spec fn views(list: Seq<Json>) -> Seq<JsonView> {
    list.map_values(|j: Json| j@)
}

/// What a list of keyed values holds.
pub open spec fn entry_views(entries: Seq<(String, Json)>) -> Seq<(Seq<char>, JsonView)> {
    entries.map_values(|e: (String, Json)| (e.0@, e.1@))
}

/// What an optional value holds.
pub open spec fn view_in(value: Option<&Json>) -> Option<JsonView> {
    match value {
        Some(v) => Some(v@),
        None => None,
    }
}

impl View for Fields {
    type V = Seq<(Seq<char>, JsonView)>;

    closed spec fn view(&self) -> Self::V {
        entry_views(self.entries@)
    }
}

/// How the view follows the constructors.
pub proof fn lemma_view(j: Json)
    ensures
        match j {
            Json::Null => j@ == JsonView::Null,
            Json::Bool(b) => j@ == JsonView::Bool(b),
            Json::Number(n) => j@ == JsonView::Number(number_text(n)),
            Json::Text(s) => j@ == JsonView::Text(s@),
            Json::Array(items) => j@ == JsonView::Array(views(items@)),
            Json::Object(f) => j@ == JsonView::Object(f@),
        },
{
    match j {
        Json::Array(items) => {
            assert(j@->Array_0 =~= views(items@));
        },
        Json::Object(f) => {
            assert(j@->Object_0 =~= f@);
        },
        _ => {},
    }
}

impl Fields {
    #[verifier::type_invariant]
    spec fn keys_differ(self) -> bool {
        distinct_keys(entry_views(self.entries@))
    }

    /// No field.
    pub fn new() -> (r: Fields)
        ensures
            r@ == Seq::<(Seq<char>, JsonView)>::empty(),
    {
        let r = Fields { entries: Vec::new() };
        assert(r@ =~= Seq::<(Seq<char>, JsonView)>::empty());
        r
    }

    /// The fields with `key` set to `value`.
    pub fn with(self, key: String, value: Json) -> (r: Fields)
        ensures
            r@ == put(self@, key@, value@),
    {
        proof {
            use_type_invariant(&self);
        }
        let mut entries: Vec<(String, Json)> = self.entries;
        let ghost before = entry_views(entries@);
        let mut i: usize = 0;
        while i < entries.len() && !same(&entries[i].0, &key)
            invariant
                i <= entries@.len(),
                before == entry_views(entries@),
                forall|j: int| 0 <= j < i ==> (#[trigger] before[j]).0 != key@,
            decreases entries@.len() - i,
        {
            assert(before[i as int].0 == entries@[i as int].0@);
            i += 1;
        }
        let ghost k = key@;
        let ghost v = value@;
        proof {
            if i < entries@.len() {
                assert(before[i as int].0 == entries@[i as int].0@);
            }
            lemma_put_at(before, k, v, i as int);
        }
        if i < entries.len() {
            entries.set(i, (key, value));
            assert(entry_views(entries@) =~= before.update(i as int, (k, v)));
        } else {
            entries.push((key, value));
            assert(entry_views(entries@) =~= before.push((k, v)));
        }
        Fields { entries }
    }

    /// The pairs, put in turn.
    pub fn from_pairs(pairs: Vec<(String, Json)>) -> (r: Fields)
        ensures
            r@ == put_all(entry_views(pairs@)),
    {
        let ghost all = pairs@;
        let mut fields: Fields = Fields::new();
        assert(entry_views(all.take(0)) =~= Seq::<(Seq<char>, JsonView)>::empty());
        for e in it: pairs
            invariant
                it.seq() == all,
                fields@ == put_all(entry_views(all.take(it.index()))),
        {
            let ghost done = it.index();
            let ghost f = (e.0@, e.1@);
            fields = fields.with(e.0, e.1);
            proof {
                let grown = entry_views(all.take(done + 1));
                assert(grown.drop_last() =~= entry_views(all.take(done)));
                assert(grown.last() == f);
            }
        }
        assert(all.take(all.len() as int) =~= all);
        fields
    }

    /// How many fields there are.
    pub fn len(&self) -> (r: usize)
        ensures
            r == self@.len(),
    {
        self.entries.len()
    }

    /// The name of a field.
    pub fn key(&self, i: usize) -> (r: &str)
        requires
            i < self@.len(),
        ensures
            r@ == self@[i as int].0,
    {
        self.entries[i].0.as_str()
    }

    /// The value of a field.
    pub fn value(&self, i: usize) -> (r: &Json)
        requires
            i < self@.len(),
        ensures
            r@ == self@[i as int].1,
    {
        &self.entries[i].1
    }

    /// The value under a key.
    pub fn get(&self, key: &str) -> (r: Option<&Json>)
        ensures
            view_in(r) == lookup(self@, key@),
    {
        let mut i: usize = 0;
        while i < self.entries.len()
            invariant
                i <= self.entries@.len(),
                self@.len() == self.entries@.len(),
                forall|j: int| 0 <= j < i ==> (#[trigger] self@[j]).0 != key@,
            decreases self.entries@.len() - i,
        {
            assert(self@[i as int] == (self.entries@[i as int].0@, self.entries@[i as int].1@));
            if same(&self.entries[i].0, key) {
                proof {
                    lemma_lookup_skip(self@, key@, i as int);
                    assert(self@.skip(i as int)[0] == self@[i as int]);
                }
                return Some(&self.entries[i].1);
            }
            i += 1;
        }
        proof {
            lemma_lookup_skip(self@, key@, i as int);
        }
        None
    }

    /// A copy.
    pub fn duplicate(&self) -> (r: Fields)
        ensures
            r@ == self@,
        decreases self,
    {
        proof {
            use_type_invariant(self);
        }
        let mut out: Vec<(String, Json)> = Vec::new();
        let mut i: usize = 0;
        assert(entry_views(out@) =~= self@.take(0));
        while i < self.entries.len()
            invariant
                i <= self.entries@.len(),
                entry_views(out@) == self@.take(i as int),
            decreases self.entries@.len() - i,
        {
            let ghost before = entry_views(out@);
            let key: String = self.entries[i].0.clone();
            out.push((key, self.entries[i].1.duplicate()));
            assert(entry_views(out@) =~= before.push(self@[i as int]));
            i += 1;
            assert(self@.take(i as int) =~= before.push(self@[i - 1]));
        }
        assert(self@.take(i as int) =~= self@);
        Fields { entries: out }
    }

    /// The pairs, handed over.
    pub fn into_pairs(self) -> (r: Vec<(String, Json)>)
        ensures
            entry_views(r@) == self@,
            distinct_keys(self@),
    {
        proof {
            use_type_invariant(&self);
        }
        self.entries
    }
}

impl Json {
    /// An object of the given pairs, put in turn.
    pub fn object(pairs: Vec<(String, Json)>) -> (r: Json)
        ensures
            r@ == JsonView::Object(put_all(entry_views(pairs@))),
    {
        let r = Json::Object(Fields::from_pairs(pairs));
        proof {
            lemma_view(r);
        }
        r
    }

    /// An object of the given fields.
    pub fn from_fields(fields: Fields) -> (r: Json)
        ensures
            r@ == JsonView::Object(fields@),
    {
        let r = Json::Object(fields);
        proof {
            lemma_view(r);
        }
        r
    }

    /// A string.
    pub fn string(text: &str) -> (r: Json)
        ensures
            r@ == JsonView::Text(text@),
    {
        let r = Json::Text(text.to_owned());
        proof {
            lemma_view(r);
        }
        r
    }

    /// An unsigned integer.
    pub fn integer(n: u64) -> (r: Json)
        ensures
            r@ == JsonView::Number(decimal(n as nat)),
    {
        let r = Json::Number(number_from(n));
        proof {
            lemma_view(r);
        }
        r
    }

    /// An array of the given items.
    pub fn array(items: Vec<Json>) -> (r: Json)
        ensures
            r@ == JsonView::Array(views(items@)),
    {
        let r = Json::Array(items);
        proof {
            lemma_view(r);
        }
        r
    }

    /// The value of a field; nothing where this is no object.
    pub fn get(&self, key: &str) -> (r: Option<&Json>)
        ensures
            view_in(r) == self@.get(key@),
    {
        proof {
            lemma_view(*self);
        }
        match self {
            Json::Object(fields) => fields.get(key),
            _ => None,
        }
    }

    /// The text, where this is a string.
    pub fn as_str(&self) -> (r: Option<&str>)
        ensures
            text_of(r) == self@.text(),
    {
        proof {
            lemma_view(*self);
        }
        match self {
            Json::Text(s) => Some(s.as_str()),
            _ => None,
        }
    }

    /// The truth value, where this is one.
    pub fn as_bool(&self) -> (r: Option<bool>)
        ensures
            r == self@.flag(),
    {
        proof {
            lemma_view(*self);
        }
        match self {
            Json::Bool(b) => Some(*b),
            _ => None,
        }
    }

    /// The items, where this is an array.
    pub fn as_array(&self) -> (r: Option<&Vec<Json>>)
        ensures
            match r {
                Some(items) => self@.items() == Some(views(items@)),
                None => self@.items() is None,
            },
    {
        proof {
            lemma_view(*self);
        }
        match self {
            Json::Array(items) => Some(items),
            _ => None,
        }
    }

    /// The fields, where this is an object.
    pub fn as_object(&self) -> (r: Option<&Fields>)
        ensures
            match r {
                Some(fields) => self@.fields() == Some(fields@),
                None => self@.fields() is None,
            },
    {
        proof {
            lemma_view(*self);
        }
        match self {
            Json::Object(fields) => Some(fields),
            _ => None,
        }
    }

    /// Whether this is an object.
    pub fn is_object(&self) -> (r: bool)
        ensures
            r == (self@ is Object),
    {
        proof {
            lemma_view(*self);
        }
        match self {
            Json::Object(_) => true,
            _ => false,
        }
    }

    /// Whether this is `null`.
    pub fn is_null(&self) -> (r: bool)
        ensures
            r == (self@ is Null),
    {
        proof {
            lemma_view(*self);
        }
        match self {
            Json::Null => true,
            _ => false,
        }
    }

    /// The text of a string field.
    pub fn text_at(&self, key: &str) -> (r: Option<&str>)
        ensures
            text_of(r) == self@.text_at(key@),
    {
        match self.get(key) {
            Some(v) => v.as_str(),
            None => None,
        }
    }

    /// The truth value of a field; false where there is none.
    pub fn flag_at(&self, key: &str) -> (r: bool)
        ensures
            r == self@.flag_at(key@),
    {
        match self.get(key) {
            Some(v) => match v.as_bool() {
                Some(b) => b,
                None => false,
            },
            None => false,
        }
    }

    /// The items of an array field.
    pub fn items_at(&self, key: &str) -> (r: Option<&Vec<Json>>)
        ensures
            match r {
                Some(items) => self@.items_at(key@) == Some(views(items@)),
                None => self@.items_at(key@) is None,
            },
    {
        match self.get(key) {
            Some(v) => v.as_array(),
            None => None,
        }
    }

    /// A copy.
    pub fn duplicate(&self) -> (r: Json)
        ensures
            r@ == self@,
        decreases self,
    {
        proof {
            lemma_view(*self);
        }
        let r = match self {
            Json::Null => Json::Null,
            Json::Bool(b) => Json::Bool(*b),
            Json::Number(n) => Json::Number(copy_number(n)),
            Json::Text(s) => Json::Text(s.clone()),
            Json::Array(items) => {
                let mut out: Vec<Json> = Vec::new();
                let mut i: usize = 0;
                assert(views(out@) =~= views(items@).take(0));
                while i < items.len()
                    invariant
                        i <= items@.len(),
                        self matches Json::Array(inner) && inner == items,
                        views(out@) == views(items@).take(i as int),
                    decreases items@.len() - i,
                {
                    let ghost before = views(out@);
                    out.push(items[i].duplicate());
                    assert(views(out@) =~= before.push(items@[i as int]@));
                    i += 1;
                    assert(views(items@).take(i as int) =~= before.push(items@[i - 1]@));
                }
                assert(views(items@).take(i as int) =~= views(items@));
                Json::Array(out)
            },
            Json::Object(fields) => Json::Object(fields.duplicate()),
        };
        proof {
            lemma_view(r);
        }
        r
    }

    /// The text of a number; nothing for another value.
    pub fn number(&self) -> (r: Option<String>)
        ensures
            match r {
                Some(t) => self@ == JsonView::Number(t@),
                None => !(self@ is Number),
            },
    {
        proof {
            lemma_view(*self);
        }
        match self {
            Json::Number(n) => Some(show_number(n)),
            _ => None,
        }
    }

    /// The value in the form that `serde_json` writes.
    fn to_value(&self) -> (r: serde_json::Value)
        ensures
            value_view(r) == self@,
        decreases self,
    {
        proof {
            lemma_view(*self);
        }
        match self {
            Json::Null => assemble(Parts::Null),
            Json::Bool(b) => assemble(Parts::Bool(*b)),
            Json::Number(n) => assemble(Parts::Number(copy_number(n))),
            Json::Text(s) => assemble(Parts::Text(s.clone())),
            Json::Array(items) => {
                let mut out: Vec<serde_json::Value> = Vec::new();
                let mut i: usize = 0;
                while i < items.len()
                    invariant
                        i <= items@.len(),
                        self matches Json::Array(inner) && inner == items,
                        out@.len() == i,
                        forall|j: int| 0 <= j < i ==> value_view(#[trigger] out@[j]) == items@[j]@,
                    decreases items@.len() - i,
                {
                    out.push(items[i].to_value());
                    i += 1;
                }
                assert(out@.map_values(|v: serde_json::Value| value_view(v)) =~= views(items@));
                assemble(Parts::Array(out))
            },
            Json::Object(fields) => {
                proof {
                    use_type_invariant(fields);
                }
                let mut out: Vec<(String, serde_json::Value)> = Vec::new();
                let mut i: usize = 0;
                while i < fields.entries.len()
                    invariant
                        i <= fields.entries@.len(),
                        self matches Json::Object(inner) && inner == fields,
                        out@.len() == i,
                        forall|j: int|
                            0 <= j < i ==> (#[trigger] out@[j]).0@ == fields@[j].0 && value_view(
                                out@[j].1,
                            ) == fields@[j].1,
                    decreases fields.entries@.len() - i,
                {
                    let key: String = fields.entries[i].0.clone();
                    out.push((key, fields.entries[i].1.to_value()));
                    i += 1;
                }
                assert(pairs_view(out@) =~= fields@);
                assemble(Parts::Object(out))
            },
        }
    }

    /// The value that `serde_json` read.
    fn from_value(value: serde_json::Value) -> (r: Json)
        ensures
            r@ == value_view(value),
        decreases value_view(value),
    {
        let ghost whole = value_view(value);
        let r = match take_apart(value) {
            Parts::Null => Json::Null,
            Parts::Bool(b) => Json::Bool(b),
            Parts::Number(n) => Json::Number(n),
            Parts::Text(s) => Json::Text(s),
            Parts::Array(items) => {
                let ghost all = items@;
                let ghost target = all.map_values(|v: serde_json::Value| value_view(v));
                assert(whole == JsonView::Array(target));
                let mut out: Vec<Json> = Vec::new();
                for item in it: items
                    invariant
                        it.seq() == all,
                        value_view(value) == whole,
                        whole == JsonView::Array(target),
                        target == all.map_values(|v: serde_json::Value| value_view(v)),
                        out@.len() == it.index(),
                        forall|j: int| 0 <= j < it.index() ==> (#[trigger] out@[j])@ == target[j],
                {
                    proof {
                        lemma_item_smaller(whole, it.index());
                        assert(target[it.index()] == value_view(item));
                    }
                    out.push(Json::from_value(item));
                }
                assert(views(out@) =~= target);
                Json::Array(out)
            },
            Parts::Object(pairs) => {
                let ghost all = pairs@;
                let ghost target = pairs_view(all);
                assert(whole == JsonView::Object(target));
                let mut out: Vec<(String, Json)> = Vec::new();
                for pair in it: pairs
                    invariant
                        it.seq() == all,
                        value_view(value) == whole,
                        whole == JsonView::Object(target),
                        target == pairs_view(all),
                        out@.len() == it.index(),
                        forall|j: int|
                            0 <= j < it.index() ==> (#[trigger] out@[j]).0@ == target[j].0
                                && out@[j].1@ == target[j].1,
                {
                    proof {
                        let i = it.index();
                        assert(target[i] == (pair.0@, value_view(pair.1)));
                        lemma_field_smaller(whole, i);
                    }
                    out.push((pair.0, Json::from_value(pair.1)));
                }
                assert(entry_views(out@) =~= target);
                Json::Object(Fields { entries: out })
            },
        };
        proof {
            lemma_view(r);
        }
        r
    }

    /// The compact text of the value.
    pub fn to_compact(&self) -> (r: String)
        ensures
            r@ == compact(self@),
    {
        show_compact(&self.to_value())
    }

    /// The indented text of the value, closed by a line feed. [`Json::parse`] reads the value back
    /// out of it, where all numbers are integers and the nesting stays within the parser's limit.
    pub fn to_document(&self) -> (r: String)
        ensures
            r@ == indented(self@) + "\n"@,
            integers_only(self@) && nested_within(self@, 127) ==> parsed(r@) == Some(self@),
    {
        let mut out: String = show_indented(&self.to_value());
        out.append("\n");
        out
    }

    /// Reads a JSON text.
    pub fn parse(text: &str) -> (r: Result<Json, String>)
        ensures
            match r {
                Ok(v) => parsed(text@) == Some(v@),
                Err(_) => parsed(text@) is None,
            },
    {
        match read_value(text) {
            Ok(v) => Ok(Json::from_value(v)),
            Err(e) => Err(e),
        }
    }
}

// ---------------------------------------------------------------------------
// Laws
// ---------------------------------------------------------------------------
/// A field is found under its key: the first one of that name, and none where there is none. What is
/// no object has no fields.
pub proof fn law_fields_are_found_by_key(
    fields: Seq<(Seq<char>, JsonView)>,
    key: Seq<char>,
    i: int,
    other: JsonView,
)
    requires
        0 <= i <= fields.len(),
        forall|j: int| 0 <= j < i ==> (#[trigger] fields[j]).0 != key,
        i < fields.len() ==> fields[i].0 == key,
    ensures
        i < fields.len() ==> JsonView::Object(fields).get(key) == Some(fields[i].1),
        i == fields.len() ==> JsonView::Object(fields).get(key) is None,
        !(other is Object) ==> other.get(key) is None,
{
    lemma_lookup_skip(fields, key, i);
    if i < fields.len() {
        assert(fields.skip(i)[0] == fields[i]);
    }
}

/// A field that is put stands where the key stood, or else behind the others; all others stay.
pub proof fn law_fields_are_put_in_place(
    fields: Seq<(Seq<char>, JsonView)>,
    key: Seq<char>,
    value: JsonView,
    i: int,
)
    requires
        0 <= i <= fields.len(),
        forall|j: int| 0 <= j < i ==> (#[trigger] fields[j]).0 != key,
        i < fields.len() ==> fields[i].0 == key,
    ensures
        i < fields.len() ==> put(fields, key, value) == fields.update(i, (key, value)),
        i == fields.len() ==> put(fields, key, value) == fields.push((key, value)),
{
    lemma_put_at(fields, key, value, i);
}

/// The accessors give what a field holds, where it is of their kind, and nothing else.
pub proof fn law_accessors_tell_kinds_apart(value: JsonView, key: Seq<char>, held: JsonView)
    requires
        value.get(key) == Some(held),
    ensures
        value.text_at(key) == (match held {
            JsonView::Text(s) => Some(s),
            _ => None,
        }),
        value.items_at(key) == (match held {
            JsonView::Array(items) => Some(items),
            _ => None,
        }),
        value.flag_at(key) == (held == JsonView::Bool(true)),
{
}

/// Of pairs with one key the last one counts: it is found under the key.
pub proof fn law_the_last_pair_counts(pairs: Seq<(Seq<char>, JsonView)>, i: int)
    requires
        0 <= i < pairs.len(),
        forall|j: int| i < j < pairs.len() ==> (#[trigger] pairs[j]).0 != pairs[i].0,
    ensures
        JsonView::Object(put_all(pairs)).get(pairs[i].0) == Some(pairs[i].1),
    decreases pairs.len(),
{
    let front = pairs.drop_last();
    let last = pairs.last();
    if i == pairs.len() - 1 {
        lemma_put_lookup(put_all(front), last.0, last.1);
    } else {
        assert(pairs[pairs.len() - 1].0 != pairs[i].0);
        assert forall|j: int| i < j < front.len() implies (#[trigger] front[j]).0 != front[i].0 by {
            assert(front[j] == pairs[j]);
        }
        law_the_last_pair_counts(front, i);
        lemma_put_others(put_all(front), last.0, last.1, pairs[i].0);
    }
}

/// Putting a field leaves the others as they are.
pub proof fn lemma_put_others(
    fields: Seq<(Seq<char>, JsonView)>,
    key: Seq<char>,
    value: JsonView,
    other: Seq<char>,
)
    requires
        other != key,
    ensures
        lookup(put(fields, key, value), other) == lookup(fields, other),
    decreases fields.len(),
{
    let out = put(fields, key, value);
    if fields.len() == 0 {
        assert(lookup(out.skip(1), other) is None);
    } else if fields[0].0 == key {
        assert(out.skip(1) =~= fields.skip(1));
    } else {
        lemma_put_others(fields.skip(1), key, value, other);
        assert(out.skip(1) =~= put(fields.skip(1), key, value));
    }
}

} // verus!
