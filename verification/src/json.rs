//! JSON documents as the library reads and edits them, with the two calls
//! into `serde_json` that turn text into a document and back.

use vstd::prelude::*;
use crate::text::str_eq;

verus! {

/// A JSON document.
#[derive(Debug, PartialEq)]
pub enum JsonValue {
    Null,
    Bool(bool),
    /// A number: its canonical text, and its value where it is a
    /// non-negative integer that fits a `u64`.
    Number(String, Option<u64>),
    String(String),
    Array(Vec<JsonValue>),
    /// Members in order. A document read by `parse_json` has each key
    /// once, in key order (serde_json keeps objects in a sorted map).
    Object(Vec<(String, JsonValue)>),
}

/// Mathematical model of a JSON document.
pub enum Json {
    Null,
    Bool(bool),
    Number(Seq<char>, Option<u64>),
    Str(Seq<char>),
    Array(Seq<Json>),
    Object(Seq<(Seq<char>, Json)>),
}

pub open spec fn view_items(items: Seq<JsonValue>) -> Seq<Json>
    decreases items,
{
    if items.len() == 0 {
        Seq::empty()
    } else {
        view_items(items.subrange(0, items.len() - 1)).push(view_json(items[items.len() - 1]))
    }
}

pub open spec fn view_fields(fields: Seq<(String, JsonValue)>) -> Seq<(Seq<char>, Json)>
    decreases fields,
{
    if fields.len() == 0 {
        Seq::empty()
    } else {
        let last = fields[fields.len() - 1];
        view_fields(fields.subrange(0, fields.len() - 1)).push((last.0@, view_json(last.1)))
    }
}

pub open spec fn view_json(v: JsonValue) -> Json
    decreases v,
{
    match v {
        JsonValue::Null => Json::Null,
        JsonValue::Bool(b) => Json::Bool(b),
        JsonValue::Number(t, n) => Json::Number(t@, n),
        JsonValue::String(s) => Json::Str(s@),
        JsonValue::Array(items) => Json::Array(view_items(items@)),
        JsonValue::Object(fields) => Json::Object(view_fields(fields@)),
    }
}

impl View for JsonValue {
    type V = Json;

    open spec fn view(&self) -> Json {
        view_json(*self)
    }
}

pub proof fn lemma_view_items(items: Seq<JsonValue>)
    ensures
        view_items(items).len() == items.len(),
        forall|i: int| 0 <= i < items.len() ==> #[trigger] view_items(items)[i] == view_json(items[i]),
    decreases items.len(),
{
    if items.len() > 0 {
        lemma_view_items(items.subrange(0, items.len() - 1));
    }
}

pub proof fn lemma_view_fields(fields: Seq<(String, JsonValue)>)
    ensures
        view_fields(fields).len() == fields.len(),
        forall|i: int|
            0 <= i < fields.len() ==> #[trigger] view_fields(fields)[i] == (
                fields[i].0@,
                view_json(fields[i].1),
            ),
    decreases fields.len(),
{
    if fields.len() > 0 {
        lemma_view_fields(fields.subrange(0, fields.len() - 1));
    }
}

pub proof fn lemma_view_items_push(items: Seq<JsonValue>, x: JsonValue)
    ensures
        view_items(items.push(x)) == view_items(items).push(view_json(x)),
{
    assert(items.push(x).subrange(0, items.len() as int) =~= items);
}

pub proof fn lemma_view_fields_push(fields: Seq<(String, JsonValue)>, x: (String, JsonValue))
    ensures
        view_fields(fields.push(x)) == view_fields(fields).push((x.0@, view_json(x.1))),
{
    assert(fields.push(x).subrange(0, fields.len() as int) =~= fields);
}

/// `i` is the first position of `fields` whose key is `key`.
pub open spec fn is_first_key(fields: Seq<(Seq<char>, Json)>, key: Seq<char>, i: int) -> bool {
    0 <= i < fields.len() && fields[i].0 == key && forall|j: int|
        0 <= j < i ==> #[trigger] fields[j].0 != key
}

/// Value of the first member named `key`, if any.
pub open spec fn field_lookup(fields: Seq<(Seq<char>, Json)>, key: Seq<char>) -> Option<Json> {
    if exists|i: int| is_first_key(fields, key, i) {
        Some(fields[choose|i: int| is_first_key(fields, key, i)].1)
    } else {
        None
    }
}

pub proof fn lemma_first_key(fields: Seq<(Seq<char>, Json)>, key: Seq<char>, i: int)
    requires
        is_first_key(fields, key, i),
    ensures
        field_lookup(fields, key) == Some(fields[i].1),
{
    let k = choose|k: int| is_first_key(fields, key, k);
    assert(is_first_key(fields, key, k));
    if k < i {
        assert(fields[k].0 != key);
    }
    if i < k {
        assert(fields[i].0 != key);
    }
}

/// `value.get(key)`: the member `key` of an object, `None` otherwise.
pub open spec fn json_get(v: Json, key: Seq<char>) -> Option<Json> {
    match v {
        Json::Object(fields) => field_lookup(fields, key),
        _ => None,
    }
}

/// `value.as_str()`.
pub open spec fn json_str(v: Option<Json>) -> Option<Seq<char>> {
    match v {
        Some(Json::Str(s)) => Some(s),
        _ => None,
    }
}

/// `value.as_u64()`.
pub open spec fn json_u64(v: Option<Json>) -> Option<u64> {
    match v {
        Some(Json::Number(_, n)) => n,
        _ => None,
    }
}

/// `value.as_array()`.
pub open spec fn json_array(v: Option<Json>) -> Option<Seq<Json>> {
    match v {
        Some(Json::Array(items)) => Some(items),
        _ => None,
    }
}

/// The string member `key`, or the empty string.
pub open spec fn str_member(v: Json, key: Seq<char>) -> Seq<char> {
    match json_str(json_get(v, key)) {
        Some(s) => s,
        None => Seq::empty(),
    }
}

/// The unsigned integer member `key`, or 0.
pub open spec fn u64_member(v: Json, key: Seq<char>) -> u64 {
    match json_u64(json_get(v, key)) {
        Some(n) => n,
        None => 0,
    }
}

pub open spec fn opt_json(r: Option<&JsonValue>) -> Option<Json> {
    match r {
        Some(v) => Some(v@),
        None => None,
    }
}

/// Position of the first member named `key`.
pub fn find_key(fields: &Vec<(String, JsonValue)>, key: &str) -> (r: Option<usize>)
    ensures
        match r {
            Some(i) => i < fields@.len() && is_first_key(view_fields(fields@), key@, i as int)
                && field_lookup(view_fields(fields@), key@) == Some(view_fields(fields@)[i as int].1),
            None => field_lookup(view_fields(fields@), key@) is None && forall|j: int|
                0 <= j < fields@.len() ==> #[trigger] view_fields(fields@)[j].0 != key@,
        },
{
    proof {
        lemma_view_fields(fields@);
    }
    let ghost fv = view_fields(fields@);
    let mut i: usize = 0;
    while i < fields.len()
        invariant
            i <= fields.len(),
            fv == view_fields(fields@),
            fv.len() == fields.len(),
            forall|j: int|
                0 <= j < fields.len() ==> #[trigger] fv[j] == (
                    fields@[j].0@,
                    view_json(fields@[j].1),
                ),
            forall|j: int| 0 <= j < i ==> #[trigger] fv[j].0 != key@,
        decreases fields.len() - i,
    {
        if str_eq(fields[i].0.as_str(), key) {
            proof {
                assert(is_first_key(fv, key@, i as int));
                lemma_first_key(fv, key@, i as int);
            }
            return Some(i);
        }
        i += 1;
    }
    assert(!exists|k: int| is_first_key(fv, key@, k));
    None
}

/// The member `key` of `v` when `v` is an object.
pub fn get_field<'a>(v: &'a JsonValue, key: &str) -> (r: Option<&'a JsonValue>)
    ensures
        opt_json(r) == json_get(v@, key@),
{
    match v {
        JsonValue::Object(fields) => {
            proof {
                lemma_view_fields(fields@);
            }
            assert(v@ == Json::Object(view_fields(fields@)));
            match find_key(fields, key) {
                Some(i) => Some(&fields[i].1),
                None => None,
            }
        },
        _ => None,
    }
}

/// The string held by `v`, if it is a string.
pub fn as_str<'a>(v: Option<&'a JsonValue>) -> (r: Option<&'a str>)
    ensures
        match r {
            Some(s) => json_str(opt_json(v)) == Some(s@),
            None => json_str(opt_json(v)) is None,
        },
{
    match v {
        Some(JsonValue::String(s)) => Some(s.as_str()),
        _ => None,
    }
}

/// The number held by `v`, if it is a non-negative integer fitting `u64`.
pub fn as_u64(v: Option<&JsonValue>) -> (r: Option<u64>)
    ensures
        r == json_u64(opt_json(v)),
{
    match v {
        Some(JsonValue::Number(_, n)) => *n,
        _ => None,
    }
}

/// The elements of `v`, if it is an array.
pub fn as_array<'a>(v: Option<&'a JsonValue>) -> (r: Option<&'a Vec<JsonValue>>)
    ensures
        match r {
            Some(items) => json_array(opt_json(v)) == Some(view_items(items@)),
            None => json_array(opt_json(v)) is None,
        },
{
    match v {
        Some(JsonValue::Array(items)) => Some(items),
        _ => None,
    }
}

/// The string member `key` of `v`, or the empty string.
pub fn string_member(v: &JsonValue, key: &str) -> (r: String)
    ensures
        r@ == str_member(v@, key@),
{
    match as_str(get_field(v, key)) {
        Some(s) => crate::text::owned(s),
        None => String::new(),
    }
}

/// The unsigned integer member `key` of `v`, or 0.
pub fn u64_member_of(v: &JsonValue, key: &str) -> (r: u64)
    ensures
        r == u64_member(v@, key@),
{
    match as_u64(get_field(v, key)) {
        Some(n) => n,
        None => 0,
    }
}

#[verifier::external_type_specification]
#[verifier::external_body]
pub struct ExSerdeValue(serde_json::Value);

/// What `serde_json::from_str::<serde_json::Value>` makes of a text: the
/// document, or `None` where the text is not JSON.
pub uninterp spec fn json_parse(text: Seq<char>) -> Option<Json>;

/// What `serde_json::to_string_pretty` writes for a document.
pub uninterp spec fn json_pretty(doc: Json) -> Seq<char>;

/// Member-for-member copy of a `serde_json::Value`.
#[verifier::external_body]
fn from_serde(v: &serde_json::Value) -> JsonValue {
    match v {
        serde_json::Value::Null => JsonValue::Null,
        serde_json::Value::Bool(b) => JsonValue::Bool(*b),
        serde_json::Value::Number(n) => JsonValue::Number(n.to_string(), n.as_u64()),
        serde_json::Value::String(s) => JsonValue::String(s.clone()),
        serde_json::Value::Array(a) => JsonValue::Array(a.iter().map(from_serde).collect()),
        serde_json::Value::Object(m) => JsonValue::Object(
            m.iter().map(|(k, x)| (k.clone(), from_serde(x))).collect(),
        ),
    }
}

/// Member-for-member copy into a `serde_json::Value`.
#[verifier::external_body]
fn to_serde(v: &JsonValue) -> serde_json::Value {
    match v {
        JsonValue::Null => serde_json::Value::Null,
        JsonValue::Bool(b) => serde_json::Value::Bool(*b),
        JsonValue::Number(t, _) => serde_json::from_str(t).unwrap_or(serde_json::Value::Null),
        JsonValue::String(s) => serde_json::Value::String(s.clone()),
        JsonValue::Array(a) => serde_json::Value::Array(a.iter().map(to_serde).collect()),
        JsonValue::Object(m) => serde_json::Value::Object(
            m.iter().map(|(k, x)| (k.clone(), to_serde(x))).collect(),
        ),
    }
}

/// Parses `text` with `serde_json::from_str::<serde_json::Value>`; the result
/// is the parsed document, or serde_json's error text where it reports one.
/// The wording of that text is serde_json's and is not stated here.
#[verifier::external_body]
pub fn parse_json(text: &str) -> (r: Result<JsonValue, String>)
    ensures
        match r {
            Ok(v) => json_parse(text@) == Some(v@),
            Err(_) => json_parse(text@) is None,
        },
{
    serde_json::from_str::<serde_json::Value>(text).map(|v| from_serde(&v)).map_err(|e| e.to_string())
}

/// Renders `doc` with `serde_json::to_string_pretty`: the named rendering of
/// the document. serde_json fails only for a map with non-string keys or a
/// failing `Serialize`, neither of which a `serde_json::Value` has, so the
/// rendering always succeeds.
#[verifier::external_body]
pub fn render_pretty(doc: &JsonValue) -> (r: Result<String, String>)
    ensures
        r is Ok,
        r matches Ok(s) ==> s@ == json_pretty(doc@),
{
    serde_json::to_string_pretty(&to_serde(doc)).map_err(|e| e.to_string())
}


pub proof fn lemma_view_fields_update(fields: Seq<(String, JsonValue)>, i: int, x: (String, JsonValue))
    requires
        0 <= i < fields.len(),
    ensures
        view_fields(fields.update(i, x)) == view_fields(fields).update(i, (x.0@, view_json(x.1))),
{
    lemma_view_fields(fields);
    lemma_view_fields(fields.update(i, x));
    assert(view_fields(fields.update(i, x)) =~= view_fields(fields).update(i, (x.0@, view_json(x.1))));
}

pub proof fn lemma_view_items_update(items: Seq<JsonValue>, i: int, x: JsonValue)
    requires
        0 <= i < items.len(),
    ensures
        view_items(items.update(i, x)) == view_items(items).update(i, view_json(x)),
{
    lemma_view_items(items);
    lemma_view_items(items.update(i, x));
    assert(view_items(items.update(i, x)) =~= view_items(items).update(i, view_json(x)));
}

/// `fields` with the first member named `key` given the value `val`, or
/// with a member `key: val` appended when there is none.
pub open spec fn obj_set(fields: Seq<(Seq<char>, Json)>, key: Seq<char>, val: Json) -> Seq<
    (Seq<char>, Json),
> {
    if exists|i: int| is_first_key(fields, key, i) {
        fields.update(choose|i: int| is_first_key(fields, key, i), (key, val))
    } else {
        fields.push((key, val))
    }
}

pub proof fn lemma_obj_set_at(fields: Seq<(Seq<char>, Json)>, key: Seq<char>, val: Json, i: int)
    requires
        is_first_key(fields, key, i),
    ensures
        obj_set(fields, key, val) == fields.update(i, (key, val)),
{
    lemma_first_key(fields, key, i);
    let k = choose|k: int| is_first_key(fields, key, k);
    assert(is_first_key(fields, key, k));
    if k < i {
        assert(fields[k].0 != key);
    }
    if i < k {
        assert(fields[i].0 != key);
    }
}

/// Sets member `key` of `fields` to `val` (see `obj_set`).
pub fn set_field(fields: &mut Vec<(String, JsonValue)>, key: &str, val: JsonValue)
    ensures
        view_fields(final(fields)@) == obj_set(view_fields(old(fields)@), key@, val@),
{
    match find_key(fields, key) {
        Some(i) => {
            let ghost f0 = fields@;
            proof {
                lemma_obj_set_at(view_fields(f0), key@, val@, i as int);
            }
            let _old = fields.remove(i);
            fields.insert(i, (crate::text::owned(key), val));
            proof {
                assert(fields@ =~= f0.update(i as int, fields@[i as int]));
                lemma_view_fields_update(f0, i as int, fields@[i as int]);
            }
        },
        None => {
            let ghost f0 = fields@;
            fields.push((crate::text::owned(key), val));
            proof {
                lemma_view_fields_push(f0, fields@[f0.len() as int]);
                assert(fields@ =~= f0.push(fields@[f0.len() as int]));
            }
        },
    }
}


/// A key that occurs has a first occurrence.
pub proof fn lemma_first_key_exists(fields: Seq<(Seq<char>, Json)>, key: Seq<char>, j: int)
    requires
        0 <= j < fields.len(),
        fields[j].0 == key,
    ensures
        exists|i: int| is_first_key(fields, key, i),
    decreases j,
{
    if forall|m: int| 0 <= m < j ==> #[trigger] fields[m].0 != key {
        assert(is_first_key(fields, key, j));
    } else {
        let m = choose|m: int| 0 <= m < j && #[trigger] fields[m].0 == key;
        lemma_first_key_exists(fields, key, m);
    }
}

/// A key with no member has no lookup, and no member carries it.
pub proof fn lemma_lookup_none(fields: Seq<(Seq<char>, Json)>, key: Seq<char>)
    ensures
        field_lookup(fields, key) is None <==> forall|m: int|
            0 <= m < fields.len() ==> #[trigger] fields[m].0 != key,
{
    if field_lookup(fields, key) is None {
        assert forall|m: int| 0 <= m < fields.len() implies #[trigger] fields[m].0 != key by {
            if fields[m].0 == key {
                lemma_first_key_exists(fields, key, m);
            }
        }
    } else {
        let i = choose|i: int| is_first_key(fields, key, i);
        assert(fields[i].0 == key);
    }
}

/// After `obj_set`, the key holds the value set.
pub proof fn lemma_obj_set_lookup(fields: Seq<(Seq<char>, Json)>, key: Seq<char>, val: Json)
    ensures
        field_lookup(obj_set(fields, key, val), key) == Some(val),
{
    if exists|i: int| is_first_key(fields, key, i) {
        let i = choose|i: int| is_first_key(fields, key, i);
        let g = fields.update(i, (key, val));
        assert(is_first_key(g, key, i));
        lemma_first_key(g, key, i);
    } else {
        let g = fields.push((key, val));
        lemma_lookup_none(fields, key);
        assert(is_first_key(g, key, fields.len() as int));
        lemma_first_key(g, key, fields.len() as int);
    }
}

/// `obj_set` leaves the lookup of every other key as it was.
pub proof fn lemma_obj_set_other(
    fields: Seq<(Seq<char>, Json)>,
    key: Seq<char>,
    val: Json,
    other: Seq<char>,
)
    requires
        other != key,
    ensures
        field_lookup(obj_set(fields, key, val), other) == field_lookup(fields, other),
{
    let g = obj_set(fields, key, val);
    assert(g.len() >= fields.len());
    assert(forall|m: int| 0 <= m < fields.len() && fields[m].0 != key ==> #[trigger] g[m] == fields[m]);
    assert(forall|m: int| 0 <= m < g.len() && (m >= fields.len() || fields[m].0 == key) ==> #[trigger] g[m].0 == key);
    lemma_lookup_none(fields, other);
    lemma_lookup_none(g, other);
    if field_lookup(fields, other) is Some {
        let j = choose|j: int| is_first_key(fields, other, j);
        assert(is_first_key(g, other, j));
        lemma_first_key(g, other, j);
        lemma_first_key(fields, other, j);
    } else {
        assert forall|m: int| 0 <= m < g.len() implies #[trigger] g[m].0 != other by {
            if m < fields.len() && fields[m].0 != key {
                assert(g[m] == fields[m]);
            }
        }
    }
}


/// Looking a key up after a push: the earlier member wins.
pub proof fn lemma_lookup_push(fields: Seq<(Seq<char>, Json)>, x: (Seq<char>, Json), key: Seq<char>)
    ensures
        field_lookup(fields.push(x), key) == if field_lookup(fields, key) is Some {
            field_lookup(fields, key)
        } else if x.0 == key {
            Some(x.1)
        } else {
            None::<Json>
        },
{
    let g = fields.push(x);
    assert(forall|m: int| 0 <= m < fields.len() ==> #[trigger] g[m] == fields[m]);
    lemma_lookup_none(fields, key);
    lemma_lookup_none(g, key);
    if field_lookup(fields, key) is Some {
        let j = choose|j: int| is_first_key(fields, key, j);
        assert(is_first_key(g, key, j));
        lemma_first_key(g, key, j);
        lemma_first_key(fields, key, j);
    } else if x.0 == key {
        assert(is_first_key(g, key, fields.len() as int));
        lemma_first_key(g, key, fields.len() as int);
    } else {
        assert forall|m: int| 0 <= m < g.len() implies #[trigger] g[m].0 != key by {
            if m < fields.len() {
                assert(g[m] == fields[m]);
            }
        }
    }
}


/// Setting a key to the value it already holds changes nothing.
pub proof fn lemma_obj_set_same(fields: Seq<(Seq<char>, Json)>, key: Seq<char>, val: Json)
    requires
        field_lookup(fields, key) == Some(val),
    ensures
        obj_set(fields, key, val) == fields,
{
    let i = choose|i: int| is_first_key(fields, key, i);
    lemma_first_key(fields, key, i);
    assert(fields.update(i, (key, val)) =~= fields);
}

} // verus!
