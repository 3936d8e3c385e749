//! JSON documents, built here and printed by `serde_json`.
//!
//! The report formats and the viewer's data are JSON documents. What goes
//! into a document is decided and proved here; `serde_json` prints it.

use vstd::prelude::*;

use serde_json::Value as JsonValue;


verus! {

/// A JSON value.
#[derive(Debug)]
pub enum Json {
    Null,
    Bool(bool),
    Int(i64),
    UInt(u64),
    Text(String),
    Array(Vec<Json>),
    /// Members, as given; the printer orders them by key.
    Object(Vec<(String, Json)>),
}

/// The content of a JSON value.
pub enum JsonModel {
    Null,
    Bool(bool),
    Int(int),
    Text(Seq<char>),
    Array(Seq<JsonModel>),
    Object(Seq<(Seq<char>, JsonModel)>),
}

/// The content of a JSON value.
pub open spec fn json_view(j: Json) -> JsonModel
    decreases j, 0int,
{
    match j {
        Json::Null => JsonModel::Null,
        Json::Bool(b) => JsonModel::Bool(b),
        Json::Int(n) => JsonModel::Int(n as int),
        Json::UInt(n) => JsonModel::Int(n as int),
        Json::Text(t) => JsonModel::Text(t@),
        Json::Array(items) => JsonModel::Array(items_view(items@)),
        Json::Object(members) => JsonModel::Object(members_view(members@)),
    }
}

/// The contents of a list of JSON values.
pub open spec fn items_view(items: Seq<Json>) -> Seq<JsonModel>
    decreases items, 1int,
{
    if items.len() == 0 {
        seq![]
    } else {
        items_view(items.drop_last()).push(json_view(items.last()))
    }
}

/// The contents of a list of JSON members.
pub open spec fn members_view(members: Seq<(String, Json)>) -> Seq<(Seq<char>, JsonModel)>
    decreases members, 1int,
{
    if members.len() == 0 {
        seq![]
    } else {
        members_view(members.drop_last()).push(
            (members.last().0@, json_view(members.last().1)),
        )
    }
}

impl View for Json {
    type V = JsonModel;

    open spec fn view(&self) -> JsonModel {
        json_view(*self)
    }
}

/// A JSON value as `serde_json` holds it.
#[verifier::external_type_specification]
#[verifier::external_body]
pub struct ExJsonValue(JsonValue);

/// The text `serde_json::to_string_pretty` prints for a document: two-space
/// indentation, object members ordered by key. A function of the document
/// alone.
pub uninterp spec fn pretty_json(doc: JsonModel) -> Seq<char>;

/// Prints `doc` with `serde_json::to_string_pretty`, after copying it into a
/// `JsonValue`. Printing a value cannot fail; the result is named
/// `pretty_json`, and its layout is not written out here.
#[verifier::external_body]
pub fn to_string_pretty(doc: &Json) -> (r: String)
    ensures
        r@ == pretty_json(doc@),
{
    serde_json::to_string_pretty(&json_value(doc)).unwrap_or_default()
}

/// The text `serde_json::to_string` prints for a document: no whitespace,
/// object members ordered by key. A function of the document alone.
pub uninterp spec fn compact_json(doc: JsonModel) -> Seq<char>;

/// Prints `doc` with `serde_json::to_string`, after copying it into a
/// `JsonValue`. Printing a value cannot fail; the result is named
/// `compact_json`, and its layout is not written out here.
#[verifier::external_body]
pub fn to_string(doc: &Json) -> (r: String)
    ensures
        r@ == compact_json(doc@),
{
    serde_json::to_string(&json_value(doc)).unwrap_or_default()
}

/// Copies a document into a `JsonValue`, variant for variant, for the two
/// printers above.
#[verifier::external_body]
fn json_value(doc: &Json) -> JsonValue {
    match doc {
        Json::Null => JsonValue::Null,
        Json::Bool(b) => JsonValue::Bool(*b),
        Json::Int(n) => JsonValue::from(*n),
        Json::UInt(n) => JsonValue::from(*n),
        Json::Text(t) => JsonValue::String(t.clone()),
        Json::Array(items) => JsonValue::Array(items.iter().map(json_value).collect()),
        Json::Object(members) => JsonValue::Object(
            members.iter().map(|(k, v)| (k.clone(), json_value(v))).collect(),
        ),
    }
}

/// A text value.
pub(crate) fn text(t: &str) -> (j: Json)
    ensures
        j@ == JsonModel::Text(t@),
{
    Json::Text(t.to_owned())
}

/// A text value, or null when absent.
pub(crate) fn text_or_null(t: Option<&str>) -> (j: Json)
    ensures
        j@ == match t {
            Some(s) => JsonModel::Text(s@),
            None => JsonModel::Null,
        },
{
    match t {
        Some(s) => Json::Text(s.to_owned()),
        None => Json::Null,
    }
}

/// A count or position, as a number.
pub(crate) fn count(n: usize) -> (j: Json)
    ensures
        j@ == JsonModel::Int(n as int),
{
    Json::UInt(n as u64)
}

/// A count or position, or null when absent.
pub(crate) fn count_or_null(n: Option<usize>) -> (j: Json)
    ensures
        j@ == match n {
            Some(v) => JsonModel::Int(v as int),
            None => JsonModel::Null,
        },
{
    match n {
        Some(v) => Json::UInt(v as u64),
        None => Json::Null,
    }
}

/// Adds a member to an object under construction.
pub(crate) fn push_member(members: &mut Vec<(String, Json)>, key: &str, value: Json)
    ensures
        members_view(final(members)@) == members_view(old(members)@).push((key@, value@)),
{
    let ghost before = old(members)@;
    members.push((key.to_owned(), value));
    assert(members@.drop_last() =~= before);
}

/// An object of one member.
pub(crate) fn object1(key: &str, value: Json) -> (j: Json)
    ensures
        j@ == JsonModel::Object(seq![(key@, value@)]),
{
    let mut members: Vec<(String, Json)> = Vec::new();
    push_member(&mut members, key, value);
    assert(members_view(members@) =~= seq![(key@, value@)]) by {
        assert(members_view(Seq::<(String, Json)>::empty()) =~= seq![]);
    }
    Json::Object(members)
}

/// An array of one item.
pub(crate) fn array1(value: Json) -> (j: Json)
    ensures
        j@ == JsonModel::Array(seq![value@]),
{
    let mut items: Vec<Json> = Vec::new();
    push_item(&mut items, value);
    assert(items_view(items@) =~= seq![value@]) by {
        assert(items_view(Seq::<Json>::empty()) =~= seq![]);
    }
    Json::Array(items)
}

/// Adds an item to an array under construction.
pub(crate) fn push_item(items: &mut Vec<Json>, value: Json)
    ensures
        items_view(final(items)@) == items_view(old(items)@).push(value@),
{
    let ghost before = old(items)@;
    items.push(value);
    assert(items@.drop_last() =~= before);
}

} // verus!
