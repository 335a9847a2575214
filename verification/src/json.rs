//! JSON objects for the answers that scripts read.

use crate::text::views;
use vstd::prelude::*;

verus! {

/// The object type of `serde_json`.
#[verifier::external_type_specification]
#[verifier::external_body]
#[verifier::reject_recursive_types(K)]
#[verifier::reject_recursive_types(V)]
pub struct ExMap<K, V>(serde_json::Map<K, V>);

/// The value type of `serde_json`.
#[verifier::external_type_specification]
#[verifier::external_body]
pub struct ExValue(serde_json::Value);

/// A JSON object.
pub type JsonObject = serde_json::Map<String, serde_json::Value>;

/// A value that a field of an object can have.
pub enum JsonField {
    Text(String),
    /// A text, or null.
    Optional(Option<String>),
    Number(u64),
    Flag(bool),
    Texts(Vec<String>),
    Objects(Vec<JsonObject>),
}

/// What a field of an object holds.
pub enum JsonView {
    Null,
    Text(Seq<char>),
    Number(u64),
    Flag(bool),
    List(Seq<JsonView>),
    Object(Map<Seq<char>, JsonView>),
}

/// The fields of an object, by their names.
pub uninterp spec fn object_fields(object: JsonObject) -> Map<Seq<char>, JsonView>;

/// The compact text of the object with these fields.
pub uninterp spec fn json_text(fields: Map<Seq<char>, JsonView>) -> Seq<char>;

/// The fields of an object that has none.
pub open spec fn no_fields() -> Map<Seq<char>, JsonView> {
    Map::empty()
}

/// The fields of each object of a list.
pub open spec fn all_fields(objects: Seq<JsonObject>) -> Seq<Map<Seq<char>, JsonView>> {
    objects.map_values(|object: JsonObject| object_fields(object))
}

/// A list of texts.
pub open spec fn text_list(texts: Seq<Seq<char>>) -> JsonView {
    JsonView::List(texts.map_values(|text: Seq<char>| JsonView::Text(text)))
}

/// A list of objects with these fields.
pub open spec fn object_list(objects: Seq<Map<Seq<char>, JsonView>>) -> JsonView {
    JsonView::List(
        objects.map_values(|fields: Map<Seq<char>, JsonView>| JsonView::Object(fields)),
    )
}

/// What a field holds once it has this value.
pub open spec fn field_view(field: JsonField) -> JsonView {
    match field {
        JsonField::Text(text) => JsonView::Text(text@),
        JsonField::Optional(Some(text)) => JsonView::Text(text@),
        JsonField::Optional(None) => JsonView::Null,
        JsonField::Number(number) => JsonView::Number(number),
        JsonField::Flag(flag) => JsonView::Flag(flag),
        JsonField::Texts(texts) => text_list(views(texts@)),
        JsonField::Objects(objects) => object_list(all_fields(objects@)),
    }
}

/// Calls `serde_json::Map::new`, which makes an object without fields.
#[verifier::external_body]
pub(crate) fn new_object() -> (object: JsonObject)
    ensures
        object_fields(object) == no_fields(),
{
    serde_json::Map::new()
}

/// Calls `serde_json::Map::insert`, which gives one field of the object a value and leaves the
/// others alone.
#[verifier::external_body]
pub(crate) fn set_field(object: &mut JsonObject, name: &str, field: JsonField)
    ensures
        object_fields(*final(object)) == object_fields(*old(object)).insert(
            name@,
            field_view(field),
        ),
{
    let value = match field {
        JsonField::Text(text) => serde_json::Value::from(text),
        JsonField::Optional(text) => serde_json::Value::from(text),
        JsonField::Number(number) => serde_json::Value::from(number),
        JsonField::Flag(flag) => serde_json::Value::from(flag),
        JsonField::Texts(texts) => serde_json::Value::from(texts),
        JsonField::Objects(objects) => serde_json::Value::from(objects),
    };
    object.insert(name.to_string(), value);
}

/// Calls `to_string` of `serde_json::Value` on the object. Its fields are written in the order of
/// their names, so the text depends on the fields alone.
#[verifier::external_body]
pub(crate) fn object_text(object: JsonObject) -> (text: String)
    ensures
        text@ == json_text(object_fields(object)),
{
    serde_json::Value::Object(object).to_string()
}

} // verus!
