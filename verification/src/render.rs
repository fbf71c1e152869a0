//! JSON text of documents, made by `serde_json`.

use crate::json::{JsonModel, JsonValue};
use crate::text::Text;
use serde_json::Value;
use vstd::prelude::*;

verus! {

/// The `serde_json::Value` of a boolean, or of `null` where there is none.
pub uninterp spec fn flag_document(flag: Option<bool>) -> Value;

/// The `serde_json::Value` of a number that is written as this text.
pub uninterp spec fn number_document(text: Text) -> Value;

/// The `serde_json::Value` of a string.
pub uninterp spec fn string_document(text: Text) -> Value;

/// The `serde_json::Value` of an array.
pub uninterp spec fn array_document(items: Seq<Value>) -> Value;

/// The `serde_json::Value` of an object with these members, inserted one after the other.
pub uninterp spec fn object_document(members: Seq<(Text, Value)>) -> Value;

/// The JSON text of a `serde_json::Value`.
pub uninterp spec fn document_text(document: Value) -> Text;

/// `Value::from` on an optional boolean: a function of it, named [`flag_document`].
#[verifier::external_body]
fn flag_value(flag: Option<bool>) -> (document: Value)
    ensures
        document == flag_document(flag),
{
    Value::from(flag)
}

/// `Number::from_str`, and `Value::from` on what it accepts: a function of the text, named
/// [`number_document`]. Text that is no number becomes `null`. Which number it is is not stated.
#[verifier::external_body]
fn number_value(text: &str) -> (document: Value)
    ensures
        document == number_document(text@),
{
    Value::from(text.parse::<serde_json::Number>().ok())
}

/// `Value::from` on a string: a function of it, named [`string_document`].
#[verifier::external_body]
fn string_value(text: &str) -> (document: Value)
    ensures
        document == string_document(text@),
{
    Value::from(text)
}

/// `Value::from` on a list of documents: a function of them, named [`array_document`].
#[verifier::external_body]
fn array_value(items: Vec<Value>) -> (document: Value)
    ensures
        document == array_document(items@),
{
    Value::from(items)
}

/// `Value::from_iter` on members: a function of them, named [`object_document`]. How members of
/// the same name are joined, and in which order members are kept, is not stated.
#[verifier::external_body]
fn object_value(members: Vec<(String, Value)>) -> (document: Value)
    ensures
        document == object_document(named(members@)),
{
    Value::from_iter(members)
}

/// `serde_json::to_string` on a document, which always succeeds: a function of the document, named
/// [`document_text`]. What the text is is not stated.
#[verifier::external_body]
fn render_document(document: &Value) -> (text: String)
    ensures
        text@ == document_text(*document),
{
    serde_json::to_string(document).unwrap_or_default()
}

/// Members with their names as text.
pub open spec fn named(members: Seq<(String, Value)>) -> Seq<(Text, Value)> {
    members.map_values(|member: (String, Value)| (member.0@, member.1))
}

/// The `serde_json::Value` that a document is rendered from.
pub open spec fn rendered(document: JsonModel) -> Value
    decreases document,
{
    match document {
        JsonModel::Null => flag_document(None),
        JsonModel::Bool(flag) => flag_document(Some(flag)),
        JsonModel::Number(number) => number_document(number.text()),
        JsonModel::String(text) => string_document(text),
        JsonModel::Array(items) => array_document(rendered_items(items)),
        JsonModel::Object(members) => object_document(rendered_members(members)),
    }
}

/// The values that a list of documents is rendered from.
pub open spec fn rendered_items(items: Seq<JsonModel>) -> Seq<Value>
    decreases items,
{
    if items.len() == 0 {
        Seq::empty()
    } else {
        rendered_items(items.drop_last()).push(rendered(items.last()))
    }
}

/// The values that an object's members are rendered from.
pub open spec fn rendered_members(members: Seq<(Text, JsonModel)>) -> Seq<(Text, Value)>
    decreases members,
{
    if members.len() == 0 {
        Seq::empty()
    } else {
        rendered_members(members.drop_last()).push(
            (members.last().0, rendered(members.last().1)),
        )
    }
}

/// The JSON text of a document.
pub open spec fn json_text(document: JsonModel) -> Text {
    document_text(rendered(document))
}

/// Takes a document to `serde_json`.
fn to_document(value: &JsonValue) -> (document: Value)
    ensures
        document == rendered(value.deep_view()),
    decreases *value,
{
    match value {
        JsonValue::Null => flag_value(None),
        JsonValue::Bool(flag) => flag_value(Some(*flag)),
        JsonValue::Number(number) => number_value(number.text().as_str()),
        JsonValue::String(text) => string_value(text.as_str()),
        JsonValue::Array(items) => {
            let ghost models = value.deep_view()->Array_0;
            proof {
                crate::json::lemma_json_models(items@);
            }
            let mut documents: Vec<Value> = Vec::new();
            assert(documents@ =~= rendered_items(models.take(0)));
            let mut i: usize = 0;
            while i < items.len()
                invariant
                    i <= items.len(),
                    *value == JsonValue::Array(*items),
                    models.len() == items.len(),
                    forall|k: int|
                        0 <= k < items.len() ==> #[trigger] models[k] == items@[k].deep_view(),
                    documents@ == rendered_items(models.take(i as int)),
                decreases items.len() - i,
            {
                assert(decreases_to!(*value => value->Array_0));
                assert(decreases_to!(*items => items@));
                assert(decreases_to!(items@ => items@[i as int]));
                let document = to_document(&items[i]);
                documents.push(document);
                proof {
                    let longer = models.take(i + 1);
                    assert(longer.drop_last() =~= models.take(i as int));
                    assert(longer.last() == models[i as int]);
                }
                i = i + 1;
            }
            assert(models.take(models.len() as int) =~= models);
            array_value(documents)
        },
        JsonValue::Object(entries) => {
            let ghost models = value.deep_view()->Object_0;
            proof {
                crate::json::lemma_entry_models(entries@);
            }
            let mut members: Vec<(String, Value)> = Vec::new();
            assert(named(members@) =~= rendered_members(models.take(0)));
            let mut i: usize = 0;
            while i < entries.len()
                invariant
                    i <= entries.len(),
                    *value == JsonValue::Object(*entries),
                    models.len() == entries.len(),
                    forall|k: int|
                        0 <= k < entries.len() ==> #[trigger] models[k] == (
                            entries@[k].0@,
                            entries@[k].1.deep_view(),
                        ),
                    named(members@) == rendered_members(models.take(i as int)),
                decreases entries.len() - i,
            {
                assert(decreases_to!(*value => value->Object_0));
                assert(decreases_to!(*entries => entries@));
                assert(decreases_to!(entries@ => entries@[i as int]));
                assert(decreases_to!(entries@[i as int] => entries@[i as int].1));
                let ghost before = members@;
                let document = to_document(&entries[i].1);
                let name = entries[i].0.clone();
                members.push((name, document));
                proof {
                    let longer = models.take(i + 1);
                    assert(longer.drop_last() =~= models.take(i as int));
                    assert(longer.last() == models[i as int]);
                    assert(named(members@) =~= named(before).push((name@, document)));
                }
                i = i + 1;
            }
            assert(models.take(models.len() as int) =~= models);
            object_value(members)
        },
    }
}

/// The JSON text of `value`.
pub fn render_json(value: &JsonValue) -> (text: String)
    ensures
        text@ == json_text(value.deep_view()),
{
    let document = to_document(value);
    render_document(&document)
}

} // verus!
