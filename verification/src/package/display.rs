//! How a package displays claims.

use crate::json::{JsonModel, JsonValue};
use crate::path::{path_covers, path_from_json, path_matches, path_of_json, select_nodes, selected};
use crate::path::{ClaimsPathPointer, PathModel};
use crate::seqs::{first_where, lemma_first_where, lemma_first_where_is};
use crate::text::Text;
use vstd::prelude::*;

verus! {

broadcast use vstd::string::group_string_axioms;

/// What a claim description says of the name of a claim.
pub enum NameModel {
    /// The description is faulty: it has no path.
    Faulty,
    /// The description is of another claim, or names none.
    Silent,
    /// The name.
    Named(Text),
}

/// The elements of an optional JSON array.
pub open spec fn elements(value: Option<JsonModel>) -> Seq<JsonModel> {
    match value {
        Some(JsonModel::Array(items)) => items,
        _ => Seq::empty(),
    }
}

/// The claim descriptions of credential metadata: those at its top, then those of its member
/// `credential_metadata`.
pub open spec fn claim_descriptions(metadata: JsonModel) -> Seq<JsonModel> {
    elements(metadata.get("claims"@)) + elements(
        match metadata.get("credential_metadata"@) {
            Some(inner) => inner.get("claims"@),
            None => None,
        },
    )
}

/// The name that a display entry gives, if it is one.
pub open spec fn entry_name(entry: JsonModel) -> Option<Text> {
    match entry.get("name"@) {
        Some(JsonModel::String(name)) => if name.len() > 0 {
            Some(name)
        } else {
            None
        },
        _ => None,
    }
}

/// Tells display entries that give a name from others.
pub open spec fn gives_name() -> spec_fn(JsonModel) -> bool {
    |entry: JsonModel| entry_name(entry) is Some
}

/// What a claim description says of the name of the claim at a path.
pub open spec fn described_name(description: JsonModel, path: PathModel) -> NameModel {
    match description.get("path"@) {
        None => NameModel::Faulty,
        Some(value) => match path_of_json(value) {
            None => NameModel::Faulty,
            Some(pattern) => if !path_covers(pattern, path) {
                NameModel::Silent
            } else {
                let entries = elements(description.get("display"@));
                match first_where(entries, gives_name()) {
                    Some(k) => NameModel::Named(entry_name(entries[k])->0),
                    None => NameModel::Silent,
                }
            },
        },
    }
}

/// Tells claim descriptions that settle the name of the claim at a path from others.
pub open spec fn settles(path: PathModel) -> spec_fn(JsonModel) -> bool {
    |description: JsonModel| !(described_name(description, path) is Silent)
}

/// The name that credential metadata gives to the claim at a path: by the first description that
/// says anything, which may be a faulty one.
pub open spec fn metadata_name(metadata: JsonModel, path: PathModel) -> Option<Text> {
    let descriptions = claim_descriptions(metadata);
    match first_where(descriptions, settles(path)) {
        Some(k) => match described_name(descriptions[k], path) {
            NameModel::Named(name) => Some(name),
            _ => None,
        },
        None => None,
    }
}

/// What a claim description says of the name of a claim.
enum ClaimName<'a> {
    Faulty,
    Silent,
    Named(&'a str),
}

impl<'a> ClaimName<'a> {
    spec fn model(&self) -> NameModel {
        match *self {
            ClaimName::Faulty => NameModel::Faulty,
            ClaimName::Silent => NameModel::Silent,
            ClaimName::Named(name) => NameModel::Named(name@),
        }
    }
}

/// The name that `entry` gives, if it gives one.
fn name_in_entry(entry: &JsonValue) -> (name: Option<&str>)
    ensures
        name.deep_view() == entry_name(entry.deep_view()),
{
    match entry.get("name") {
        Some(value) => match value.as_str() {
            Some(name) => if name.is_empty() {
                None
            } else {
                Some(name)
            },
            None => None,
        },
        None => None,
    }
}

/// The first name among display entries.
fn name_in_display(display: &Vec<JsonValue>) -> (name: Option<&str>)
    ensures
        match first_where(display.deep_view(), gives_name()) {
            Some(k) => name.deep_view() == entry_name(display.deep_view()[k]),
            None => name is None,
        },
{
    let ghost models = display.deep_view();
    let mut i: usize = 0;
    while i < display.len()
        invariant
            i <= display.len(),
            models == display.deep_view(),
            forall|j: int| 0 <= j < i ==> !gives_name()(#[trigger] models[j]),
        decreases display.len() - i,
    {
        assert(models[i as int] == display@[i as int].deep_view());
        if let Some(name) = name_in_entry(&display[i]) {
            proof {
                lemma_first_where_is(models, gives_name(), i as int);
            }
            return Some(name);
        }
        i = i + 1;
    }
    proof {
        lemma_first_where(models, gives_name());
    }
    None
}

/// What `description` says of the name of the claim at `path`.
fn name_in_description<'a>(
    description: &'a JsonValue,
    path: &ClaimsPathPointer,
) -> (name: ClaimName<'a>)
    ensures
        name.model() == described_name(description.deep_view(), path.deep_view()),
{
    let pattern = match description.get("path") {
        Some(value) => match path_from_json(value) {
            Some(pattern) => pattern,
            None => return ClaimName::Faulty,
        },
        None => return ClaimName::Faulty,
    };
    if !path_matches(&pattern, path) {
        return ClaimName::Silent;
    }
    let ghost entries = elements(description.deep_view().get("display"@));
    let display = match description.get("display") {
        Some(value) => match value.as_array() {
            Some(display) => display,
            None => {
                proof {
                    lemma_first_where(entries, gives_name());
                }
                return ClaimName::Silent;
            },
        },
        None => {
            proof {
                lemma_first_where(entries, gives_name());
            }
            return ClaimName::Silent;
        },
    };
    proof {
        lemma_first_where(entries, gives_name());
    }
    match name_in_display(display) {
        Some(name) => ClaimName::Named(name),
        None => ClaimName::Silent,
    }
}

/// The claim descriptions of credential metadata.
pub fn claims_description_arrays(metadata: &JsonValue) -> (descriptions: Vec<&JsonValue>)
    ensures
        descriptions.deep_view() == claim_descriptions(metadata.deep_view()),
{
    let mut descriptions: Vec<&JsonValue> = Vec::new();
    assert(descriptions.deep_view() =~= Seq::<JsonModel>::empty());
    push_elements(metadata.get("claims"), &mut descriptions);
    let inner = match metadata.get("credential_metadata") {
        Some(inner) => inner.get("claims"),
        None => None,
    };
    push_elements(inner, &mut descriptions);
    assert(descriptions.deep_view() =~= claim_descriptions(metadata.deep_view()));
    descriptions
}

/// Appends the elements of an optional JSON array to `out`.
fn push_elements<'a>(value: Option<&'a JsonValue>, out: &mut Vec<&'a JsonValue>)
    ensures
        final(out).deep_view() == old(out).deep_view() + elements(value.deep_view()),
{
    let ghost start = out.deep_view();
    let items = match value {
        Some(value) => match value.as_array() {
            Some(items) => items,
            None => {
                assert(out.deep_view() =~= start + Seq::<JsonModel>::empty());
                return;
            },
        },
        None => {
            assert(out.deep_view() =~= start + Seq::<JsonModel>::empty());
            return;
        },
    };
    let ghost models = items.deep_view();
    let mut i: usize = 0;
    assert(out.deep_view() =~= start + models.take(0));
    while i < items.len()
        invariant
            i <= items.len(),
            models == items.deep_view(),
            out.deep_view() == start + models.take(i as int),
        decreases items.len() - i,
    {
        let ghost before = out.deep_view();
        out.push(&items[i]);
        i = i + 1;
        proof {
            assert(models[i - 1] == items@[i - 1].deep_view());
            assert(out.deep_view() =~= before.push(models[i - 1]));
            assert(out.deep_view() =~= start + models.take(i as int));
        }
    }
    assert(models.take(models.len() as int) =~= models);
}

/// The name that `metadata` gives to the claim at `path`.
pub fn claim_display_name_from_metadata<'a>(
    metadata: &'a JsonValue,
    path: &ClaimsPathPointer,
) -> (name: Option<&'a str>)
    ensures
        name.deep_view() == metadata_name(metadata.deep_view(), path.deep_view()),
{
    let descriptions = claims_description_arrays(metadata);
    let ghost models = descriptions.deep_view();
    let ghost settled = settles(path.deep_view());
    let mut i: usize = 0;
    while i < descriptions.len()
        invariant
            i <= descriptions.len(),
            models == descriptions.deep_view(),
            models == claim_descriptions(metadata.deep_view()),
            settled == settles(path.deep_view()),
            forall|j: int| 0 <= j < i ==> !settled(#[trigger] models[j]),
        decreases descriptions.len() - i,
    {
        assert(models[i as int] == descriptions@[i as int].deep_view());
        match name_in_description(descriptions[i], path) {
            ClaimName::Faulty => {
                proof {
                    lemma_first_where_is(models, settled, i as int);
                }
                return None;
            },
            ClaimName::Silent => {},
            ClaimName::Named(name) => {
                proof {
                    lemma_first_where_is(models, settled, i as int);
                }
                return Some(name);
            },
        }
        i = i + 1;
    }
    proof {
        lemma_first_where(models, settled);
    }
    None
}

/// The text at a path of a document: that of the first value there, if it is text.
pub open spec fn text_at(document: JsonModel, path: PathModel) -> Option<Text> {
    match selected(document, path) {
        Ok(values) => if values.len() > 0 {
            values[0].as_text()
        } else {
            None
        },
        Err(_) => None,
    }
}

/// The text at `path` of `claims`.
pub fn value_from_claims<'a>(
    claims: &'a JsonValue,
    path: &ClaimsPathPointer,
) -> (text: Option<&'a str>)
    ensures
        text.deep_view() == text_at(claims.deep_view(), path.deep_view()),
{
    match select_nodes(claims, path) {
        Ok(nodes) => {
            assert(nodes.deep_view().len() == nodes.len());
            if nodes.len() > 0 {
                assert(nodes.deep_view()[0] == nodes@[0].deep_view());
                nodes[0].as_str()
            } else {
                None
            }
        },
        Err(_) => None,
    }
}

} // verus!
