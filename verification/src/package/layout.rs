//! Lists of a configuration, which may be written down in more than one way.

use crate::json::{entry_models, json_models, lemma_entry_models, lemma_json_models};
use crate::json::{JsonModel, JsonValue};
use crate::seqs::{lemma_filter_step, lemma_take_all};
use crate::text::{same_text, Text};
use vstd::prelude::*;

verus! {

broadcast use vstd::string::group_string_axioms;

/// Tells members other than the type.
pub open spec fn is_no_type() -> spec_fn((Text, JsonModel)) -> bool {
    |entry: (Text, JsonModel)| entry.0 != "type"@
}

/// Tells members that are objects.
pub open spec fn is_configuration() -> spec_fn((Text, JsonModel)) -> bool {
    |entry: (Text, JsonModel)| entry.1 is Object
}

/// The configuration that an object's member holds: its name is the type.
pub open spec fn named_configuration(entry: (Text, JsonModel)) -> JsonModel {
    JsonModel::Object(
        seq![("type"@, JsonModel::String(entry.0))] + entry.1->Object_0.filter(is_no_type()),
    )
}

/// The configurations of a list: the elements of an array.
pub open spec fn listed_configurations(value: JsonModel) -> Seq<JsonModel> {
    match value {
        JsonModel::Array(items) => items,
        _ => Seq::empty(),
    }
}

/// The configurations of a list that are known by their type: the elements of an array, or the
/// members of an object that are objects.
pub open spec fn typed_configurations(value: JsonModel) -> Seq<JsonModel> {
    match value {
        JsonModel::Object(entries) => entries.filter(is_configuration()).map_values(
            |entry: (Text, JsonModel)| named_configuration(entry),
        ),
        _ => listed_configurations(value),
    }
}

/// Whether a claim is displayed: it has a name in some language.
pub open spec fn displays(value: JsonModel) -> bool {
    match value {
        JsonModel::Array(items) => items.len() > 0,
        _ => false,
    }
}

/// The configurations of a list.
pub fn configurations_from_list(value: JsonValue) -> (configurations: Vec<JsonValue>)
    ensures
        configurations.deep_view() == listed_configurations(value.deep_view()),
{
    match value {
        JsonValue::Array(items) => {
            proof {
                lemma_json_models(items@);
            }
            items
        },
        _ => {
            let none: Vec<JsonValue> = Vec::new();
            assert(none.deep_view() =~= Seq::<JsonModel>::empty());
            none
        },
    }
}

/// The configuration of a member named `name`.
fn name_configuration(name: &String, members: &Vec<(String, JsonValue)>) -> (named: JsonValue)
    ensures
        named.deep_view() == named_configuration(
            (name@, JsonModel::Object(members.deep_view())),
        ),
{
    let ghost all = members.deep_view();
    let ghost keep = is_no_type();
    let ghost head = seq![("type"@, JsonModel::String(name@))];
    let mut entries: Vec<(String, JsonValue)> = Vec::new();
    entries.push(("type".to_owned(), JsonValue::String(name.clone())));
    let mut i: usize = 0;
    proof {
        reveal(Seq::filter);
        assert(all.take(0).filter(keep) =~= Seq::empty());
        assert(entries.deep_view() =~= head + all.take(0).filter(keep));
    }
    while i < members.len()
        invariant
            i <= members.len(),
            all == members.deep_view(),
            keep == is_no_type(),
            entries.deep_view() == head + all.take(i as int).filter(keep),
        decreases members.len() - i,
    {
        let ghost before = entries.deep_view();
        proof {
            lemma_filter_step(all, keep, i as int);
            assert(all[i as int] == members@[i as int].deep_view());
        }
        if !same_text(members[i].0.as_str(), "type") {
            entries.push((members[i].0.clone(), members[i].1.clone()));
            assert(entries.deep_view() =~= before.push(all[i as int]));
            assert(entries.deep_view() =~= head + all.take(i + 1).filter(keep));
        }
        i = i + 1;
    }
    proof {
        lemma_take_all(all);
        lemma_entry_models(entries@);
        assert(entry_models(entries@) =~= entries.deep_view());
    }
    JsonValue::Object(entries)
}

/// The configurations of a list that are known by their type.
pub fn configurations_by_type(value: JsonValue) -> (configurations: Vec<JsonValue>)
    ensures
        configurations.deep_view() == typed_configurations(value.deep_view()),
{
    let entries = match value {
        JsonValue::Object(entries) => entries,
        other => return configurations_from_list(other),
    };
    let ghost all = entries.deep_view();
    let ghost keep = is_configuration();
    let ghost naming = |entry: (Text, JsonModel)| named_configuration(entry);
    let mut configurations: Vec<JsonValue> = Vec::new();
    let mut i: usize = 0;
    proof {
        lemma_entry_models(entries@);
        assert(all =~= entry_models(entries@));
        reveal(Seq::filter);
        assert(configurations.deep_view() =~= all.take(0).filter(keep).map_values(naming));
    }
    while i < entries.len()
        invariant
            i <= entries.len(),
            all == entries.deep_view(),
            keep == is_configuration(),
            naming == (|entry: (Text, JsonModel)| named_configuration(entry)),
            configurations.deep_view() == all.take(i as int).filter(keep).map_values(naming),
        decreases entries.len() - i,
    {
        let ghost kept = all.take(i as int).filter(keep);
        let ghost before = configurations.deep_view();
        proof {
            lemma_filter_step(all, keep, i as int);
            assert(all[i as int] == entries@[i as int].deep_view());
        }
        let entry = &entries[i];
        if let JsonValue::Object(members) = &entry.1 {
            proof {
                lemma_entry_models(members@);
                assert(members.deep_view() =~= entry_models(members@));
                assert(all[i as int].1 == JsonModel::Object(members.deep_view()));
            }
            configurations.push(name_configuration(&entry.0, members));
            proof {
                assert(configurations.deep_view() =~= before.push(
                    named_configuration(all[i as int]),
                ));
                assert(kept.push(all[i as int]).map_values(naming) =~= kept.map_values(naming).push(
                    naming(all[i as int]),
                ));
            }
        }
        i = i + 1;
    }
    proof {
        lemma_take_all(all);
    }
    configurations
}

/// Whether a claim with these names is displayed.
pub fn is_displayable(names: &JsonValue) -> (is: bool)
    ensures
        is == displays(names.deep_view()),
{
    match names {
        JsonValue::Array(items) => {
            proof {
                lemma_json_models(items@);
                assert(json_models(items@).len() == items.len());
            }
            !items.is_empty()
        },
        _ => false,
    }
}

} // verus!
