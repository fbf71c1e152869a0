//! What holds of transaction payloads that fit the metadata of a credential.

use crate::json::{member, JsonModel};
use crate::laws::documents::lemma_patterns_cover_paths;
use crate::laws::documents::lemma_the_first_member_counts;
use crate::models::TransactionDataModel;
use crate::path::{children, path_covers, select_step, selected, PathElementModel};
use crate::path::{lemma_selected_not_empty, PathModel};
use crate::seqs::{lemma_add_contains, lemma_flat_map_empty, lemma_flat_map_step, lemma_take_all};
use crate::text::Text;
use crate::ts12::metadata::{claim_fits, compatible, described, has_integrity, has_shape};
use crate::ts12::metadata::{integrity_path, item_paths, leaf_paths, member_paths, values_at};
use crate::ts12::metadata::{values_conform, Ts12ClaimModel, Ts12MetadataModel};
use crate::ts12::values::{conforms, needs_integrity, value_types};
use vstd::prelude::*;

verus! {

/// A payload that is accepted holds a value for every mandatory claim, displayed or not. A payload
/// in which the path of a mandatory claim leads nowhere is rejected.
pub proof fn lemma_mandatory_claims_are_held(
    metadata: Ts12MetadataModel,
    payload: JsonModel,
    i: int,
)
    requires
        0 <= i < metadata.claims.len(),
        metadata.claims[i].mandatory,
    ensures
        compatible(metadata, payload) ==> (selected(payload, metadata.claims[i].path) matches Ok(
            values,
        ) && values.len() > 0),
        selected(payload, metadata.claims[i].path) is Err ==> !compatible(metadata, payload),
{
    lemma_selected_not_empty(seq![payload], metadata.claims[i].path);
    if compatible(metadata, payload) {
        assert(values_at(payload, metadata.claims[i].path) is Some);
    }
}

/// Only objects are accepted.
pub proof fn lemma_payloads_are_objects(metadata: Ts12MetadataModel, payload: JsonModel)
    ensures
        compatible(metadata, payload) ==> payload is Object,
{
}

/// Whether a path leads to one place: its components are names and indices.
pub open spec fn leads_to_one_place(path: PathModel) -> bool {
    forall|i: int| 0 <= i < path.len() ==> !((#[trigger] path[i]) is Wildcard)
}

/// Whether some claim of the metadata is about a path: equally long, with the same component at
/// every place, or an index where the claim has a wildcard.
pub open spec fn is_known(metadata: Ts12MetadataModel, path: PathModel) -> bool {
    exists|n: int|
        0 <= n < metadata.claims.len() && (#[trigger] metadata.claims[n]).path.len() == path.len()
            && forall|i: int|
            0 <= i < path.len() ==> metadata.claims[n].path[i] == #[trigger] path[i] || (
            metadata.claims[n].path[i] is Wildcard && path[i] is Index)
}

/// A payload with a value that the metadata does not describe is rejected: every place in an
/// accepted payload that holds neither an object nor an array is one that some claim is about.
pub proof fn lemma_values_are_described(
    metadata: Ts12MetadataModel,
    payload: JsonModel,
    path: PathModel,
)
    requires
        compatible(metadata, payload),
        leads_to_one_place(path),
        selected(payload, path) matches Ok(values) && values.len() == 1 && !(values[0] is Object)
            && !(values[0] is Array),
    ensures
        is_known(metadata, path),
{
    let leaves = leaf_paths(Seq::empty(), payload);
    lemma_places_are_leaves(Seq::empty(), payload, path);
    assert(Seq::<PathElementModel>::empty() + path =~= path);
    let k = choose|k: int| 0 <= k < leaves.len() && leaves[k] == path;
    assert(described(metadata.claims, leaves[k]));
    let n = choose|n: int|
        0 <= n < metadata.claims.len() && path_covers((#[trigger] metadata.claims[n]).path, path);
    lemma_patterns_cover_paths(metadata.claims[n].path, path);
    assert(metadata.claims[n].path.len() == path.len());
}

/// A place that holds neither an object nor an array is listed.
proof fn lemma_places_are_leaves(prefix: PathModel, value: JsonModel, path: PathModel)
    requires
        leads_to_one_place(path),
        selected(value, path) matches Ok(values) && values.len() == 1 && !(values[0] is Object)
            && !(values[0] is Array),
    ensures
        leaf_paths(prefix, value).contains(prefix + path),
    decreases path.len(),
{
    let nodes = seq![value];
    if path.len() == 0 {
        assert(prefix + path =~= prefix);
        assert(selected(value, path)->Ok_0[0] == value);
        assert(leaf_paths(prefix, value)[0] == prefix);
    } else {
        let element = path[0];
        let rest = path.drop_first();
        let f = |node: JsonModel| children(element, node);
        assert(!(path[0] is Wildcard));
        assert(nodes[0] == value);
        assert(nodes.flat_map(f) == children(element, value)) by {
            lemma_flat_map_step(nodes, f, 0);
            lemma_flat_map_empty(nodes.take(0), f);
            lemma_take_all(nodes);
            assert(Seq::<JsonModel>::empty() + f(nodes[0]) =~= f(nodes[0]));
        }
        let next = select_step(nodes, element)->Ok_0;
        assert(select_step(nodes, element) is Ok);
        assert(next == children(element, value));
        assert forall|i: int| 0 <= i < rest.len() implies !((#[trigger] rest[i]) is Wildcard) by {
            assert(rest[i] == path[i + 1]);
        }
        let inner = next[0];
        assert(next =~= seq![inner]);
        lemma_places_are_leaves(prefix.push(element), inner, rest);
        assert(prefix.push(element) + rest =~= prefix + path);
        match element {
            PathElementModel::String(name) => {
                let entries = value->Object_0;
                lemma_the_first_member_counts(entries, name);
                let i = choose|i: int|
                    0 <= i < entries.len() && #[trigger] entries[i] == (name, inner) && forall|
                        j: int,
                    |
                        0 <= j < i ==> (#[trigger] entries[j]).0 != name;
                lemma_member_leaves(prefix, entries, i, prefix + path);
            },
            PathElementModel::Index(index) => {
                lemma_item_leaves(prefix, value->Array_0, index as int, prefix + path);
            },
            PathElementModel::Wildcard => {},
        }
    }
}

proof fn lemma_member_leaves(
    prefix: PathModel,
    entries: Seq<(Text, JsonModel)>,
    i: int,
    leaf: PathModel,
)
    requires
        0 <= i < entries.len(),
        leaf_paths(prefix.push(PathElementModel::String(entries[i].0)), entries[i].1).contains(leaf),
    ensures
        member_paths(prefix, entries).contains(leaf),
    decreases entries.len(),
{
    let rest = entries.drop_last();
    let last = entries.last();
    let own = leaf_paths(prefix.push(PathElementModel::String(last.0)), last.1);
    lemma_add_contains(member_paths(prefix, rest), own, leaf);
    if i < rest.len() {
        assert(rest[i] == entries[i]);
        lemma_member_leaves(prefix, rest, i, leaf);
    }
}

proof fn lemma_item_leaves(prefix: PathModel, items: Seq<JsonModel>, i: int, leaf: PathModel)
    requires
        0 <= i < items.len(),
        leaf_paths(prefix.push(PathElementModel::Index(i as u64)), items[i]).contains(leaf),
    ensures
        item_paths(prefix, items).contains(leaf),
    decreases items.len(),
{
    let rest = items.drop_last();
    let n = items.len() - 1;
    let own = leaf_paths(prefix.push(PathElementModel::Index(n as u64)), items[n]);
    lemma_add_contains(item_paths(prefix, rest), own, leaf);
    if i < n {
        assert(rest[i] == items[i]);
        lemma_item_leaves(prefix, rest, i, leaf);
    }
}

/// Whether a path of names and indices leads to a place in a value that holds neither an object nor
/// an array.
pub open spec fn is_place(value: JsonModel, path: PathModel) -> bool
    decreases path.len(),
{
    if path.len() == 0 {
        !(value is Object) && !(value is Array)
    } else {
        match path[0] {
            PathElementModel::String(name) => value matches JsonModel::Object(entries) && exists|
                i: int,
            |
                0 <= i < entries.len() && (#[trigger] entries[i]).0 == name && is_place(
                    entries[i].1,
                    path.drop_first(),
                ),
            PathElementModel::Index(index) => value matches JsonModel::Array(items) && exists|
                i: int,
            |
                0 <= i < items.len() && i as u64 == index && is_place(
                    #[trigger] items[i],
                    path.drop_first(),
                ),
            PathElementModel::Wildcard => false,
        }
    }
}

/// A place in an accepted payload that holds neither an object nor an array is one that some claim
/// is about, also where an object has several members of a name.
pub proof fn lemma_every_place_is_described(
    metadata: Ts12MetadataModel,
    payload: JsonModel,
    path: PathModel,
)
    requires
        compatible(metadata, payload),
        is_place(payload, path),
    ensures
        is_known(metadata, path),
{
    let leaves = leaf_paths(Seq::empty(), payload);
    lemma_places_are_listed(Seq::empty(), payload, path);
    assert(Seq::<PathElementModel>::empty() + path =~= path);
    let k = choose|k: int| 0 <= k < leaves.len() && leaves[k] == path;
    assert(described(metadata.claims, leaves[k]));
    let n = choose|n: int|
        0 <= n < metadata.claims.len() && path_covers((#[trigger] metadata.claims[n]).path, path);
    lemma_patterns_cover_paths(metadata.claims[n].path, path);
    assert(metadata.claims[n].path.len() == path.len());
}

proof fn lemma_places_are_listed(prefix: PathModel, value: JsonModel, path: PathModel)
    requires
        is_place(value, path),
    ensures
        leaf_paths(prefix, value).contains(prefix + path),
    decreases path.len(),
{
    if path.len() == 0 {
        assert(prefix + path =~= prefix);
        assert(leaf_paths(prefix, value)[0] == prefix);
    } else {
        let rest = path.drop_first();
        let element = path[0];
        assert(prefix.push(element) + rest =~= prefix + path);
        match element {
            PathElementModel::String(name) => {
                let entries = value->Object_0;
                let i = choose|i: int|
                    0 <= i < entries.len() && (#[trigger] entries[i]).0 == name && is_place(
                        entries[i].1,
                        rest,
                    );
                lemma_places_are_listed(prefix.push(element), entries[i].1, rest);
                lemma_member_leaves(prefix, entries, i, prefix + path);
            },
            PathElementModel::Index(index) => {
                let items = value->Array_0;
                let i = choose|i: int|
                    0 <= i < items.len() && i as u64 == index && is_place(
                        #[trigger] items[i],
                        rest,
                    );
                lemma_places_are_listed(prefix.push(element), items[i], rest);
                lemma_item_leaves(prefix, items, i, prefix + path);
            },
            PathElementModel::Wildcard => {},
        }
    }
}

/// Nothing but such places is listed.
proof fn lemma_listed_paths_are_places(prefix: PathModel, value: JsonModel, leaf: PathModel) -> (
    path: PathModel)
    requires
        leaf_paths(prefix, value).contains(leaf),
    ensures
        leaf == prefix + path,
        is_place(value, path),
    decreases value,
{
    match value {
        JsonModel::Object(entries) => {
            let (i, rest) = lemma_listed_members(prefix, entries, leaf);
            let element = PathElementModel::String(entries[i].0);
            let path = seq![element] + rest;
            assert(path.drop_first() =~= rest);
            assert(path[0] == element);
            assert(prefix.push(element) + rest =~= prefix + path);
            path
        },
        JsonModel::Array(items) => {
            let (i, rest) = lemma_listed_items(prefix, items, leaf);
            let element = PathElementModel::Index(i as u64);
            let path = seq![element] + rest;
            assert(path.drop_first() =~= rest);
            assert(path[0] == element);
            assert(is_place(items[i], path.drop_first()));
            assert(prefix.push(element) + rest =~= prefix + path);
            path
        },
        _ => {
            assert(prefix =~= prefix + Seq::<PathElementModel>::empty());
            Seq::empty()
        },
    }
}

proof fn lemma_listed_members(
    prefix: PathModel,
    entries: Seq<(Text, JsonModel)>,
    leaf: PathModel,
) -> (found: (int, PathModel))
    requires
        member_paths(prefix, entries).contains(leaf),
    ensures
        0 <= found.0 < entries.len(),
        leaf == prefix.push(PathElementModel::String(entries[found.0].0)) + found.1,
        is_place(entries[found.0].1, found.1),
    decreases entries,
{
    let rest = entries.drop_last();
    let n = entries.len() - 1;
    let own = prefix.push(PathElementModel::String(entries[n].0));
    lemma_add_contains(member_paths(prefix, rest), leaf_paths(own, entries[n].1), leaf);
    if leaf_paths(own, entries[n].1).contains(leaf) {
        let path = lemma_listed_paths_are_places(own, entries[n].1, leaf);
        (n, path)
    } else {
        let (i, path) = lemma_listed_members(prefix, rest, leaf);
        assert(rest[i] == entries[i]);
        (i, path)
    }
}

proof fn lemma_listed_items(prefix: PathModel, items: Seq<JsonModel>, leaf: PathModel) -> (found: (
    int,
    PathModel,
))
    requires
        item_paths(prefix, items).contains(leaf),
    ensures
        0 <= found.0 < items.len(),
        leaf == prefix.push(PathElementModel::Index(found.0 as u64)) + found.1,
        is_place(items[found.0], found.1),
    decreases items,
{
    let rest = items.drop_last();
    let n = items.len() - 1;
    let own = prefix.push(PathElementModel::Index(n as u64));
    lemma_add_contains(item_paths(prefix, rest), leaf_paths(own, items[n]), leaf);
    if leaf_paths(own, items[n]).contains(leaf) {
        let path = lemma_listed_paths_are_places(own, items[n], leaf);
        (n, path)
    } else {
        let (i, path) = lemma_listed_items(prefix, rest, leaf);
        assert(rest[i] == items[i]);
        (i, path)
    }
}

/// What an accepted payload holds at the path of a claim: text, where the claim is displayed and
/// has no value type; values of the value type, which is a known one, where it has one. A claim
/// that is not displayed has no value type, and what is only a label is not mandatory.
pub proof fn lemma_displayed_claims_have_their_type(
    metadata: Ts12MetadataModel,
    payload: JsonModel,
    i: int,
)
    requires
        compatible(metadata, payload),
        0 <= i < metadata.claims.len(),
    ensures
        ({
            let claim = metadata.claims[i];
            let values = selected(payload, claim.path);
            &&& claim.value_type is Some ==> claim.displayable && value_types().contains(
                claim.value_type->0,
            )
            &&& claim.value_type == Some("label_only"@) ==> !claim.mandatory
            &&& claim.displayable && claim.value_type is None && values is Ok ==> forall|k: int|
                0 <= k < values->Ok_0.len() ==> (#[trigger] values->Ok_0[k]) is String
            &&& claim.value_type is Some && values is Ok ==> forall|k: int|
                0 <= k < values->Ok_0.len() ==> conforms(
                    #[trigger] values->Ok_0[k],
                    claim.value_type->0,
                )
        }),
{
    let claim = metadata.claims[i];
    assert(claim_fits(payload, claim));
    if let Ok(values) = selected(payload, claim.path) {
        assert(values_at(payload, claim.path) == Some(values));
        if let Some(value_type) = claim.value_type {
            assert(values_conform(payload, claim.path, values, value_type));
        }
    }
}

/// An image in an accepted payload that is a reference to somewhere else is accompanied by an
/// integrity claim, named after the claim, of which every value is text that is not empty.
pub proof fn lemma_references_have_integrity(
    metadata: Ts12MetadataModel,
    payload: JsonModel,
    i: int,
    k: int,
    prefix: PathModel,
    name: Text,
)
    requires
        compatible(metadata, payload),
        0 <= i < metadata.claims.len(),
        metadata.claims[i].value_type == Some("image"@),
        metadata.claims[i].path == prefix.push(PathElementModel::String(name)),
        selected(payload, metadata.claims[i].path) matches Ok(values) && 0 <= k < values.len() && (
        values[k] matches JsonModel::String(text) && text.len() > 0 && !"data:"@.is_prefix_of(
            text,
        )),
    ensures
        selected(
            payload,
            prefix.push(PathElementModel::String(name + "#integrity"@)),
        ) matches Ok(found) && found.len() > 0 && forall|n: int|
            0 <= n < found.len() ==> (#[trigger] found[n] matches JsonModel::String(text)
                && text.len() > 0),
{
    let claim = metadata.claims[i];
    let values = selected(payload, claim.path)->Ok_0;
    assert(claim_fits(payload, claim));
    assert(values_at(payload, claim.path) == Some(values));
    assert(values_conform(payload, claim.path, values, "image"@));
    assert(needs_integrity(values[k]));
    assert(has_integrity(payload, claim.path));
    assert(claim.path.last() == PathElementModel::String(name));
    assert(claim.path.drop_last() =~= prefix);
    let path = integrity_path(prefix, name);
    assert(path == prefix.push(PathElementModel::String(name + "#integrity"@)));
    lemma_selected_not_empty(seq![payload], path);
    let found = values_at(payload, path)->0;
    assert forall|n: int| 0 <= n < found.len() implies (#[trigger] found[n] matches JsonModel::String(
        text,
    ) && text.len() > 0) by {
        assert(found[n].as_text() is Some);
    }
}

/// A reference to somewhere else at a path that does not end in a name is never accepted.
pub proof fn lemma_references_are_named(
    metadata: Ts12MetadataModel,
    payload: JsonModel,
    i: int,
    k: int,
)
    requires
        compatible(metadata, payload),
        0 <= i < metadata.claims.len(),
        metadata.claims[i].value_type == Some("image"@),
        selected(payload, metadata.claims[i].path) matches Ok(values) && 0 <= k < values.len() && (
        values[k] matches JsonModel::String(text) && text.len() > 0 && !"data:"@.is_prefix_of(
            text,
        )),
    ensures
        metadata.claims[i].path.len() > 0,
        metadata.claims[i].path.last() is String,
{
    let claim = metadata.claims[i];
    let values = selected(payload, claim.path)->Ok_0;
    assert(claim_fits(payload, claim));
    assert(values_at(payload, claim.path) == Some(values));
    assert(values_conform(payload, claim.path, values, "image"@));
    assert(needs_integrity(values[k]));
}

/// Whether a claim is accompanied by an integrity claim of which every value is text that is not
/// empty.
pub open spec fn is_accompanied(payload: JsonModel, path: PathModel) -> bool {
    exists|prefix: PathModel, name: Text|
        path == #[trigger] prefix.push(PathElementModel::String(name)) && (selected(
            payload,
            prefix.push(PathElementModel::String(name + "#integrity"@)),
        ) matches Ok(found) && forall|n: int|
            0 <= n < found.len() ==> (#[trigger] found[n] matches JsonModel::String(text)
                && text.len() > 0))
}

proof fn lemma_accompanied(payload: JsonModel, path: PathModel)
    requires
        is_accompanied(payload, path),
    ensures
        has_integrity(payload, path),
{
    let (prefix, name) = choose|prefix: PathModel, name: Text|
        path == #[trigger] prefix.push(PathElementModel::String(name)) && (selected(
            payload,
            prefix.push(PathElementModel::String(name + "#integrity"@)),
        ) matches Ok(found) && forall|n: int|
            0 <= n < found.len() ==> (#[trigger] found[n] matches JsonModel::String(text)
                && text.len() > 0));
    assert(path.last() == PathElementModel::String(name));
    assert(path.drop_last() =~= prefix);
    let found = values_at(payload, integrity_path(prefix, name))->0;
    assert forall|n: int| 0 <= n < found.len() implies match (#[trigger] found[n]).as_text() {
        Some(text) => text.len() > 0,
        None => false,
    } by {
        assert(found[n] is String);
    }
}

/// Whether a payload holds a claim as it is described.
pub open spec fn is_as_described(payload: JsonModel, claim: Ts12ClaimModel) -> bool {
    let values = selected(payload, claim.path);
    &&& claim.mandatory ==> values is Ok
    &&& match claim.value_type {
        Some(value_type) => {
            &&& claim.displayable
            &&& value_types().contains(value_type)
            &&& value_type == "label_only"@ ==> !claim.mandatory
            &&& values is Ok ==> forall|k: int|
                0 <= k < values->Ok_0.len() ==> conforms(#[trigger] values->Ok_0[k], value_type)
            &&& value_type == "image"@ && values is Ok ==> forall|k: int|
                0 <= k < values->Ok_0.len() ==> match #[trigger] values->Ok_0[k] {
                    JsonModel::String(text) => text.len() == 0 || "data:"@.is_prefix_of(text)
                        || is_accompanied(payload, claim.path),
                    _ => true,
                }
        },
        None => claim.displayable && values is Ok ==> forall|k: int|
            0 <= k < values->Ok_0.len() ==> (#[trigger] values->Ok_0[k]) is String,
    }
}

/// A payload is accepted that is an object, holds every claim as it is described and has a claim
/// for every value in it.
pub proof fn lemma_payloads_as_described_are_accepted(
    metadata: Ts12MetadataModel,
    payload: JsonModel,
)
    requires
        payload is Object,
        forall|i: int|
            0 <= i < metadata.claims.len() ==> is_as_described(
                payload,
                #[trigger] metadata.claims[i],
            ),
        forall|path: PathModel| #[trigger] is_place(payload, path) ==> is_known(metadata, path),
    ensures
        compatible(metadata, payload),
{
    let leaves = leaf_paths(Seq::empty(), payload);
    assert forall|i: int| 0 <= i < leaves.len() implies described(
        metadata.claims,
        #[trigger] leaves[i],
    ) by {
        assert(leaves.contains(leaves[i]));
        let path = lemma_listed_paths_are_places(Seq::empty(), payload, leaves[i]);
        assert(path =~= leaves[i]);
        let n = choose|n: int|
            0 <= n < metadata.claims.len() && (#[trigger] metadata.claims[n]).path.len()
                == path.len() && forall|i: int|
                0 <= i < path.len() ==> metadata.claims[n].path[i] == #[trigger] path[i] || (
                metadata.claims[n].path[i] is Wildcard && path[i] is Index);
        lemma_patterns_cover_paths(metadata.claims[n].path, path);
        assert(path_covers(metadata.claims[n].path, path));
    }
    assert forall|i: int| 0 <= i < metadata.claims.len() implies claim_fits(
        payload,
        #[trigger] metadata.claims[i],
    ) && (metadata.claims[i].mandatory ==> values_at(payload, metadata.claims[i].path) is Some) by {
        let claim = metadata.claims[i];
        assert(is_as_described(payload, claim));
        if let Ok(values) = selected(payload, claim.path) {
            assert(values_at(payload, claim.path) == Some(values));
            if let Some(value_type) = claim.value_type {
                if is_accompanied(payload, claim.path) {
                    lemma_accompanied(payload, claim.path);
                }
                assert(values_conform(payload, claim.path, values, value_type));
            }
        } else {
            assert(values_at(payload, claim.path) is None);
        }
    }
}

/// Transaction data has an acceptable shape exactly where its member `payload`, if it has one, is
/// an object.
pub proof fn lemma_shapes(data: TransactionDataModel)
    ensures
        data.payload() == member(data.extra, "payload"@),
        has_shape(data) <==> (member(data.extra, "payload"@) matches Some(payload)
            ==> payload is Object),
{
}

} // verus!
