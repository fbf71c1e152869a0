//! What holds of what a package shows: names and values of claims, and payments.

use crate::json::{member, JsonModel};
use crate::laws::documents::{lemma_paths_are_written_as_arrays, writes};
use crate::laws::documents::lemma_the_first_member_counts;
use crate::laws::listings::{ascends, lemma_filtering_keeps_the_order};
use crate::matcher::store::MatcherStore;
use crate::models::TransactionDataModel;
use crate::package::config::{FieldConfigModel, PaymentScaModel, ResolvedModel};
use crate::package::display::{claim_descriptions, described_name, elements, entry_name, gives_name};
use crate::package::display::{metadata_name, settles, NameModel};
use crate::package::layout::{displays, is_configuration, is_no_type, listed_configurations};
use crate::package::layout::{named_configuration, typed_configurations};
use crate::package::payment::{data_json, host_text, maps, payment_summary};
use crate::package::payment::{shown_at, shown_text};
use crate::package::store::{field_of, PackageStore};
use crate::path::{has_wildcard, path_covers, path_of_json, selected, PathModel};
use crate::seqs::{first_where, lemma_first_where};
use crate::text::Text;
use crate::ts12::metadata::Ts12MetadataModel;
use vstd::prelude::*;

verus! {

/// Whether a display entry gives a name: its member `name` is text, and not empty.
pub open spec fn gives(entry: JsonModel, name: Text) -> bool {
    entry matches JsonModel::Object(members) && member(members, "name"@) == Some(
        JsonModel::String(name),
    ) && name.len() > 0
}

/// The elements of the member of an object, where that is an array.
pub open spec fn listed_in(document: JsonModel, key: Text) -> Seq<JsonModel> {
    match document {
        JsonModel::Object(members) => match member(members, key) {
            Some(JsonModel::Array(items)) => items,
            _ => Seq::empty(),
        },
        _ => Seq::empty(),
    }
}

/// Whether a claim description is for the claim at a path: its member `path` is written as a path
/// that covers it.
pub open spec fn is_for(description: JsonModel, path: PathModel) -> bool {
    description matches JsonModel::Object(members) && member(members, "path"@) matches Some(
        JsonModel::Array(items),
    ) && exists|pattern: PathModel| #[trigger]
        writes(items, pattern) && path_covers(pattern, path)
}

/// Whether a claim description has a path at all.
pub open spec fn has_path(description: JsonModel) -> bool {
    description matches JsonModel::Object(members) && member(members, "path"@) matches Some(
        JsonModel::Array(items),
    ) && exists|pattern: PathModel| #[trigger] writes(items, pattern)
}

/// Whether the first display entry of a description that gives a name gives this one.
pub open spec fn says(description: JsonModel, name: Text) -> bool {
    let entries = listed_in(description, "display"@);
    exists|e: int|
        0 <= e < entries.len() && gives(#[trigger] entries[e], name) && forall|d: int, other: Text|
            0 <= d < e ==> !#[trigger] gives(entries[d], other)
}

/// Whether a description says nothing of the claim at a path: it is for another claim, or no
/// display entry gives a name.
pub open spec fn says_nothing(description: JsonModel, path: PathModel) -> bool {
    has_path(description) && (!is_for(description, path) || forall|e: int, name: Text|
        0 <= e < listed_in(description, "display"@).len() ==> !#[trigger] gives(
            listed_in(description, "display"@)[e],
            name,
        ))
}

/// What one description says is told by its path and its display entries.
proof fn lemma_description(description: JsonModel, path: PathModel)
    ensures
        described_name(description, path) is Silent <==> says_nothing(description, path),
        described_name(description, path) is Faulty <==> !has_path(description),
        described_name(description, path) matches NameModel::Named(name) ==> is_for(
            description,
            path,
        ) && says(description, name),
{
    if let Some(value) = description.get("path"@) {
        let members = description->Object_0;
        if let JsonModel::Array(items) = value {
            if let Some(pattern) = path_of_json(value) {
                lemma_paths_are_written_as_arrays(value, pattern);
                assert(writes(items, pattern));
                assert forall|other: PathModel| #[trigger] writes(items, other) implies other
                    == pattern by {
                    lemma_paths_are_written_as_arrays(value, other);
                }
                let entries = elements(description.get("display"@));
                assert(entries == listed_in(description, "display"@));
                lemma_first_where(entries, gives_name());
                assert forall|e: int, name: Text|
                    0 <= e < entries.len() implies (#[trigger] gives(entries[e], name)
                    <==> entry_name(entries[e]) == Some(name)) by {
                    let entry = entries[e];
                }
                match first_where(entries, gives_name()) {
                    Some(k) => {
                        let name = entry_name(entries[k])->0;
                        assert(gives(entries[k], name));
                        assert forall|d: int, other: Text| 0 <= d < k implies !#[trigger] gives(
                            entries[d],
                            other,
                        ) by {
                            assert(!gives_name()(entries[d]));
                        }
                    },
                    None => {
                        assert forall|e: int, name: Text|
                            0 <= e < entries.len() implies !#[trigger] gives(entries[e], name) by {
                            assert(!gives_name()(entries[e]));
                        }
                    },
                }
            } else {
                assert forall|pattern: PathModel| #[trigger] writes(items, pattern) implies false by {
                    lemma_paths_are_written_as_arrays(value, pattern);
                }
            }
        }
    }
}

/// The claim descriptions of credential metadata are those of its member `claims`, then those of
/// the member `claims` of its member `credential_metadata`.
pub proof fn lemma_claim_descriptions(metadata: JsonModel)
    ensures
        claim_descriptions(metadata) == listed_in(metadata, "claims"@) + match metadata {
            JsonModel::Object(members) => match member(members, "credential_metadata"@) {
                Some(inner) => listed_in(inner, "claims"@),
                None => Seq::empty(),
            },
            _ => Seq::empty(),
        },
{
}

/// Credential metadata gives a claim the name that the first description says that is for the claim
/// and says one, if every description before it has a path. It gives no name where no description
/// says one, or where an earlier description has no path.
pub proof fn lemma_names_come_from_the_first_description(metadata: JsonModel, path: PathModel)
    ensures
        ({
            let all = claim_descriptions(metadata);
            match metadata_name(metadata, path) {
                Some(name) => exists|k: int|
                    0 <= k < all.len() && is_for(#[trigger] all[k], path) && says(all[k], name)
                        && forall|j: int| 0 <= j < k ==> says_nothing(#[trigger] all[j], path),
                None => (forall|k: int|
                    0 <= k < all.len() ==> says_nothing(#[trigger] all[k], path)) || exists|k: int|
                    0 <= k < all.len() && !has_path(#[trigger] all[k]) && forall|j: int|
                        0 <= j < k ==> says_nothing(#[trigger] all[j], path),
            }
        }),
{
    let all = claim_descriptions(metadata);
    assert forall|k: int| 0 <= k < all.len() implies (settles(path)(#[trigger] all[k])
        <==> !says_nothing(all[k], path)) by {
        lemma_description(all[k], path);
    }
    lemma_first_where(all, settles(path));
    match first_where(all, settles(path)) {
        Some(k) => {
            lemma_description(all[k], path);
            assert forall|j: int| 0 <= j < k implies says_nothing(#[trigger] all[j], path) by {
                assert(!settles(path)(all[j]));
            }
            if described_name(all[k], path) is Faulty {
                assert(!has_path(all[k]));
            }
        },
        None => {
            assert forall|k: int| 0 <= k < all.len() implies says_nothing(
                #[trigger] all[k],
                path,
            ) by {
                assert(!settles(path)(all[k]));
            }
        },
    }
}

/// Whether a field is the first whose path covers a path.
pub open spec fn is_first_field(fields: Seq<FieldConfigModel>, k: int, path: PathModel) -> bool {
    &&& 0 <= k < fields.len()
    &&& path_covers(fields[k].path, path)
    &&& forall|j: int| 0 <= j < k ==> !path_covers((#[trigger] fields[j]).path, path)
}

proof fn lemma_first_field(own: ResolvedModel, path: PathModel)
    ensures
        own.field_for(path) matches Some(field) ==> exists|k: int| #[trigger]
            is_first_field(own.fields, k, path) && field == own.fields[k],
        own.field_for(path) is None ==> forall|k: int| !#[trigger]
            is_first_field(own.fields, k, path),
        forall|k: int| #[trigger]
            is_first_field(own.fields, k, path) ==> own.field_for(path) == Some(own.fields[k]),
{
    let wanted = field_of(path);
    lemma_first_where(own.fields, wanted);
    match first_where(own.fields, wanted) {
        Some(k) => {
            assert forall|j: int| 0 <= j < k implies !path_covers(
                (#[trigger] own.fields[j]).path,
                path,
            ) by {
                assert(!wanted(own.fields[j]));
            }
            assert(is_first_field(own.fields, k, path));
            assert forall|m: int| #[trigger] is_first_field(own.fields, m, path) implies m == k by {
                if m < k {
                    assert(!wanted(own.fields[m]));
                }
                if k < m {
                    assert(path_covers(own.fields[k].path, path));
                }
            }
        },
        None => {
            assert forall|k: int| !#[trigger] is_first_field(own.fields, k, path) by {
                if 0 <= k < own.fields.len() {
                    assert(!wanted(own.fields[k]));
                }
            }
        },
    }
}

/// The name of a claim comes from the credential metadata, and from the first field that covers its
/// path only where the metadata gives none. A name with a NUL is not shown, and a path with a
/// wildcard has no name.
pub proof fn lemma_labels(store: PackageStore, position: usize, path: PathModel)
    requires
        position < store.credentials.len(),
    ensures
        ({
            let own = store.credentials@[position as int].deep_view();
            let named = match own.metadata {
                Some(metadata) => metadata_name(metadata, path),
                None => None,
            };
            let label = store.label_of(position, path);
            &&& has_wildcard(path) ==> label is None
            &&& !has_wildcard(path) ==> match named {
                Some(name) => if name.contains('\0') {
                    label is None
                } else {
                    label == Some(name)
                },
                None => match label {
                    Some(text) => exists|k: int| #[trigger]
                        is_first_field(own.fields, k, path) && text == own.fields[k].display_name,
                    None => forall|k: int| !#[trigger] is_first_field(own.fields, k, path),
                },
            }
        }),
{
    let own = store.credentials@[position as int].deep_view();
    assert(store.at(position) == Some(own));
    lemma_first_field(own, path);
}

/// The value of a claim is what the first field that covers its path says is to be shown, and where
/// that says nothing the first value at the path, if it is text without a NUL. A path with a
/// wildcard has no value.
pub proof fn lemma_shown_values(store: PackageStore, position: usize, path: PathModel)
    requires
        position < store.credentials.len(),
    ensures
        ({
            let own = store.credentials@[position as int].deep_view();
            let value = store.value_of(position, path);
            &&& has_wildcard(path) ==> value is None
            &&& !has_wildcard(path) ==> {
                ||| exists|k: int| #[trigger]
                    is_first_field(own.fields, k, path) && own.fields[k].display_value is Some
                        && value == own.fields[k].display_value
                ||| (forall|k: int| #[trigger]
                    is_first_field(own.fields, k, path) ==> own.fields[k].display_value is None)
                    && match selected(own.claims, path) {
                    Ok(nodes) => if nodes.len() > 0 && nodes[0] is String
                        && !nodes[0]->String_0.contains('\0') {
                        value == Some(nodes[0]->String_0)
                    } else {
                        value is None
                    },
                    Err(_) => value is None,
                }
            }
        }),
{
    let own = store.credentials@[position as int].deep_view();
    assert(store.at(position) == Some(own));
    lemma_first_field(own, path);
    if let Some(field) = own.field_for(path) {
        let k = choose|k: int| #[trigger]
            is_first_field(own.fields, k, path) && field == own.fields[k];
        assert(is_first_field(own.fields, k, path));
    }
}

/// What can be shown of a value: text that is not empty, numbers as they are written, and truth
/// values as words. Nothing else can be shown.
pub proof fn lemma_shown_text(value: JsonModel)
    ensures
        match value {
            JsonModel::String(text) => if text.len() == 0 {
                shown_text(value) is None
            } else {
                shown_text(value) == Some(text)
            },
            JsonModel::Number(number) => shown_text(value) == Some(number.text()),
            JsonModel::Bool(true) => shown_text(value) == Some("true"@),
            JsonModel::Bool(false) => shown_text(value) == Some("false"@),
            _ => shown_text(value) is None,
        },
{
}

/// Whether a text is shown for a path: it is what can be shown of the first value there, and holds
/// no NUL.
pub open spec fn is_shown(document: JsonModel, path: PathModel, text: Text) -> bool {
    &&& selected(document, path) matches Ok(nodes) && nodes.len() > 0 && shown_text(nodes[0])
        == Some(text)
    &&& !text.contains('\0')
}

/// Whether nothing is shown for a path.
pub open spec fn shows_nothing(document: JsonModel, path: PathModel) -> bool {
    forall|text: Text| !#[trigger] is_shown(document, path, text)
}

/// Transaction data is read as an object with its further members, its type and the credential
/// queries that it names. A further member prevails over one of the others of the same name.
pub proof fn lemma_transaction_data_documents(data: TransactionDataModel, key: Text)
    ensures
        data_json(data) is Object,
        ({
            let found = member(data_json(data)->Object_0, key);
            match member(data.extra, key) {
                Some(value) => found == Some(value),
                None => {
                    &&& key == "type"@ ==> found == Some(JsonModel::String(data.data_type))
                    &&& key == "credential_ids"@ ==> (found matches Some(JsonModel::Array(items))
                        && items.len() == data.credential_ids.len() && forall|i: int|
                        0 <= i < items.len() ==> #[trigger] items[i] == JsonModel::String(
                            data.credential_ids[i],
                        ))
                },
            }
        }),
{
    reveal_strlit("type");
    reveal_strlit("credential_ids");
    assert("type"@.len() == 4 && "credential_ids"@.len() == 14);
    let entries = data_json(data)->Object_0;
    let n = data.extra.len() as int;
    lemma_the_first_member_counts(entries, key);
    lemma_the_first_member_counts(data.extra, key);
    assert(entries[n].0 == "type"@);
    assert(entries[n + 1].0 == "credential_ids"@);
    match member(data.extra, key) {
        Some(value) => {
            let i = choose|i: int|
                0 <= i < data.extra.len() && #[trigger] data.extra[i] == (key, value) && forall|
                    j: int,
                |
                    0 <= j < i ==> (#[trigger] data.extra[j]).0 != key;
            assert(entries[i] == data.extra[i]);
            let found = member(entries, key)->0;
            let k = choose|k: int|
                0 <= k < entries.len() && #[trigger] entries[k] == (key, found) && forall|j: int|
                    0 <= j < k ==> (#[trigger] entries[j]).0 != key;
            if k < i {
                assert(data.extra[k] == entries[k]);
            }
            if i < k {
                assert(entries[i].0 == key);
            }
        },
        None => {
            assert forall|j: int| 0 <= j < n implies (#[trigger] entries[j]).0 != key by {
                assert(entries[j] == data.extra[j]);
            }
            if key == "type"@ || key == "credential_ids"@ {
                let found = member(entries, key)->0;
                let k = choose|k: int|
                    0 <= k < entries.len() && #[trigger] entries[k] == (key, found) && forall|
                        j: int,
                    |
                        0 <= j < k ==> (#[trigger] entries[j]).0 != key;
                let at: int = if key == "type"@ {
                    n
                } else {
                    n + 1
                };
                assert(entries[at].0 == key);
                assert(k == at) by {
                    if at < k {
                        assert(entries[at].0 != key);
                    }
                }
            }
        },
    }
}

/// Whether a mapping is the first for transaction data of a type.
pub open spec fn is_first_mapping(
    mappings: Seq<PaymentScaModel>,
    m: int,
    data_type: Text,
) -> bool {
    &&& 0 <= m < mappings.len()
    &&& mappings[m].data_type == data_type
    &&& forall|j: int| 0 <= j < m ==> (#[trigger] mappings[j]).data_type != data_type
}

/// Transaction data tells of a payment exactly where the first mapping of its type leads to a payee
/// and an amount that can be shown. The payment is to that payee and of that amount, and has the
/// further information that can be shown at the path for it, if there is any.
pub proof fn lemma_payments(mappings: Seq<PaymentScaModel>, data: TransactionDataModel)
    ensures
        ({
            let document = data_json(data);
            match payment_summary(mappings, data) {
                Some(summary) => exists|m: int| #[trigger]
                    is_first_mapping(mappings, m, data.data_type) && is_shown(
                        document,
                        mappings[m].payee,
                        summary.merchant_name,
                    ) && is_shown(document, mappings[m].amount, summary.transaction_amount)
                        && match (mappings[m].additional_info, summary.additional_info) {
                        (Some(path), Some(text)) => is_shown(document, path, text),
                        (Some(path), None) => shows_nothing(document, path),
                        (None, info) => info is None,
                    },
                None => forall|m: int| #[trigger]
                    is_first_mapping(mappings, m, data.data_type) ==> shows_nothing(
                        document,
                        mappings[m].payee,
                    ) || shows_nothing(document, mappings[m].amount),
            }
        }),
{
    let document = data_json(data);
    let wanted = maps(data.data_type);
    lemma_first_where(mappings, wanted);
    match first_where(mappings, wanted) {
        Some(k) => {
            assert forall|j: int| 0 <= j < k implies (#[trigger] mappings[j]).data_type
                != data.data_type by {
                assert(!wanted(mappings[j]));
            }
            assert(is_first_mapping(mappings, k, data.data_type));
            assert forall|m: int| #[trigger]
                is_first_mapping(mappings, m, data.data_type) implies m == k by {
                if m < k {
                    assert(!wanted(mappings[m]));
                }
                if k < m {
                    assert(mappings[k].data_type == data.data_type);
                }
            }
            assert forall|path: PathModel, text: Text| #[trigger]
                is_shown(document, path, text) <==> host_text(shown_at(document, path)) == Some(
                text,
            ) by {}
        },
        None => {
            assert forall|m: int| !#[trigger] is_first_mapping(mappings, m, data.data_type) by {
                if 0 <= m < mappings.len() {
                    assert(!wanted(mappings[m]));
                }
            }
        },
    }
}

/// The payment that a package finds in transaction data is told by its own mappings, whichever
/// credential authorizes it.
pub proof fn lemma_payments_of_packages(
    store: PackageStore,
    position: usize,
    data: TransactionDataModel,
    payload: JsonModel,
    metadata: Ts12MetadataModel,
)
    ensures
        store.ts12_summary_of(position, data, payload, metadata) == payment_summary(
            store.payment_sca.deep_view(),
            data,
        ),
{
}

/// Configurations in a list are its elements. Configurations that are keyed by their type are the
/// members of an object that are objects, each with its name for a type; other members of an object
/// are left out.
pub proof fn lemma_configurations(value: JsonModel) -> (at: Seq<int>)
    ensures
        match value {
            JsonModel::Array(items) => listed_configurations(value) == items
                && typed_configurations(value) == items,
            JsonModel::Object(entries) => {
                let found = typed_configurations(value);
                &&& listed_configurations(value).len() == 0
                &&& at.len() == found.len()
                &&& ascends(at, entries.len())
                &&& forall|i: int|
                    0 <= i < entries.len() ==> (#[trigger] at.contains(i)
                        <==> entries[i].1 is Object)
                &&& forall|k: int|
                    0 <= k < found.len() ==> #[trigger] found[k] == named_configuration(
                        entries[at[k]],
                    )
            },
            _ => listed_configurations(value).len() == 0 && typed_configurations(value).len() == 0,
        },
{
    if let JsonModel::Object(entries) = value {
        let at = lemma_filtering_keeps_the_order(entries, is_configuration());
        let kept = entries.filter(is_configuration());
        let found = typed_configurations(value);
        assert forall|k: int| 0 <= k < found.len() implies #[trigger] found[k]
            == named_configuration(entries[at[k]]) by {
            assert(kept[k] == entries[at[k]]);
        }
        assert forall|i: int| 0 <= i < entries.len() implies (#[trigger] at.contains(i)
            <==> entries[i].1 is Object) by {
            assert(at.contains(i) <==> is_configuration()(entries[i]));
        }
        at
    } else {
        Seq::empty()
    }
}

/// A configuration that is keyed by its type has that type, whatever its own member says, and keeps
/// its other members.
pub proof fn lemma_keyed_configurations(name: Text, members: Seq<(Text, JsonModel)>, key: Text)
    ensures
        named_configuration((name, JsonModel::Object(members))) is Object,
        ({
            let found = named_configuration((name, JsonModel::Object(members)))->Object_0;
            if key == "type"@ {
                member(found, key) == Some(JsonModel::String(name))
            } else {
                member(found, key) == member(members, key)
            }
        }),
{
    let found = named_configuration((name, JsonModel::Object(members)))->Object_0;
    let kept = members.filter(is_no_type());
    lemma_the_first_member_counts(found, key);
    assert(found[0] == ("type"@, JsonModel::String(name)));
    if key == "type"@ {
        let value = member(found, key)->0;
        let i = choose|i: int|
            0 <= i < found.len() && #[trigger] found[i] == (key, value) && forall|j: int|
                0 <= j < i ==> (#[trigger] found[j]).0 != key;
        if i > 0 {
            assert(found[0].0 != key);
        }
    } else {
        let at = lemma_filtering_keeps_the_order(members, is_no_type());
        lemma_the_first_member_counts(members, key);
        match member(members, key) {
            Some(value) => {
                let i = choose|i: int|
                    0 <= i < members.len() && #[trigger] members[i] == (key, value) && forall|
                        j: int,
                    |
                        0 <= j < i ==> (#[trigger] members[j]).0 != key;
                assert(is_no_type()(members[i]));
                assert(at.contains(i));
                let k = choose|k: int| 0 <= k < at.len() && at[k] == i;
                assert(kept[k] == members[i]);
                assert(found[k + 1] == kept[k]);
                let other = member(found, key)->0;
                let f = choose|f: int|
                    0 <= f < found.len() && #[trigger] found[f] == (key, other) && forall|j: int|
                        0 <= j < f ==> (#[trigger] found[j]).0 != key;
                assert(f >= 1);
                assert(found[f] == kept[f - 1]);
                assert(kept[f - 1] == members[at[f - 1]]);
                if f - 1 < k {
                    assert(at[f - 1] < at[k]);
                    assert(members[at[f - 1]].0 != key);
                }
                if k < f - 1 {
                    assert(found[k + 1].0 != key);
                }
            },
            None => {
                assert forall|f: int| 0 <= f < found.len() implies (#[trigger] found[f]).0
                    != key by {
                    if f > 0 {
                        assert(found[f] == kept[f - 1]);
                        assert(kept[f - 1] == members[at[f - 1]]);
                    }
                }
            },
        }
    }
}

/// A claim is displayed exactly where its list of names is an array with an element.
pub proof fn lemma_displayed_claims(value: JsonModel)
    ensures
        displays(value) <==> (value matches JsonModel::Array(items) && items.len() != 0),
{
}

} // verus!
