//! Metadata of TS12 transaction data, and whether a payload fits it.

use crate::json::{find_member, lemma_entry_models, lemma_json_models, member, JsonModel, JsonValue};
use crate::models::{TransactionData, TransactionDataModel};
use crate::path::{clone_path, path_covers, path_matches, select_nodes, selected};
use crate::path::{lemma_selected_not_empty, ClaimsPathPointer, PathElement, PathElementModel};
use crate::path::PathModel;
use crate::seqs::lemma_take_all;
use crate::text::{same_text, Text};
use crate::ts12::values::{conforms, image_requires_integrity, is_supported_value_type};
use crate::ts12::values::{needs_integrity, value_conforms_to_type, value_types};
use vstd::prelude::*;
use vstd::string::StringExecFns;

verus! {

broadcast use vstd::string::group_string_axioms;

/// Type of TS12 transaction data.
#[derive(Debug, PartialEq, Eq)]
pub struct Ts12DataType {
    /// Transaction data type identifier.
    pub data_type: String,
}

/// Model of [`Ts12DataType`].
pub struct Ts12DataTypeModel {
    pub data_type: Text,
}

impl DeepView for Ts12DataType {
    type V = Ts12DataTypeModel;

    open spec fn deep_view(&self) -> Ts12DataTypeModel {
        Ts12DataTypeModel { data_type: self.data_type@ }
    }
}

/// One claim metadata entry for TS12 transaction data.
#[derive(Debug)]
pub struct Ts12ClaimMetadata {
    /// Claims path pointer (relative to `payload`).
    pub path: ClaimsPathPointer,
    /// Whether this claim must be present in the transaction payload.
    pub mandatory: bool,
    /// Optional value formatter for displayable claim values.
    pub value_type: Option<String>,
    /// Whether the claim has TS12 display metadata.
    pub displayable: bool,
}

/// Model of [`Ts12ClaimMetadata`].
pub struct Ts12ClaimModel {
    pub path: PathModel,
    pub mandatory: bool,
    pub value_type: Option<Text>,
    pub displayable: bool,
}

impl DeepView for Ts12ClaimMetadata {
    type V = Ts12ClaimModel;

    open spec fn deep_view(&self) -> Ts12ClaimModel {
        Ts12ClaimModel {
            path: self.path.deep_view(),
            mandatory: self.mandatory,
            value_type: self.value_type.deep_view(),
            displayable: self.displayable,
        }
    }
}

impl Clone for Ts12ClaimMetadata {
    fn clone(&self) -> (copy: Ts12ClaimMetadata)
        ensures
            copy.deep_view() == self.deep_view(),
    {
        Ts12ClaimMetadata {
            path: clone_path(&self.path),
            mandatory: self.mandatory,
            value_type: self.value_type.clone(),
            displayable: self.displayable,
        }
    }
}

/// Resolved TS12 transaction metadata for one transaction data type.
#[derive(Debug)]
pub struct Ts12TransactionMetadata {
    /// Transaction data type this metadata applies to.
    pub data_type: Ts12DataType,
    /// Claim metadata entries for the transaction payload.
    pub claims: Vec<Ts12ClaimMetadata>,
}

/// Model of [`Ts12TransactionMetadata`].
pub struct Ts12MetadataModel {
    pub data_type: Ts12DataTypeModel,
    pub claims: Seq<Ts12ClaimModel>,
}

impl DeepView for Ts12TransactionMetadata {
    type V = Ts12MetadataModel;

    open spec fn deep_view(&self) -> Ts12MetadataModel {
        Ts12MetadataModel {
            data_type: self.data_type.deep_view(),
            claims: self.claims.deep_view(),
        }
    }
}

impl Clone for Ts12TransactionMetadata {
    fn clone(&self) -> (copy: Ts12TransactionMetadata)
        ensures
            copy.deep_view() == self.deep_view(),
    {
        let claims = self.claims.clone();
        assert(claims.deep_view() =~= self.claims.deep_view());
        Ts12TransactionMetadata {
            data_type: Ts12DataType { data_type: self.data_type.data_type.clone() },
            claims,
        }
    }
}

/// The paths to everything in a document that is neither an object nor an array, behind a prefix.
pub open spec fn leaf_paths(prefix: PathModel, value: JsonModel) -> Seq<PathModel>
    decreases value,
{
    match value {
        JsonModel::Object(entries) => member_paths(prefix, entries),
        JsonModel::Array(items) => item_paths(prefix, items),
        _ => seq![prefix],
    }
}

/// [`leaf_paths`] of the members of an object.
pub open spec fn member_paths(prefix: PathModel, entries: Seq<(Text, JsonModel)>) -> Seq<PathModel>
    decreases entries,
{
    if entries.len() == 0 {
        Seq::empty()
    } else {
        member_paths(prefix, entries.drop_last()) + leaf_paths(
            prefix.push(PathElementModel::String(entries.last().0)),
            entries.last().1,
        )
    }
}

/// [`leaf_paths`] of the elements of an array.
pub open spec fn item_paths(prefix: PathModel, items: Seq<JsonModel>) -> Seq<PathModel>
    decreases items,
{
    if items.len() == 0 {
        Seq::empty()
    } else {
        item_paths(prefix, items.drop_last()) + leaf_paths(
            prefix.push(PathElementModel::Index((items.len() - 1) as u64)),
            items.last(),
        )
    }
}

/// The values of a claim, if there are any.
pub open spec fn values_at(payload: JsonModel, path: PathModel) -> Option<Seq<JsonModel>> {
    match selected(payload, path) {
        Ok(values) => Some(values),
        Err(_) => None,
    }
}

/// The path of the integrity claim that belongs to the claim `name`.
pub open spec fn integrity_path(prefix: PathModel, name: Text) -> PathModel {
    prefix.push(PathElementModel::String(name + "#integrity"@))
}

/// Whether a claim is accompanied by an integrity claim that holds something.
pub open spec fn has_integrity(payload: JsonModel, path: PathModel) -> bool {
    path.len() > 0 && match path.last() {
        PathElementModel::String(name) => match values_at(
            payload,
            integrity_path(path.drop_last(), name),
        ) {
            Some(values) => forall|i: int|
                0 <= i < values.len() ==> match (#[trigger] values[i]).as_text() {
                    Some(text) => text.len() > 0,
                    None => false,
                },
            None => false,
        },
        _ => false,
    }
}

/// Whether the values of a claim are of its value type.
///
/// An image that is a reference has to be accompanied by an integrity claim.
pub open spec fn values_conform(
    payload: JsonModel,
    path: PathModel,
    values: Seq<JsonModel>,
    value_type: Text,
) -> bool {
    forall|i: int|
        0 <= i < values.len() ==> conforms(#[trigger] values[i], value_type) && (value_type
            == "image"@ && needs_integrity(values[i]) ==> has_integrity(payload, path))
}

/// Whether the payload holds a claim as its metadata describes it.
///
/// A claim that is not displayed has no value type. A claim that is displayed without a value type
/// is text. What is only a label cannot be mandatory.
pub open spec fn claim_fits(payload: JsonModel, claim: Ts12ClaimModel) -> bool {
    let values = values_at(payload, claim.path);
    if !claim.displayable {
        claim.value_type is None
    } else {
        match claim.value_type {
            None => match values {
                Some(values) => forall|i: int|
                    0 <= i < values.len() ==> (#[trigger] values[i]) is String,
                None => !claim.mandatory,
            },
            Some(value_type) => {
                &&& value_types().contains(value_type)
                &&& !(value_type == "label_only"@ && claim.mandatory)
                &&& match values {
                    Some(values) => values_conform(payload, claim.path, values, value_type),
                    None => !claim.mandatory,
                }
            },
        }
    }
}

/// Whether some claim describes this path.
pub open spec fn described(claims: Seq<Ts12ClaimModel>, path: PathModel) -> bool {
    exists|i: int| 0 <= i < claims.len() && path_covers((#[trigger] claims[i]).path, path)
}

/// Whether a payload fits the metadata: it is an object, holds nothing that the metadata does not
/// describe, holds every claim as described, and holds every mandatory claim.
pub open spec fn compatible(metadata: Ts12MetadataModel, payload: JsonModel) -> bool {
    let leaves = leaf_paths(Seq::empty(), payload);
    &&& payload is Object
    &&& forall|i: int| 0 <= i < leaves.len() ==> described(metadata.claims, #[trigger] leaves[i])
    &&& forall|i: int|
        0 <= i < metadata.claims.len() ==> claim_fits(payload, #[trigger] metadata.claims[i])
    &&& forall|i: int|
        0 <= i < metadata.claims.len() && (#[trigger] metadata.claims[i]).mandatory ==> values_at(
            payload,
            metadata.claims[i].path,
        ) is Some
}

/// Adds to `out` the paths to everything in `value` that is neither an object nor an array, behind
/// `path`.
fn collect_payload_paths(
    path: &mut ClaimsPathPointer,
    value: &JsonValue,
    out: &mut Vec<ClaimsPathPointer>,
)
    ensures
        final(path).deep_view() == old(path).deep_view(),
        final(out).deep_view() == old(out).deep_view() + leaf_paths(
            old(path).deep_view(),
            value.deep_view(),
        ),
    decreases *value,
{
    let ghost prefix = path.deep_view();
    let ghost start = out.deep_view();
    match value {
        JsonValue::Object(entries) => {
            let ghost models = crate::json::entry_models(entries@);
            proof {
                lemma_entry_models(entries@);
                assert(start =~= start + member_paths(prefix, models.take(0)));
            }
            let mut i: usize = 0;
            while i < entries.len()
                invariant
                    i <= entries.len(),
                    *value == JsonValue::Object(*entries),
                    models == crate::json::entry_models(entries@),
                    models.len() == entries.len(),
                    forall|k: int|
                        0 <= k < entries.len() ==> #[trigger] models[k] == (
                            entries@[k].0@,
                            crate::json::json_model(entries@[k].1),
                        ),
                    path.deep_view() == prefix,
                    out.deep_view() == start + member_paths(prefix, models.take(i as int)),
                decreases entries.len() - i,
            {
                let ghost before = out.deep_view();
                proof {
                    assert(decreases_to!(*value => value->Object_0));
                    assert(decreases_to!(*entries => entries@));
                    assert(decreases_to!(entries@ => entries@[i as int]));
                    assert(decreases_to!(entries@[i as int] => entries@[i as int].1));
                    assert(models[i as int].1 == entries@[i as int].1.deep_view());
                }
                push_element(path, PathElement::String(entries[i].0.clone()));
                collect_payload_paths(path, &entries[i].1, out);
                pop_element(path);
                i = i + 1;
                proof {
                    assert(models.take(i as int).drop_last() =~= models.take(i - 1));
                    assert(models.take(i as int).last() == models[i - 1]);
                    assert(path.deep_view() =~= prefix);
                    assert(out.deep_view() =~= start + member_paths(prefix, models.take(i as int)));
                }
            }
            proof {
                lemma_take_all(models);
            }
        },
        JsonValue::Array(items) => {
            let ghost models = crate::json::json_models(items@);
            proof {
                lemma_json_models(items@);
                assert(start =~= start + item_paths(prefix, models.take(0)));
            }
            let mut i: usize = 0;
            while i < items.len()
                invariant
                    i <= items.len(),
                    *value == JsonValue::Array(*items),
                    models == crate::json::json_models(items@),
                    models.len() == items.len(),
                    forall|k: int|
                        0 <= k < items.len() ==> #[trigger] models[k] == crate::json::json_model(
                            items@[k],
                        ),
                    path.deep_view() == prefix,
                    out.deep_view() == start + item_paths(prefix, models.take(i as int)),
                decreases items.len() - i,
            {
                let ghost before = out.deep_view();
                proof {
                    assert(decreases_to!(*value => value->Array_0));
                    assert(decreases_to!(*items => items@));
                    assert(decreases_to!(items@ => items@[i as int]));
                    assert(models[i as int] == items@[i as int].deep_view());
                }
                push_element(path, PathElement::Index(i as u64));
                collect_payload_paths(path, &items[i], out);
                pop_element(path);
                i = i + 1;
                proof {
                    assert(models.take(i as int).drop_last() =~= models.take(i - 1));
                    assert(models.take(i as int).last() == models[i - 1]);
                    assert(path.deep_view() =~= prefix);
                    assert(out.deep_view() =~= start + item_paths(prefix, models.take(i as int)));
                }
            }
            proof {
                lemma_take_all(models);
            }
        },
        _ => {
            let copy = clone_path(path);
            out.push(copy);
            assert(out.deep_view() =~= start + seq![prefix]);
        },
    }
}

/// Extends `path` by a component.
fn push_element(path: &mut ClaimsPathPointer, element: PathElement)
    ensures
        final(path).deep_view() == old(path).deep_view().push(element.deep_view()),
{
    let ghost before = path.deep_view();
    path.push(element);
    assert(path.deep_view() =~= before.push(element.deep_view()));
}

/// Takes the last component off `path`.
fn pop_element(path: &mut ClaimsPathPointer)
    requires
        old(path).deep_view().len() > 0,
    ensures
        final(path).deep_view() == old(path).deep_view().drop_last(),
{
    let ghost before = path@;
    let ghost models = path.deep_view();
    let last = path.pop();
    proof {
        assert forall|k: int| 0 <= k < path.len() implies path.deep_view()[k] == models[k] by {
            assert(models[k] == before[k].deep_view());
        }
        assert(path.deep_view() =~= models.drop_last());
    }
}

/// The values of the claim at `path`, if there are any.
pub fn claim_values<'a>(payload: &'a JsonValue, path: &ClaimsPathPointer) -> (values: Option<
    Vec<&'a JsonValue>,
>)
    ensures
        match values {
            Some(values) => values_at(payload.deep_view(), path.deep_view()) == Some(
                values.deep_view(),
            ) && values.len() > 0,
            None => values_at(payload.deep_view(), path.deep_view()) is None,
        },
{
    proof {
        lemma_selected_not_empty(seq![payload.deep_view()], path.deep_view());
    }
    match select_nodes(payload, path) {
        Ok(values) => {
            assert(values.deep_view().len() == values.len());
            Some(values)
        },
        Err(_) => None,
    }
}

/// Whether the claim at `path` is accompanied by an integrity claim that holds something.
pub fn has_integrity_sibling(payload: &JsonValue, path: &ClaimsPathPointer) -> (has: bool)
    ensures
        has == has_integrity(payload.deep_view(), path.deep_view()),
{
    let ghost whole = path.deep_view();
    if path.len() == 0 {
        return false;
    }
    assert(whole.last() == path@[path.len() - 1].deep_view());
    let name = match &path[path.len() - 1] {
        PathElement::String(name) => name,
        _ => return false,
    };
    let mut sibling = clone_path(path);
    pop_element(&mut sibling);
    let mut full = name.clone();
    full.append("#integrity");
    push_element(&mut sibling, PathElement::String(full));
    assert(sibling.deep_view() == integrity_path(whole.drop_last(), name@));
    let values = match claim_values(payload, &sibling) {
        Some(values) => values,
        None => return false,
    };
    let ghost all = values.deep_view();
    let mut i: usize = 0;
    while i < values.len()
        invariant
            i <= values.len(),
            all == values.deep_view(),
            whole == path.deep_view(),
            whole.len() > 0,
            whole.last() == PathElementModel::String(name@),
            values_at(payload.deep_view(), integrity_path(whole.drop_last(), name@)) == Some(all),
            forall|j: int|
                0 <= j < i ==> match (#[trigger] all[j]).as_text() {
                    Some(text) => text.len() > 0,
                    None => false,
                },
        decreases values.len() - i,
    {
        assert(all[i as int] == values@[i as int].deep_view());
        let filled = match values[i].as_str() {
            Some(text) => !text.is_empty(),
            None => false,
        };
        if !filled {
            return false;
        }
        i = i + 1;
    }
    true
}

/// Whether all of `values` are text.
fn all_strings(values: &Vec<&JsonValue>) -> (all: bool)
    ensures
        all == forall|i: int|
            0 <= i < values.deep_view().len() ==> (#[trigger] values.deep_view()[i]) is String,
{
    let ghost models = values.deep_view();
    let mut i: usize = 0;
    while i < values.len()
        invariant
            i <= values.len(),
            models == values.deep_view(),
            forall|j: int| 0 <= j < i ==> (#[trigger] models[j]) is String,
        decreases values.len() - i,
    {
        assert(models[i as int] == values@[i as int].deep_view());
        if !values[i].is_string() {
            return false;
        }
        i = i + 1;
    }
    true
}

/// Whether `values`, which are at `path`, are of the value type `value_type`.
fn values_are_of_type(
    payload: &JsonValue,
    path: &ClaimsPathPointer,
    values: &Vec<&JsonValue>,
    value_type: &str,
) -> (are: bool)
    ensures
        are == values_conform(
            payload.deep_view(),
            path.deep_view(),
            values.deep_view(),
            value_type@,
        ),
{
    let ghost models = values.deep_view();
    let is_image = same_text(value_type, "image");
    let mut i: usize = 0;
    while i < values.len()
        invariant
            i <= values.len(),
            models == values.deep_view(),
            is_image == (value_type@ == "image"@),
            forall|j: int|
                0 <= j < i ==> conforms(#[trigger] models[j], value_type@) && (value_type@
                    == "image"@ && needs_integrity(models[j]) ==> has_integrity(
                    payload.deep_view(),
                    path.deep_view(),
                )),
        decreases values.len() - i,
    {
        let value = values[i];
        assert(models[i as int] == value.deep_view());
        if !value_conforms_to_type(value, value_type) {
            return false;
        }
        if is_image && image_requires_integrity(value) && !has_integrity_sibling(payload, path) {
            return false;
        }
        i = i + 1;
    }
    true
}

impl Ts12ClaimMetadata {
    /// Whether `payload` holds the claim as this metadata describes it.
    pub fn fits(&self, payload: &JsonValue) -> (fits: bool)
        ensures
            fits == claim_fits(payload.deep_view(), self.deep_view()),
    {
        if !self.displayable {
            return self.value_type.is_none();
        }
        let values = claim_values(payload, &self.path);
        match &self.value_type {
            None => match &values {
                Some(values) => all_strings(values),
                None => !self.mandatory,
            },
            Some(value_type) => {
                let value_type = value_type.as_str();
                if !is_supported_value_type(value_type) {
                    return false;
                }
                if same_text(value_type, "label_only") && self.mandatory {
                    return false;
                }
                match &values {
                    Some(values) => values_are_of_type(payload, &self.path, values, value_type),
                    None => !self.mandatory,
                }
            },
        }
    }
}

impl Ts12TransactionMetadata {
    /// Whether some claim describes `path`.
    fn describes(&self, path: &ClaimsPathPointer) -> (does: bool)
        ensures
            does == described(self.deep_view().claims, path.deep_view()),
    {
        let ghost models = self.deep_view().claims;
        let mut i: usize = 0;
        while i < self.claims.len()
            invariant
                i <= self.claims.len(),
                models == self.deep_view().claims,
                forall|j: int|
                    0 <= j < i ==> !path_covers((#[trigger] models[j]).path, path.deep_view()),
            decreases self.claims.len() - i,
        {
            assert(models[i as int] == self.claims@[i as int].deep_view());
            if path_matches(&self.claims[i].path, path) {
                return true;
            }
            i = i + 1;
        }
        false
    }

    /// Returns true when `payload` conforms to the metadata constraints used for TS12 matching.
    pub fn is_payload_compatible(&self, payload: &JsonValue) -> (is: bool)
        ensures
            is == compatible(self.deep_view(), payload.deep_view()),
    {
        match payload {
            JsonValue::Object(_) => {},
            _ => return false,
        }
        let ghost models = self.deep_view().claims;
        let ghost root = payload.deep_view();
        let mut paths: Vec<ClaimsPathPointer> = Vec::new();
        let mut path: ClaimsPathPointer = Vec::new();
        assert(path.deep_view() =~= Seq::<PathElementModel>::empty());
        assert(paths.deep_view() =~= Seq::<PathModel>::empty());
        collect_payload_paths(&mut path, payload, &mut paths);
        let ghost leaves = leaf_paths(Seq::empty(), root);
        assert(paths.deep_view() =~= leaves);
        let mut i: usize = 0;
        while i < paths.len()
            invariant
                i <= paths.len(),
                models == self.deep_view().claims,
                root == payload.deep_view(),
                leaves == leaf_paths(Seq::empty(), root),
                paths.deep_view() == leaves,
                forall|j: int| 0 <= j < i ==> described(models, #[trigger] leaves[j]),
            decreases paths.len() - i,
        {
            assert(leaves[i as int] == paths@[i as int].deep_view());
            if !self.describes(&paths[i]) {
                return false;
            }
            i = i + 1;
        }
        let mut k: usize = 0;
        while k < self.claims.len()
            invariant
                k <= self.claims.len(),
                models == self.deep_view().claims,
                root == payload.deep_view(),
                forall|j: int| 0 <= j < k ==> claim_fits(root, #[trigger] models[j]),
                forall|j: int|
                    0 <= j < k && (#[trigger] models[j]).mandatory ==> values_at(
                        root,
                        models[j].path,
                    ) is Some,
            decreases self.claims.len() - k,
        {
            let claim = &self.claims[k];
            assert(models[k as int] == claim.deep_view());
            if !claim.fits(payload) {
                return false;
            }
            if claim.mandatory && claim_values(payload, &claim.path).is_none() {
                return false;
            }
            k = k + 1;
        }
        true
    }
}

impl TransactionDataModel {
    /// The payload of the transaction.
    pub open spec fn payload(self) -> Option<JsonModel> {
        member(self.extra, "payload"@)
    }
}

/// The payload of a transaction.
pub fn transaction_data_payload(transaction_data: &TransactionData) -> (payload: Option<&JsonValue>)
    ensures
        payload.deep_view() == transaction_data.deep_view().payload(),
{
    find_member(&transaction_data.extra, "payload")
}

/// What is wrong with TS12 transaction data.
#[derive(Debug, Clone, Copy, PartialEq, Eq, Structural)]
pub enum Ts12Error {
    /// The payload of this transaction data is not an object.
    PayloadNotObject { index: usize },
}

/// TS12 transaction-data shape accepted by the matcher.
pub struct Ts12TransactionDataShape;

/// Whether transaction data has an acceptable shape: its payload, if it has one, is an object.
pub open spec fn has_shape(data: TransactionDataModel) -> bool {
    match data.payload() {
        Some(payload) => payload is Object,
        None => true,
    }
}

impl Ts12TransactionDataShape {
    /// Checks the shape of the transaction data at `index`.
    pub fn build(
        index: usize,
        transaction_data: &TransactionData,
    ) -> (shape: Result<Ts12TransactionDataShape, Ts12Error>)
        ensures
            match shape {
                Ok(_) => has_shape(transaction_data.deep_view()),
                Err(error) => !has_shape(transaction_data.deep_view()) && error
                    == (Ts12Error::PayloadNotObject { index }),
            },
    {
        match transaction_data_payload(transaction_data) {
            None => Ok(Ts12TransactionDataShape),
            Some(JsonValue::Object(_)) => Ok(Ts12TransactionDataShape),
            Some(_) => Err(Ts12Error::PayloadNotObject { index }),
        }
    }
}

/// The TS12 type of transaction data.
pub fn ts12_data_type_from_transaction_data(
    transaction_data: &TransactionData,
) -> (data_type: Ts12DataType)
    ensures
        data_type.deep_view().data_type == transaction_data.deep_view().data_type,
{
    Ts12DataType { data_type: transaction_data.data_type.clone() }
}

} // verus!
