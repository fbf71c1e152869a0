//! Payments that transaction data tells of.

use crate::c8::{nul_free, C8Text};
use crate::json::{clone_entries, lemma_entry_models, lemma_json_models, JsonModel, JsonValue};
use crate::matcher::store::{SummaryModel, Ts12PaymentSummary};
use crate::models::{TransactionData, TransactionDataModel};
use crate::package::config::{PaymentScaModel, PaymentScaTypeConfig};
use crate::path::{select_nodes, selected, ClaimsPathPointer, PathModel};
use crate::seqs::{first_where, lemma_first_where, lemma_first_where_is};
use crate::text::{same_text, Text};
use vstd::prelude::*;

verus! {

broadcast use vstd::string::group_string_axioms;

/// Transaction data as the JSON object that it is. Further members come first, and so prevail over
/// members of the same name.
pub open spec fn data_json(data: TransactionDataModel) -> JsonModel {
    let known = seq![
        ("type"@, JsonModel::String(data.data_type)),
        (
            "credential_ids"@,
            JsonModel::Array(data.credential_ids.map_values(|id: Text| JsonModel::String(id))),
        ),
    ];
    JsonModel::Object(
        data.extra + match data.transaction_data_hashes_alg {
            Some(alg) => known.push(("transaction_data_hashes_alg"@, JsonModel::String(alg))),
            None => known,
        },
    )
}

/// A value as text that can be shown.
pub open spec fn shown_text(value: JsonModel) -> Option<Text> {
    match value {
        JsonModel::String(text) => if text.len() > 0 {
            Some(text)
        } else {
            None
        },
        JsonModel::Number(number) => Some(number.text()),
        JsonModel::Bool(flag) => Some(
            if flag {
                "true"@
            } else {
                "false"@
            },
        ),
        _ => None,
    }
}

/// What can be shown of the first value at a path.
pub open spec fn shown_at(document: JsonModel, path: PathModel) -> Option<Text> {
    match selected(document, path) {
        Ok(values) => if values.len() > 0 {
            shown_text(values[0])
        } else {
            None
        },
        Err(_) => None,
    }
}

/// Text that can be handed to the host.
pub open spec fn host_text(text: Option<Text>) -> Option<Text> {
    match text {
        Some(text) => if nul_free(text) {
            Some(text)
        } else {
            None
        },
        None => None,
    }
}

/// Tells mappings of a transaction data type from others.
pub open spec fn maps(data_type: Text) -> spec_fn(PaymentScaModel) -> bool {
    |mapping: PaymentScaModel| mapping.data_type == data_type
}

/// The payment that transaction data tells of under a mapping.
pub open spec fn mapped_summary(mapping: PaymentScaModel, data: TransactionDataModel) -> Option<
    SummaryModel,
> {
    let document = data_json(data);
    match (
        host_text(shown_at(document, mapping.payee)),
        host_text(shown_at(document, mapping.amount)),
    ) {
        (Some(merchant_name), Some(transaction_amount)) => Some(
            SummaryModel {
                merchant_name,
                transaction_amount,
                additional_info: match mapping.additional_info {
                    Some(path) => host_text(shown_at(document, path)),
                    None => None,
                },
            },
        ),
        _ => None,
    }
}

/// The payment that transaction data tells of: by the first mapping of its type.
pub open spec fn payment_summary(
    mappings: Seq<PaymentScaModel>,
    data: TransactionDataModel,
) -> Option<SummaryModel> {
    match first_where(mappings, maps(data.data_type)) {
        Some(k) => mapped_summary(mappings[k], data),
        None => None,
    }
}

/// The texts as JSON strings.
fn json_strings(texts: &Vec<String>) -> (values: Vec<JsonValue>)
    ensures
        crate::json::json_models(values@) == texts.deep_view().map_values(
            |text: Text| JsonModel::String(text),
        ),
{
    let mut values: Vec<JsonValue> = Vec::new();
    let mut i: usize = 0;
    while i < texts.len()
        invariant
            i <= texts.len(),
            values.len() == i,
            forall|k: int|
                0 <= k < i ==> (#[trigger] values@[k]).deep_view() == JsonModel::String(texts@[k]@),
        decreases texts.len() - i,
    {
        values.push(JsonValue::String(texts[i].clone()));
        i = i + 1;
    }
    proof {
        lemma_json_models(values@);
        assert(crate::json::json_models(values@) =~= texts.deep_view().map_values(
            |text: Text| JsonModel::String(text),
        ));
    }
    values
}

/// Transaction data as the JSON object that it is.
pub fn transaction_data_as_value(data: &TransactionData) -> (value: JsonValue)
    ensures
        value.deep_view() == data_json(data.deep_view()),
{
    let mut entries = clone_entries(&data.extra);
    let ghost first = entries.deep_view();
    entries.push(("type".to_owned(), JsonValue::String(data.data_type.clone())));
    entries.push(
        ("credential_ids".to_owned(), JsonValue::Array(json_strings(&data.credential_ids))),
    );
    if let Some(alg) = &data.transaction_data_hashes_alg {
        entries.push(("transaction_data_hashes_alg".to_owned(), JsonValue::String(alg.clone())));
    }
    proof {
        let wanted = data_json(data.deep_view())->Object_0;
        let models = crate::json::entry_models(entries@);
        lemma_entry_models(entries@);
        assert(models.len() == wanted.len());
        assert forall|i: int| 0 <= i < models.len() implies models[i] == wanted[i] by {
            if i < first.len() {
                assert(models[i] == entries@[i].deep_view());
                assert(first[i] == data.deep_view().extra[i]);
            }
        }
        assert(models =~= wanted);
    }
    JsonValue::Object(entries)
}

/// What can be shown of the first value at `path`.
pub fn string_at_path(root: &JsonValue, path: &ClaimsPathPointer) -> (text: Option<String>)
    ensures
        text.deep_view() == shown_at(root.deep_view(), path.deep_view()),
{
    let nodes = match select_nodes(root, path) {
        Ok(nodes) => nodes,
        Err(_) => return None,
    };
    assert(nodes.deep_view().len() == nodes.len());
    if nodes.is_empty() {
        return None;
    }
    assert(nodes.deep_view()[0] == nodes@[0].deep_view());
    match nodes[0] {
        JsonValue::String(text) => if text.as_str().is_empty() {
            None
        } else {
            Some(text.clone())
        },
        JsonValue::Number(number) => Some(number.text()),
        JsonValue::Bool(flag) => if *flag {
            Some("true".to_owned())
        } else {
            Some("false".to_owned())
        },
        _ => None,
    }
}

/// What can be shown of the first value at `path` and handed to the host.
fn host_text_at(root: &JsonValue, path: &ClaimsPathPointer) -> (text: Option<C8Text>)
    ensures
        text.deep_view() == host_text(shown_at(root.deep_view(), path.deep_view())),
{
    match string_at_path(root, path) {
        Some(text) => C8Text::from_string(text),
        None => None,
    }
}

/// The payment that `data` tells of.
pub fn payment_sca_summary(
    mappings: &Vec<PaymentScaTypeConfig>,
    data: &TransactionData,
) -> (summary: Option<Ts12PaymentSummary>)
    ensures
        summary.deep_view() == payment_summary(mappings.deep_view(), data.deep_view()),
{
    let ghost models = mappings.deep_view();
    let ghost wanted = maps(data.deep_view().data_type);
    let mut at: usize = 0;
    while at < mappings.len() && !same_text(
        mappings[at].data_type.as_str(),
        data.data_type.as_str(),
    )
        invariant
            at <= mappings.len(),
            models == mappings.deep_view(),
            wanted == maps(data.deep_view().data_type),
            forall|j: int| 0 <= j < at ==> !wanted(#[trigger] models[j]),
        decreases mappings.len() - at,
    {
        assert(models[at as int] == mappings@[at as int].deep_view());
        at = at + 1;
    }
    proof {
        lemma_first_where(models, wanted);
    }
    if at == mappings.len() {
        return None;
    }
    let mapping = &mappings[at];
    proof {
        assert(models[at as int] == mapping.deep_view());
        lemma_first_where_is(models, wanted, at as int);
    }
    let document = transaction_data_as_value(data);
    let merchant_name = match host_text_at(&document, &mapping.payee) {
        Some(text) => text,
        None => return None,
    };
    let transaction_amount = match host_text_at(&document, &mapping.amount) {
        Some(text) => text,
        None => return None,
    };
    let additional_info = match &mapping.additional_info {
        Some(path) => host_text_at(&document, path),
        None => None,
    };
    Some(Ts12PaymentSummary { merchant_name, transaction_amount, additional_info })
}

} // verus!
