//! What is handed to the host: sets of slots of entries.

use crate::c8::{lemma_decimal_nul_free, lemma_nul_free_add, strip_nul, without_nul};
use crate::c8::C8Text;
use crate::json::{JsonModel, JsonNumber, JsonValue, NumberModel};
use crate::matcher::config::{PROTOCOL_OPENID4VP, PROTOCOL_OPENID4VP_V1_UNSIGNED};
use crate::matcher::store::{DcqlSelectionContext, MatcherStore, SummaryModel, Ts12PaymentSummary};
use crate::models::{ClaimModel, TransactionData, TransactionDataModel};
use crate::path::{has_wildcard, path_has_wildcard};
use crate::planner::constraints::as_ints;
use crate::planner::presentation::SetAlternative;
use crate::planner::selections::{CredentialSelection, SelectionModel};
use crate::render::{json_text, render_json};
use crate::seqs::{lemma_filter_step, lemma_flat_map_empty};
use crate::seqs::{lemma_flat_map_step, lemma_take_all};
use crate::store::RefModel;
use crate::text::{decimal, decimal_text, same_text, Text};
use crate::ts12::metadata::{transaction_data_payload, ts12_data_type_from_transaction_data};
use vstd::prelude::*;
use vstd::string::StringExecFns;

verus! {

broadcast use vstd::string::group_string_axioms;

/// One line that is shown with an entry.
#[derive(Debug)]
pub struct Field {
    /// What the line is about.
    pub display_name: C8Text,
    /// What the line says.
    pub display_value: Option<C8Text>,
}

/// Model of [`Field`].
pub struct FieldModel {
    pub display_name: Text,
    pub display_value: Option<Text>,
}

impl DeepView for Field {
    type V = FieldModel;

    open spec fn deep_view(&self) -> FieldModel {
        FieldModel {
            display_name: self.display_name@,
            display_value: self.display_value.deep_view(),
        }
    }
}

/// An entry that is known by its id.
#[derive(Debug)]
pub struct StringIdEntry {
    /// Id that the host hands back.
    pub cred_id: C8Text,
    /// Title.
    pub title: C8Text,
    /// Icon bytes.
    pub icon: Option<Vec<u8>>,
    /// Subtitle.
    pub subtitle: Option<C8Text>,
    /// Disclaimer.
    pub disclaimer: Option<C8Text>,
    /// Warning.
    pub warning: Option<C8Text>,
    /// Metadata that the host hands back, the text of a JSON document.
    pub metadata: C8Text,
    /// Lines shown with the entry.
    pub fields: Vec<Field>,
}

/// Model of [`StringIdEntry`].
pub struct StringIdEntryModel {
    pub cred_id: Text,
    pub title: Text,
    pub icon: Option<Seq<u8>>,
    pub subtitle: Option<Text>,
    pub disclaimer: Option<Text>,
    pub warning: Option<Text>,
    pub metadata: Text,
    pub fields: Seq<FieldModel>,
}

impl DeepView for StringIdEntry {
    type V = StringIdEntryModel;

    open spec fn deep_view(&self) -> StringIdEntryModel {
        StringIdEntryModel {
            cred_id: self.cred_id@,
            title: self.title@,
            icon: self.icon.deep_view(),
            subtitle: self.subtitle.deep_view(),
            disclaimer: self.disclaimer.deep_view(),
            warning: self.warning.deep_view(),
            metadata: self.metadata@,
            fields: self.fields.deep_view(),
        }
    }
}

/// An entry that is shown as a payment.
#[derive(Debug)]
pub struct PaymentEntry {
    /// Id that the host hands back.
    pub cred_id: C8Text,
    /// Payee.
    pub merchant_name: C8Text,
    /// Amount.
    pub transaction_amount: C8Text,
    /// Name of the means of payment.
    pub payment_method_name: C8Text,
    /// Subtitle of the means of payment.
    pub payment_method_subtitle: Option<C8Text>,
    /// Icon of the means of payment.
    pub payment_method_icon: Option<Vec<u8>>,
    /// Further information.
    pub additional_info: Option<C8Text>,
    /// Metadata that the host hands back, the text of a JSON document.
    pub metadata: C8Text,
    /// Lines shown with the entry.
    pub fields: Vec<Field>,
}

/// Model of [`PaymentEntry`].
pub struct PaymentEntryModel {
    pub cred_id: Text,
    pub merchant_name: Text,
    pub transaction_amount: Text,
    pub payment_method_name: Text,
    pub payment_method_subtitle: Option<Text>,
    pub payment_method_icon: Option<Seq<u8>>,
    pub additional_info: Option<Text>,
    pub metadata: Text,
    pub fields: Seq<FieldModel>,
}

impl DeepView for PaymentEntry {
    type V = PaymentEntryModel;

    open spec fn deep_view(&self) -> PaymentEntryModel {
        PaymentEntryModel {
            cred_id: self.cred_id@,
            merchant_name: self.merchant_name@,
            transaction_amount: self.transaction_amount@,
            payment_method_name: self.payment_method_name@,
            payment_method_subtitle: self.payment_method_subtitle.deep_view(),
            payment_method_icon: self.payment_method_icon.deep_view(),
            additional_info: self.additional_info.deep_view(),
            metadata: self.metadata@,
            fields: self.fields.deep_view(),
        }
    }
}

/// One choice in a slot.
#[derive(Debug)]
pub enum CredentialEntry {
    /// An entry that is known by its id.
    StringId(StringIdEntry),
    /// An entry that is shown as a payment.
    Payment(PaymentEntry),
}

/// Model of [`CredentialEntry`].
pub enum EntryModel {
    StringId(StringIdEntryModel),
    Payment(PaymentEntryModel),
}

impl DeepView for CredentialEntry {
    type V = EntryModel;

    open spec fn deep_view(&self) -> EntryModel {
        match *self {
            CredentialEntry::StringId(entry) => EntryModel::StringId(entry.deep_view()),
            CredentialEntry::Payment(entry) => EntryModel::Payment(entry.deep_view()),
        }
    }
}

/// A slot: one of its alternatives is chosen.
#[derive(Debug)]
pub struct CredentialSlot {
    /// The alternatives.
    pub alternatives: Vec<CredentialEntry>,
}

impl DeepView for CredentialSlot {
    type V = Seq<EntryModel>;

    open spec fn deep_view(&self) -> Seq<EntryModel> {
        self.alternatives.deep_view()
    }
}

/// A set of slots that are presented together.
#[derive(Debug)]
pub struct CredentialSet {
    /// Id of the set.
    pub set_id: C8Text,
    /// The slots.
    pub slots: Vec<CredentialSlot>,
}

/// Model of [`CredentialSet`].
pub struct SetModel {
    pub set_id: Text,
    pub slots: Seq<Seq<EntryModel>>,
}

impl DeepView for CredentialSet {
    type V = SetModel;

    open spec fn deep_view(&self) -> SetModel {
        SetModel { set_id: self.set_id@, slots: self.slots.deep_view() }
    }
}

/// Transaction data that metadata tells of.
#[derive(Debug, Clone, Copy, PartialEq, Eq, Structural)]
pub struct SelectedTransactionData {
    /// Index into the transaction data of the request.
    pub index: usize,
    /// Whether the transaction data is shown in dedicated UI.
    pub displayed: bool,
}

/// The JSON object that tells of transaction data.
pub open spec fn selected_json(selected: SelectedTransactionData) -> JsonModel {
    JsonModel::Object(
        seq![
            ("index"@, JsonModel::Number(NumberModel::PosInt(selected.index as u64))),
            ("displayed"@, JsonModel::Bool(selected.displayed)),
        ],
    )
}

/// The metadata of an entry: the credential query id, the credential id, and the transaction data
/// where there is any.
pub open spec fn metadata_json(
    dcql_id: Text,
    credential_id: Text,
    selected: Option<SelectedTransactionData>,
) -> JsonModel {
    let ids = seq![
        ("dcql_id"@, JsonModel::String(dcql_id)),
        ("credential_id"@, JsonModel::String(credential_id)),
    ];
    JsonModel::Object(
        match selected {
            Some(selected) => ids.push(("transaction_data"@, selected_json(selected))),
            None => ids,
        },
    )
}

/// The metadata of an entry as text: the JSON text, without NULs.
pub open spec fn metadata_text(
    dcql_id: Text,
    credential_id: Text,
    selected: Option<SelectedTransactionData>,
) -> Text {
    without_nul(json_text(metadata_json(dcql_id, credential_id, selected)))
}

/// Tells of transaction data in JSON.
fn selected_value(selected: SelectedTransactionData) -> (value: JsonValue)
    ensures
        value.deep_view() == selected_json(selected),
{
    let entries = vec![
        ("index".to_owned(), JsonValue::Number(JsonNumber::PosInt(selected.index as u64))),
        ("displayed".to_owned(), JsonValue::Bool(selected.displayed)),
    ];
    proof {
        crate::json::lemma_entry_models(entries@);
        assert(crate::json::entry_models(entries@) =~= seq![
            ("index"@, JsonModel::Number(NumberModel::PosInt(selected.index as u64))),
            ("displayed"@, JsonModel::Bool(selected.displayed)),
        ]);
    }
    JsonValue::Object(entries)
}

/// Builds the document that the metadata of an entry is the text of.
pub fn metadata_value(
    dcql_id: &str,
    credential_id: &str,
    selected: Option<SelectedTransactionData>,
) -> (metadata: JsonValue)
    ensures
        metadata.deep_view() == metadata_json(dcql_id@, credential_id@, selected),
{
    let mut entries = vec![
        ("dcql_id".to_owned(), JsonValue::String(dcql_id.to_owned())),
        ("credential_id".to_owned(), JsonValue::String(credential_id.to_owned())),
    ];
    if let Some(selected) = selected {
        entries.push(("transaction_data".to_owned(), selected_value(selected)));
    }
    let ghost wanted = metadata_json(dcql_id@, credential_id@, selected);
    proof {
        crate::json::lemma_entry_models(entries@);
        assert(crate::json::entry_models(entries@) =~= wanted->Object_0);
    }
    JsonValue::Object(entries)
}

/// Builds the metadata of an entry.
pub fn build_metadata(
    dcql_id: &str,
    credential_id: &str,
    selected: Option<SelectedTransactionData>,
) -> (metadata: C8Text)
    ensures
        metadata@ == metadata_text(dcql_id@, credential_id@, selected),
{
    let text = render_json(&metadata_value(dcql_id, credential_id, selected));
    C8Text::of(strip_nul(text.as_str()).as_str())
}

/// The payment summary of one transaction for a credential, if there is one.
///
/// The transaction needs a payload, and the wallet needs metadata of the transaction's type.
pub open spec fn summary_at<S: MatcherStore>(
    store: S,
    cred: RefModel<S>,
    data: Seq<TransactionDataModel>,
    index: int,
) -> Option<SummaryModel> {
    if 0 <= index < data.len() {
        match data[index].payload() {
            Some(payload) => match store.ts12_metadata_of(cred, data[index]) {
                Some(metadata) => if metadata.data_type.data_type == data[index].data_type {
                    store.ts12_summary_of(cred, data[index], payload, metadata)
                } else {
                    None
                },
                None => None,
            },
            None => None,
        }
    } else {
        None
    }
}

/// The transactions with a payment summary.
pub open spec fn payments<S: MatcherStore>(
    store: S,
    cred: RefModel<S>,
    data: Seq<TransactionDataModel>,
    indices: Seq<int>,
) -> Seq<int> {
    indices.filter(|i: int| summary_at(store, cred, data, i) is Some)
}

/// The transaction that is shown as a payment: the one with a payment summary, if there is exactly
/// one.
pub open spec fn payment_display<S: MatcherStore>(
    store: S,
    cred: RefModel<S>,
    data: Seq<TransactionDataModel>,
    indices: Seq<int>,
) -> Option<(SummaryModel, int)> {
    let found = payments(store, cred, data, indices);
    if found.len() == 1 {
        Some((summary_at(store, cred, data, found[0])->0, found[0]))
    } else {
        None
    }
}

/// Display payload for one credential selection containing TS12 transaction data.
#[derive(Debug)]
pub struct Ts12Display {
    /// Summary of the payment.
    pub payment_summary: Ts12PaymentSummary,
    /// The transaction data that is displayed.
    pub displayed_transaction_data_index: usize,
}

/// The payment summary of one transaction for `cred`, if there is one.
fn find_summary<S: MatcherStore>(
    store: &S,
    cred: &S::CredentialRef,
    data: &[TransactionData],
    index: usize,
) -> (summary: Option<Ts12PaymentSummary>)
    ensures
        summary.deep_view() == summary_at(
            *store,
            cred.deep_view(),
            data.deep_view(),
            index as int,
        ),
{
    if index >= data.len() {
        return None;
    }
    let td = &data[index];
    assert(data.deep_view()[index as int] == td.deep_view());
    let payload = match transaction_data_payload(td) {
        Some(payload) => payload,
        None => return None,
    };
    let metadata = match store.ts12_transaction_metadata(cred, td) {
        Some(metadata) => metadata,
        None => return None,
    };
    let data_type = ts12_data_type_from_transaction_data(td);
    if !same_text(metadata.data_type.data_type.as_str(), data_type.data_type.as_str()) {
        return None;
    }
    store.ts12_payment_summary(cred, td, payload, &metadata)
}

/// Builds TS12 display output for a selection.
pub fn build_display_for_context<S: MatcherStore>(
    store: &S,
    cred: &S::CredentialRef,
    context: &DcqlSelectionContext<'_>,
) -> (display: Option<Ts12Display>)
    ensures
        match display {
            Some(display) => payment_display(
                *store,
                cred.deep_view(),
                context.transaction_data.deep_view(),
                as_ints(context.transaction_data_indices@),
            ) == Some(
                (
                    display.payment_summary.deep_view(),
                    display.displayed_transaction_data_index as int,
                ),
            ),
            None => payment_display(
                *store,
                cred.deep_view(),
                context.transaction_data.deep_view(),
                as_ints(context.transaction_data_indices@),
            ) is None,
        },
{
    let indices = context.transaction_data_indices;
    let ghost ints = as_ints(indices@);
    let ghost data = context.transaction_data.deep_view();
    let ghost has = |i: int| summary_at(*store, cred.deep_view(), data, i) is Some;
    let ghost found = ints.filter(has);
    let mut display: Option<Ts12Display> = None;
    let mut i: usize = 0;
    proof {
        reveal(Seq::filter);
        assert(ints.take(0).filter(has) =~= Seq::<int>::empty());
    }
    while i < indices.len()
        invariant
            i <= indices.len(),
            indices == context.transaction_data_indices,
            ints == as_ints(indices@),
            data == context.transaction_data.deep_view(),
            has == (|i: int| summary_at(*store, cred.deep_view(), data, i) is Some),
            found == ints.filter(has),
            found == payments(*store, cred.deep_view(), data, ints),
            match display {
                Some(display) => ints.take(i as int).filter(has) == seq![
                    display.displayed_transaction_data_index as int,
                ] && summary_at(
                    *store,
                    cred.deep_view(),
                    data,
                    display.displayed_transaction_data_index as int,
                ) == Some(display.payment_summary.deep_view()),
                None => ints.take(i as int).filter(has).len() == 0,
            },
        decreases indices.len() - i,
    {
        let at: usize = indices[i];
        proof {
            assert(ints[i as int] == at);
            lemma_filter_step(ints, has, i as int);
        }
        i = i + 1;
        if let Some(summary) = find_summary(store, cred, context.transaction_data, at) {
            if display.is_some() {
                proof {
                    let prefix = ints.take(i as int);
                    let rest = ints.skip(i as int);
                    assert(ints =~= prefix + rest);
                    Seq::filter_distributes_over_add(prefix, rest, has);
                    assert(found.len() >= 2);
                }
                return None;
            }
            display = Some(
                Ts12Display { payment_summary: summary, displayed_transaction_data_index: at },
            );
            assert(ints.take(i as int).filter(has) =~= seq![at as int]);
        }
    }
    proof {
        lemma_take_all(ints);
    }
    display
}

/// The lines that are shown for claims: those that have a label, except where the path includes
/// wildcards.
pub open spec fn shown_fields<S: MatcherStore>(
    store: S,
    cred: RefModel<S>,
    claims: Seq<ClaimModel>,
) -> Seq<FieldModel> {
    claims.filter(
        |claim: ClaimModel|
            !has_wildcard(claim.path) && store.label_of(cred, claim.path) is Some,
    ).map_values(
        |claim: ClaimModel|
            FieldModel {
                display_name: store.label_of(cred, claim.path)->0,
                display_value: store.value_of(cred, claim.path),
            },
    )
}

/// The transaction data that the metadata of an entry tells of: the first that is bound to it, by
/// its index in the request. Transaction data whose index in the request is not known goes by its
/// own index.
pub open spec fn told(
    request_indices: Seq<usize>,
    bound: Seq<int>,
    displayed: Option<int>,
) -> Option<SelectedTransactionData> {
    if bound.len() > 0 {
        Some(
            SelectedTransactionData {
                index: if bound[0] < request_indices.len() {
                    request_indices[bound[0]]
                } else {
                    bound[0] as usize
                },
                displayed: displayed == Some(bound[0]),
            },
        )
    } else {
        None
    }
}

/// The entry of a credential.
pub open spec fn entry_of<S: MatcherStore>(
    store: S,
    cred: RefModel<S>,
    query_id: Text,
    claims: Seq<ClaimModel>,
    data: Seq<TransactionDataModel>,
    request_indices: Seq<usize>,
    bound: Seq<int>,
) -> EntryModel {
    let display = payment_display(store, cred, data, bound);
    let displayed = match display {
        Some(display) => Some(display.1),
        None => None,
    };
    let metadata = metadata_text(
        query_id,
        store.id_of(cred),
        told(request_indices, bound, displayed),
    );
    let fields = shown_fields(store, cred, claims);
    match display {
        Some((summary, _)) => EntryModel::Payment(
            PaymentEntryModel {
                cred_id: store.id_of(cred),
                merchant_name: summary.merchant_name,
                transaction_amount: summary.transaction_amount,
                payment_method_name: store.title_of(cred),
                payment_method_subtitle: store.subtitle_of(cred),
                payment_method_icon: store.icon_of(cred),
                additional_info: summary.additional_info,
                metadata,
                fields,
            },
        ),
        None => EntryModel::StringId(
            StringIdEntryModel {
                cred_id: store.id_of(cred),
                title: store.title_of(cred),
                icon: store.icon_of(cred),
                subtitle: store.subtitle_of(cred),
                disclaimer: store.disclaimer_of(cred),
                warning: store.warning_of(cred),
                metadata,
                fields,
            },
        ),
    }
}

/// The lines that are shown for the selected claims.
fn build_fields<S: MatcherStore>(
    store: &S,
    cred: &S::CredentialRef,
    context: &DcqlSelectionContext<'_>,
) -> (fields: Vec<Field>)
    ensures
        fields.deep_view() == shown_fields(
            *store,
            cred.deep_view(),
            context.selected_claims.deep_view(),
        ),
{
    let claims = context.selected_claims;
    let ghost all = claims.deep_view();
    let ghost keep = |claim: ClaimModel|
        !has_wildcard(claim.path) && store.label_of(cred.deep_view(), claim.path) is Some;
    let ghost image = |claim: ClaimModel|
        FieldModel {
            display_name: store.label_of(cred.deep_view(), claim.path)->0,
            display_value: store.value_of(cred.deep_view(), claim.path),
        };
    let mut fields: Vec<Field> = Vec::new();
    assert(fields.deep_view() =~= all.take(0).filter(keep).map_values(image));
    let mut i: usize = 0;
    while i < claims.len()
        invariant
            i <= claims.len(),
            claims == context.selected_claims,
            all == claims.deep_view(),
            keep == (|claim: ClaimModel|
                !has_wildcard(claim.path) && store.label_of(
                    cred.deep_view(),
                    claim.path,
                ) is Some),
            image == (|claim: ClaimModel|
                FieldModel {
                    display_name: store.label_of(cred.deep_view(), claim.path)->0,
                    display_value: store.value_of(cred.deep_view(), claim.path),
                }),
            fields.deep_view() == all.take(i as int).filter(keep).map_values(image),
        decreases claims.len() - i,
    {
        let claim = &claims[i];
        proof {
            assert(all[i as int] == claim.deep_view());
            lemma_filter_step(all, keep, i as int);
        }
        i = i + 1;
        if path_has_wildcard(&claim.path) {
            continue;
        }
        let label = match store.get_credential_field_label(cred, &claim.path) {
            Some(label) => label,
            None => continue,
        };
        let value = store.get_credential_field_value(cred, &claim.path);
        let field = Field { display_name: label, display_value: value };
        let ghost before = fields.deep_view();
        let ghost kept = all.take(i - 1).filter(keep);
        let ghost model = field.deep_view();
        fields.push(field);
        proof {
            assert(model == image(claim.deep_view()));
            assert(fields.deep_view() =~= before.push(model));
            assert(kept.push(claim.deep_view()).map_values(image) =~= kept.map_values(image).push(
                model,
            ));
        }
    }
    proof {
        lemma_take_all(all);
    }
    fields
}

/// Builds the entry of `cred`.
pub fn build_entry<S: MatcherStore>(
    store: &S,
    cred: &S::CredentialRef,
    context: &DcqlSelectionContext<'_>,
) -> (entry: CredentialEntry)
    ensures
        entry.deep_view() == entry_of(
            *store,
            cred.deep_view(),
            context.query_id@,
            context.selected_claims.deep_view(),
            context.transaction_data.deep_view(),
            context.request_indices@,
            as_ints(context.transaction_data_indices@),
        ),
{
    let credential_id = store.credential_id(cred);
    let title = store.credential_title(cred);
    let icon = store.credential_icon(cred);
    let subtitle = store.credential_subtitle(cred);
    let display = build_display_for_context(store, cred, context);
    let fields = build_fields(store, cred, context);
    let bound = context.transaction_data_indices;
    let ghost ints = as_ints(bound@);
    let mut selected: Option<SelectedTransactionData> = None;
    assert(ints.len() == bound.len());
    if bound.len() > 0 {
        let first: usize = bound[0];
        assert(ints[0] == first);
        let displayed = match &display {
            Some(display) => display.displayed_transaction_data_index == first,
            None => false,
        };
        let index: usize = if first < context.request_indices.len() {
            context.request_indices[first]
        } else {
            first
        };
        selected = Some(SelectedTransactionData { index, displayed });
    }
    let metadata = build_metadata(context.query_id, credential_id.as_str(), selected);
    match display {
        Some(display) => {
            let summary = display.payment_summary;
            CredentialEntry::Payment(
                PaymentEntry {
                    cred_id: credential_id,
                    merchant_name: summary.merchant_name,
                    transaction_amount: summary.transaction_amount,
                    payment_method_name: title,
                    payment_method_subtitle: subtitle,
                    payment_method_icon: icon,
                    additional_info: summary.additional_info,
                    metadata,
                    fields,
                },
            )
        },
        None => CredentialEntry::StringId(
            StringIdEntry {
                cred_id: credential_id,
                title,
                icon,
                subtitle,
                disclaimer: store.credential_disclaimer(cred),
                warning: store.credential_warning(cred),
                metadata,
                fields,
            },
        ),
    }
}

/// Whether a credential is available for a protocol. The protocol of unsigned requests has two
/// names.
pub open spec fn available<S: MatcherStore>(store: S, cred: RefModel<S>, protocol: Text) -> bool {
    ||| store.is_available(cred, protocol)
    ||| protocol == PROTOCOL_OPENID4VP_V1_UNSIGNED@ && store.is_available(cred, PROTOCOL_OPENID4VP@)
    ||| protocol == PROTOCOL_OPENID4VP@ && store.is_available(
        cred,
        PROTOCOL_OPENID4VP_V1_UNSIGNED@,
    )
}

/// Whether `cred` is available for `protocol`.
pub fn supports_protocol<S: MatcherStore>(
    store: &S,
    cred: &S::CredentialRef,
    protocol: &str,
) -> (supports: bool)
    ensures
        supports == available(*store, cred.deep_view(), protocol@),
{
    if store.supports_protocol(cred, protocol) {
        return true;
    }
    if same_text(protocol, PROTOCOL_OPENID4VP_V1_UNSIGNED) {
        if store.supports_protocol(cred, PROTOCOL_OPENID4VP) {
            return true;
        }
    }
    if same_text(protocol, PROTOCOL_OPENID4VP) {
        return store.supports_protocol(cred, PROTOCOL_OPENID4VP_V1_UNSIGNED);
    }
    false
}

/// Id of the choice to present nothing.
pub open spec fn none_id(request_index: nat, set_index: nat, slot_index: nat) -> Text {
    "__none__:"@ + decimal(request_index) + seq![':'] + decimal(set_index) + seq![':'] + decimal(
        slot_index,
    )
}

/// The choice to present nothing.
pub open spec fn none_entry(
    request_index: nat,
    set_index: nat,
    slot_index: nat,
    dcql_id: Text,
) -> EntryModel {
    EntryModel::StringId(
        StringIdEntryModel {
            cred_id: none_id(request_index, set_index, slot_index),
            title: "No credential"@,
            icon: None,
            subtitle: None,
            disclaimer: None,
            warning: None,
            metadata: metadata_text(dcql_id, "__none__"@, None),
            fields: seq![
                FieldModel {
                    display_name: "No credential will be presented"@,
                    display_value: None,
                },
            ],
        },
    )
}

/// Builds the choice to present nothing.
pub fn build_none_entry(
    request_index: usize,
    set_index: usize,
    slot_index: usize,
    dcql_id: &str,
) -> (entry: CredentialEntry)
    ensures
        entry.deep_view() == none_entry(
            request_index as nat,
            set_index as nat,
            slot_index as nat,
            dcql_id@,
        ),
{
    let mut id = "__none__:".to_owned();
    id.append(decimal_text(request_index as u64).as_str());
    id.push(':');
    id.append(decimal_text(set_index as u64).as_str());
    id.push(':');
    id.append(decimal_text(slot_index as u64).as_str());
    proof {
        assert(id@ =~= none_id(request_index as nat, set_index as nat, slot_index as nat));
        reveal_strlit("__none__:");
        reveal_strlit("No credential");
        reveal_strlit("No credential will be presented");
        lemma_decimal_nul_free(request_index as nat);
        lemma_decimal_nul_free(set_index as nat);
        lemma_decimal_nul_free(slot_index as nat);
        let colon = seq![':'];
        let a = "__none__:"@ + decimal(request_index as nat);
        lemma_nul_free_add("__none__:"@, decimal(request_index as nat));
        lemma_nul_free_add(a, colon);
        lemma_nul_free_add(a + colon, decimal(set_index as nat));
        lemma_nul_free_add(a + colon + decimal(set_index as nat), colon);
        lemma_nul_free_add(
            a + colon + decimal(set_index as nat) + colon,
            decimal(slot_index as nat),
        );
    }
    let field = Field {
        display_name: C8Text::of("No credential will be presented"),
        display_value: None,
    };
    let ghost model = field.deep_view();
    let fields = vec![field];
    assert(fields.deep_view() =~= seq![model]);
    CredentialEntry::StringId(
        StringIdEntry {
            cred_id: C8Text::of(id.as_str()),
            title: C8Text::of("No credential"),
            icon: None,
            subtitle: None,
            disclaimer: None,
            warning: None,
            metadata: build_metadata(dcql_id, "__none__", None),
            fields,
        },
    )
}

/// Id of a set. NULs in the name of the protocol are dropped.
pub open spec fn set_id(protocol: Text, request_index: nat, set_index: nat) -> Text {
    without_nul(protocol) + seq![':'] + decimal(request_index) + ":dcql:"@ + decimal(set_index)
}

/// Builds the id of a set.
pub fn set_id_for_dcql(protocol: &str, request_index: usize, set_index: usize) -> (id: C8Text)
    ensures
        id@ == set_id(protocol@, request_index as nat, set_index as nat),
{
    let mut id = strip_nul(protocol);
    let ghost name = id@;
    id.push(':');
    id.append(decimal_text(request_index as u64).as_str());
    id.append(":dcql:");
    id.append(decimal_text(set_index as u64).as_str());
    proof {
        assert(id@ =~= set_id(protocol@, request_index as nat, set_index as nat));
        reveal_strlit(":dcql:");
        lemma_decimal_nul_free(request_index as nat);
        lemma_decimal_nul_free(set_index as nat);
        let colon = seq![':'];
        lemma_nul_free_add(name, colon);
        lemma_nul_free_add(name + colon, decimal(request_index as nat));
        lemma_nul_free_add(name + colon + decimal(request_index as nat), ":dcql:"@);
        lemma_nul_free_add(
            name + colon + decimal(request_index as nat) + ":dcql:"@,
            decimal(set_index as nat),
        );
    }
    C8Text::of(id.as_str())
}

/// Where an entry stands, and what it needs to know of the request.
pub struct EntryPlace {
    pub protocol: Text,
    pub request_index: nat,
    pub set_index: nat,
    pub slot_index: nat,
    pub data: Seq<TransactionDataModel>,
    pub request_indices: Seq<usize>,
}

/// The entry of a selection, if the credential is available.
pub open spec fn selection_entry<S: MatcherStore>(
    store: S,
    place: EntryPlace,
    selection: SelectionModel<RefModel<S>>,
) -> Option<EntryModel> {
    match selection.credential_id {
        None => Some(
            none_entry(place.request_index, place.set_index, place.slot_index, selection.dcql_id),
        ),
        Some(cred) => if available(store, cred, place.protocol) {
            Some(
                entry_of(
                    store,
                    cred,
                    selection.dcql_id,
                    selection.selected_claims,
                    place.data,
                    place.request_indices,
                    selection.transaction_data_ids,
                ),
            )
        } else {
            None
        },
    }
}

/// The entries of a slot.
pub open spec fn slot_entries<S: MatcherStore>(
    store: S,
    place: EntryPlace,
    slot: Seq<SelectionModel<RefModel<S>>>,
) -> Seq<EntryModel> {
    slot.flat_map(
        |selection: SelectionModel<RefModel<S>>|
            match selection_entry(store, place, selection) {
                Some(entry) => seq![entry],
                None => Seq::empty(),
            },
    )
}

/// The slots of a set, each at its place; slots without entries are left out.
pub open spec fn set_slots<S: MatcherStore>(
    store: S,
    place: EntryPlace,
    slots: Seq<Seq<SelectionModel<RefModel<S>>>>,
) -> Seq<Seq<EntryModel>>
    decreases slots.len(),
{
    if slots.len() == 0 {
        Seq::empty()
    } else {
        let earlier = set_slots(store, place, slots.drop_last());
        let at = EntryPlace { slot_index: (slots.len() - 1) as nat, ..place };
        let entries = slot_entries(store, at, slots.last());
        if entries.len() == 0 {
            earlier
        } else {
            earlier.push(entries)
        }
    }
}

/// A presentation set as it is handed to the host.
pub open spec fn presented_set<S: MatcherStore>(
    store: S,
    place: EntryPlace,
    slots: Seq<Seq<SelectionModel<RefModel<S>>>>,
) -> SetModel {
    SetModel {
        set_id: set_id(place.protocol, place.request_index, place.set_index),
        slots: set_slots(store, place, slots),
    }
}

/// What the entries of a request have in common.
pub struct SetContext<'a> {
    /// Protocol of the request.
    pub protocol: &'a str,
    /// Index of the request.
    pub request_index: usize,
    /// Transaction data of the request.
    pub transaction_data: &'a [TransactionData],
    /// For each transaction data its index in the request.
    pub request_indices: &'a [usize],
}

impl<'a> SetContext<'a> {
    /// The place of entries in a slot of a set.
    pub open spec fn place(&self, set_index: nat, slot_index: nat) -> EntryPlace {
        EntryPlace {
            protocol: self.protocol@,
            request_index: self.request_index as nat,
            set_index,
            slot_index,
            data: self.transaction_data.deep_view(),
            request_indices: self.request_indices@,
        }
    }
}

/// The entry of `selection`, if the credential is available.
fn entry_for_selection<S: MatcherStore>(
    store: &S,
    context: &SetContext<'_>,
    set_index: usize,
    slot_index: usize,
    selection: &CredentialSelection<S::CredentialRef>,
) -> (entry: Option<CredentialEntry>)
    ensures
        entry.deep_view() == selection_entry(
            *store,
            context.place(set_index as nat, slot_index as nat),
            selection.deep_view(),
        ),
{
    let cred = match &selection.credential_id {
        Some(cred) => cred,
        None => return Some(
            build_none_entry(
                context.request_index,
                set_index,
                slot_index,
                selection.dcql_id.as_str(),
            ),
        ),
    };
    if !supports_protocol(store, cred, context.protocol) {
        return None;
    }
    let selected = DcqlSelectionContext {
        query_id: selection.dcql_id.as_str(),
        selected_claims: selection.selected_claims.as_slice(),
        transaction_data: context.transaction_data,
        request_indices: context.request_indices,
        transaction_data_indices: selection.transaction_data_ids.as_slice(),
    };
    Some(build_entry(store, cred, &selected))
}

/// The entries of a slot.
fn entries_for_slot<S: MatcherStore>(
    store: &S,
    context: &SetContext<'_>,
    set_index: usize,
    slot_index: usize,
    slot: &SetAlternative<S::CredentialRef>,
) -> (entries: Vec<CredentialEntry>)
    ensures
        entries.deep_view() == slot_entries(
            *store,
            context.place(set_index as nat, slot_index as nat),
            slot.deep_view(),
        ),
{
    let ghost place = context.place(set_index as nat, slot_index as nat);
    let ghost all = slot.deep_view();
    let ghost image = |selection: SelectionModel<RefModel<S>>|
        match selection_entry(*store, place, selection) {
            Some(entry) => seq![entry],
            None => Seq::empty(),
        };
    let mut entries: Vec<CredentialEntry> = Vec::new();
    proof {
        lemma_flat_map_empty(all.take(0), image);
        assert(entries.deep_view() =~= all.take(0).flat_map(image));
    }
    let mut i: usize = 0;
    while i < slot.alternatives.len()
        invariant
            i <= slot.alternatives.len(),
            place == context.place(set_index as nat, slot_index as nat),
            all == slot.deep_view(),
            image == (|selection: SelectionModel<RefModel<S>>|
                match selection_entry(*store, place, selection) {
                    Some(entry) => seq![entry],
                    None => Seq::empty(),
                }),
            entries.deep_view() == all.take(i as int).flat_map(image),
        decreases slot.alternatives.len() - i,
    {
        let selection = &slot.alternatives[i];
        let ghost before = entries.deep_view();
        proof {
            assert(all[i as int] == selection.deep_view());
            lemma_flat_map_step(all, image, i as int);
        }
        match entry_for_selection(store, context, set_index, slot_index, selection) {
            Some(entry) => {
                let ghost model = entry.deep_view();
                entries.push(entry);
                assert(entries.deep_view() =~= before + seq![model]);
            },
            None => {
                assert(entries.deep_view() =~= before + Seq::empty());
            },
        }
        i = i + 1;
    }
    proof {
        lemma_take_all(all);
    }
    entries
}

/// Builds the set for a presentation set.
pub fn set_from_dcql_presentation_set<S: MatcherStore>(
    store: &S,
    context: &SetContext<'_>,
    set_index: usize,
    slots: &Vec<SetAlternative<S::CredentialRef>>,
) -> (set: CredentialSet)
    ensures
        set.deep_view() == presented_set(
            *store,
            context.place(set_index as nat, 0),
            slots.deep_view(),
        ),
{
    let ghost place = context.place(set_index as nat, 0);
    let ghost all = slots.deep_view();
    let mut built: Vec<CredentialSlot> = Vec::new();
    let mut i: usize = 0;
    proof {
        assert(all.take(0) =~= Seq::<Seq<SelectionModel<RefModel<S>>>>::empty());
        assert(built.deep_view() =~= set_slots(*store, place, all.take(0)));
    }
    while i < slots.len()
        invariant
            i <= slots.len(),
            place == context.place(set_index as nat, 0),
            all == slots.deep_view(),
            built.deep_view() == set_slots(*store, place, all.take(i as int)),
        decreases slots.len() - i,
    {
        let entries = entries_for_slot(store, context, set_index, i, &slots[i]);
        let ghost before = built.deep_view();
        let ghost models = entries.deep_view();
        proof {
            assert(all[i as int] == slots@[i as int].deep_view());
            assert(all.take(i + 1).drop_last() =~= all.take(i as int));
            assert(all.take(i + 1).last() == all[i as int]);
            assert(models.len() == entries.len());
        }
        if !entries.is_empty() {
            built.push(CredentialSlot { alternatives: entries });
            assert(built.deep_view() =~= before.push(models));
        }
        i = i + 1;
    }
    proof {
        lemma_take_all(all);
    }
    CredentialSet {
        set_id: set_id_for_dcql(context.protocol, context.request_index, set_index),
        slots: built,
    }
}

} // verus!
