//! What holds of the entries that a host shows.

use crate::json::member;
use crate::laws::listings::{ascends, lemma_filtering_keeps_the_order};
use crate::matcher::entries::{available, entry_of, metadata_text, none_entry, payments};
use crate::matcher::entries::{presented_set, selection_entry, set_slots, shown_fields};
use crate::matcher::entries::{slot_entries, summary_at, EntryModel, EntryPlace, FieldModel};
use crate::matcher::entries::{CredentialEntry, CredentialSet, SelectedTransactionData};
use crate::matcher::store::{MatcherStore, SummaryModel};
use crate::models::{ClaimModel, TransactionDataModel};
use crate::path::PathModel;
use crate::planner::selections::SelectionModel;
use crate::seqs::{lemma_flat_map_empty, lemma_flat_map_step};
use crate::seqs::{lemma_push_contains, lemma_take_all};
use crate::store::RefModel;
use crate::text::{decimal, Text};
use vstd::prelude::*;

verus! {

/// The lines that are shown with an entry.
pub open spec fn lines(entry: EntryModel) -> Seq<FieldModel> {
    match entry {
        EntryModel::StringId(entry) => entry.fields,
        EntryModel::Payment(entry) => entry.fields,
    }
}

/// Whether a line is shown for a claim: its path has no wildcard, and the wallet has a name for it.
pub open spec fn has_line<S: MatcherStore>(store: S, cred: RefModel<S>, path: PathModel) -> bool {
    store.label_of(cred, path) is Some && forall|i: int|
        0 <= i < path.len() ==> !((#[trigger] path[i]) is Wildcard)
}

/// Payment or not, an entry shows a line for every selected claim that has one, in order, with the
/// name and the value that the wallet has for the claim. It shows no other lines.
pub proof fn lemma_lines_show_the_selected_claims<S: MatcherStore>(
    store: S,
    cred: RefModel<S>,
    query_id: Text,
    claims: Seq<ClaimModel>,
    data: Seq<TransactionDataModel>,
    request_indices: Seq<usize>,
    bound: Seq<int>,
) -> (at: Seq<int>)
    ensures
        ({
            let entry = entry_of(store, cred, query_id, claims, data, request_indices, bound);
            &&& at.len() == lines(entry).len()
            &&& ascends(at, claims.len())
            &&& forall|i: int|
                0 <= i < claims.len() ==> (#[trigger] at.contains(i) <==> has_line(
                    store,
                    cred,
                    claims[i].path,
                ))
            &&& forall|k: int|
                0 <= k < at.len() ==> store.label_of(cred, claims[at[k]].path) == Some(
                    (#[trigger] lines(entry)[k]).display_name,
                ) && store.value_of(cred, claims[at[k]].path) == lines(entry)[k].display_value
        }),
{
    let entry = entry_of(store, cred, query_id, claims, data, request_indices, bound);
    let keep = |claim: ClaimModel|
        !crate::path::has_wildcard(claim.path) && store.label_of(cred, claim.path) is Some;
    let at = lemma_filtering_keeps_the_order(claims, keep);
    let kept = claims.filter(keep);
    assert(lines(entry) == shown_fields(store, cred, claims));
    assert forall|i: int| 0 <= i < claims.len() implies (#[trigger] at.contains(i) <==> has_line(
        store,
        cred,
        claims[i].path,
    )) by {
        crate::laws::documents::lemma_wildcards(claims[i].path);
        assert(at.contains(i) <==> keep(claims[i]));
    }
    assert forall|k: int| 0 <= k < at.len() implies store.label_of(cred, claims[at[k]].path)
        == Some((#[trigger] lines(entry)[k]).display_name) && store.value_of(
        cred,
        claims[at[k]].path,
    ) == lines(entry)[k].display_value by {
        assert(kept[k] == claims[at[k]]);
        assert(at.contains(at[k]));
        assert(keep(claims[at[k]]));
    }
    at
}

/// The lines of an entry do not depend on the transaction data.
pub proof fn lemma_lines_do_not_depend_on_transaction_data<S: MatcherStore>(
    store: S,
    cred: RefModel<S>,
    query_id: Text,
    claims: Seq<ClaimModel>,
    data: Seq<TransactionDataModel>,
    request_indices: Seq<usize>,
    bound: Seq<int>,
    other_data: Seq<TransactionDataModel>,
    other_indices: Seq<usize>,
    other_bound: Seq<int>,
)
    ensures
        lines(entry_of(store, cred, query_id, claims, data, request_indices, bound)) == lines(
            entry_of(store, cred, query_id, claims, other_data, other_indices, other_bound),
        ),
{
}

/// Whether a wallet has this summary of a payment for a transaction: the transaction has a payload,
/// and the wallet has metadata of its type.
pub open spec fn is_summary<S: MatcherStore>(
    store: S,
    cred: RefModel<S>,
    transaction: TransactionDataModel,
    summary: SummaryModel,
) -> bool {
    member(transaction.extra, "payload"@) matches Some(payload) && (store.ts12_metadata_of(
        cred,
        transaction,
    ) matches Some(metadata) && metadata.data_type.data_type == transaction.data_type
        && store.ts12_summary_of(cred, transaction, payload, metadata) == Some(summary))
}

/// Whether the transaction at an index is a payment.
pub open spec fn is_payment<S: MatcherStore>(
    store: S,
    cred: RefModel<S>,
    data: Seq<TransactionDataModel>,
    index: int,
) -> bool {
    0 <= index < data.len() && exists|summary: SummaryModel| #[trigger]
        is_summary(store, cred, data[index], summary)
}

/// Whether exactly one of the transactions that are bound to an entry is a payment: the one at this
/// place.
pub open spec fn is_only_payment<S: MatcherStore>(
    store: S,
    cred: RefModel<S>,
    data: Seq<TransactionDataModel>,
    bound: Seq<int>,
    k: int,
) -> bool {
    &&& 0 <= k < bound.len()
    &&& is_payment(store, cred, data, bound[k])
    &&& forall|j: int|
        0 <= j < bound.len() && j != k ==> !is_payment(store, cred, data, #[trigger] bound[j])
}

proof fn lemma_summary<S: MatcherStore>(
    store: S,
    cred: RefModel<S>,
    data: Seq<TransactionDataModel>,
    index: int,
)
    ensures
        summary_at(store, cred, data, index) is Some <==> is_payment(store, cred, data, index),
        summary_at(store, cred, data, index) matches Some(summary) ==> is_summary(
            store,
            cred,
            data[index],
            summary,
        ),
        forall|summary: SummaryModel|
            0 <= index < data.len() && #[trigger] is_summary(store, cred, data[index], summary)
                ==> summary_at(store, cred, data, index) == Some(summary),
{
    if let Some(summary) = summary_at(store, cred, data, index) {
        assert(is_summary(store, cred, data[index], summary));
    }
}

/// An entry is shown as a payment exactly where one of the transactions that are bound to it is a
/// payment and no other is. It then shows that payment, beside what the wallet shows of the
/// credential; and its metadata tells of the first transaction that is bound to it, and that it is
/// displayed where it is the payment.
pub proof fn lemma_entries_show_the_credential<S: MatcherStore>(
    store: S,
    cred: RefModel<S>,
    query_id: Text,
    claims: Seq<ClaimModel>,
    data: Seq<TransactionDataModel>,
    request_indices: Seq<usize>,
    bound: Seq<int>,
)
    requires
        forall|k: int|
            0 <= k < bound.len() ==> 0 <= #[trigger] bound[k] <= usize::MAX,
    ensures
        ({
            let entry = entry_of(store, cred, query_id, claims, data, request_indices, bound);
            let metadata = |paid: bool|
                metadata_text(
                    query_id,
                    store.id_of(cred),
                    if bound.len() == 0 {
                        None
                    } else {
                        Some(
                            SelectedTransactionData {
                                index: if bound[0] < request_indices.len() {
                                    request_indices[bound[0]]
                                } else {
                                    bound[0] as usize
                                },
                                displayed: paid,
                            },
                        )
                    },
                );
            match entry {
                EntryModel::Payment(shown) => exists|k: int| #[trigger]
                    is_only_payment(store, cred, data, bound, k) && is_summary(
                        store,
                        cred,
                        data[bound[k]],
                        SummaryModel {
                            merchant_name: shown.merchant_name,
                            transaction_amount: shown.transaction_amount,
                            additional_info: shown.additional_info,
                        },
                    ) && shown.metadata == metadata(bound[0] == bound[k]) && shown.cred_id
                        == store.id_of(cred) && shown.payment_method_name == store.title_of(cred)
                        && shown.payment_method_subtitle == store.subtitle_of(cred)
                        && shown.payment_method_icon == store.icon_of(cred),
                EntryModel::StringId(shown) => {
                    &&& forall|k: int| !#[trigger] is_only_payment(store, cred, data, bound, k)
                    &&& shown.cred_id == store.id_of(cred)
                    &&& shown.title == store.title_of(cred)
                    &&& shown.icon == store.icon_of(cred)
                    &&& shown.subtitle == store.subtitle_of(cred)
                    &&& shown.disclaimer == store.disclaimer_of(cred)
                    &&& shown.warning == store.warning_of(cred)
                    &&& shown.metadata == metadata(false)
                },
            }
        }),
{
    let wanted = |i: int| summary_at(store, cred, data, i) is Some;
    let at = lemma_filtering_keeps_the_order(bound, wanted);
    let found = payments(store, cred, data, bound);
    assert(found == bound.filter(wanted));
    assert forall|k: int| 0 <= k < bound.len() implies (#[trigger] at.contains(k) <==> is_payment(
        store,
        cred,
        data,
        bound[k],
    )) by {
        lemma_summary(store, cred, data, bound[k]);
        assert(at.contains(k) <==> wanted(bound[k]));
    }
    if found.len() == 1 {
        let k = at[0];
        assert(at.contains(k));
        assert(found[0] == bound[k]);
        lemma_summary(store, cred, data, bound[k]);
        assert forall|j: int| 0 <= j < bound.len() && j != k implies !is_payment(
            store,
            cred,
            data,
            #[trigger] bound[j],
        ) by {
            if at.contains(j) {
                let p = choose|p: int| 0 <= p < at.len() && at[p] == j;
                assert(p == 0);
            }
        }
        assert(is_only_payment(store, cred, data, bound, k));
        let entry = entry_of(store, cred, query_id, claims, data, request_indices, bound);
        let shown = entry->Payment_0;
        let summary = summary_at(store, cred, data, bound[k])->0;
        assert(summary == SummaryModel {
            merchant_name: shown.merchant_name,
            transaction_amount: shown.transaction_amount,
            additional_info: shown.additional_info,
        });
    } else {
        assert forall|k: int| !#[trigger] is_only_payment(store, cred, data, bound, k) by {
            if is_only_payment(store, cred, data, bound, k) {
                assert(at.contains(k));
                let p = choose|p: int| 0 <= p < at.len() && at[p] == k;
                if at.len() > 1 {
                    let q: int = if p == 0 {
                        1
                    } else {
                        0
                    };
                    assert(at.contains(at[q]));
                    assert(at[0] < at[1]);
                    if p > 1 {
                        assert(at[0] < at[p]);
                    }
                    assert(at[q] != k);
                    assert(is_payment(store, cred, data, bound[at[q]]));
                }
            }
        }
    }
}

/// The choice to present nothing says so, is known by the request, the set and the slot that it is
/// in, and has metadata that names its credential query and no credential.
pub proof fn lemma_the_choice_to_present_nothing(
    request_index: nat,
    set_index: nat,
    slot_index: nat,
    dcql_id: Text,
)
    ensures
        none_entry(request_index, set_index, slot_index, dcql_id) matches EntryModel::StringId(shown)
            && shown.cred_id == "__none__:"@ + decimal(request_index) + ":"@ + decimal(set_index)
            + ":"@ + decimal(slot_index) && shown.title == "No credential"@ && shown.icon is None
            && shown.subtitle is None && shown.disclaimer is None && shown.warning is None
            && shown.metadata == metadata_text(dcql_id, "__none__"@, None) && shown.fields.len() == 1
            && shown.fields[0].display_name == "No credential will be presented"@
            && shown.fields[0].display_value is None,
{
    reveal_strlit(":");
    assert(":"@ =~= seq![':']);
}

/// A credential is available for a protocol where the wallet says so. The protocol of unsigned
/// requests has two names, and a credential that is available under one is under the other.
pub proof fn lemma_availability<S: MatcherStore>(store: S, cred: RefModel<S>, protocol: Text)
    ensures
        store.is_available(cred, protocol) ==> available(store, cred, protocol),
        available(store, cred, "openid4vp"@) == available(store, cred, "openid4vp-v1-unsigned"@),
        available(store, cred, "openid4vp"@) <==> store.is_available(cred, "openid4vp"@)
            || store.is_available(cred, "openid4vp-v1-unsigned"@),
        protocol != "openid4vp"@ && protocol != "openid4vp-v1-unsigned"@ ==> (available(
            store,
            cred,
            protocol,
        ) <==> store.is_available(cred, protocol)),
{
}

/// Whether a choice of a slot has an entry: it presents nothing, or a credential that is available.
pub open spec fn has_entry<S: MatcherStore>(
    store: S,
    protocol: Text,
    selection: SelectionModel<RefModel<S>>,
) -> bool {
    selection.credential_id matches Some(cred) ==> available(store, cred, protocol)
}

/// Whether an entry is that of a choice: that of its credential with the claims and the transaction
/// data of the choice, or that of presenting nothing.
pub open spec fn is_entry_of<S: MatcherStore>(
    store: S,
    place: EntryPlace,
    selection: SelectionModel<RefModel<S>>,
    entry: EntryModel,
) -> bool {
    match selection.credential_id {
        Some(cred) => entry == entry_of(
            store,
            cred,
            selection.dcql_id,
            selection.selected_claims,
            place.data,
            place.request_indices,
            selection.transaction_data_ids,
        ),
        None => entry == none_entry(
            place.request_index,
            place.set_index,
            place.slot_index,
            selection.dcql_id,
        ),
    }
}

/// The entries of a slot are those of its choices that have one, in order.
pub proof fn lemma_slots_show_their_choices<S: MatcherStore>(
    store: S,
    place: EntryPlace,
    slot: Seq<SelectionModel<RefModel<S>>>,
) -> (at: Seq<int>)
    ensures
        at.len() == slot_entries(store, place, slot).len(),
        ascends(at, slot.len()),
        forall|i: int|
            0 <= i < slot.len() ==> (#[trigger] at.contains(i) <==> has_entry(
                store,
                place.protocol,
                slot[i],
            )),
        forall|k: int|
            0 <= k < at.len() ==> is_entry_of(
                store,
                place,
                slot[at[k]],
                #[trigger] slot_entries(store, place, slot)[k],
            ),
    decreases slot.len(),
{
    let image = |selection: SelectionModel<RefModel<S>>|
        match selection_entry(store, place, selection) {
            Some(entry) => seq![entry],
            None => Seq::empty(),
        };
    let found = slot_entries(store, place, slot);
    if slot.len() == 0 {
        lemma_flat_map_empty(slot, image);
        Seq::empty()
    } else {
        let n = slot.len() - 1;
        let rest = slot.take(n);
        let before = lemma_slots_show_their_choices(store, place, rest);
        let earlier = slot_entries(store, place, rest);
        lemma_flat_map_step(slot, image, n);
        lemma_take_all(slot);
        assert(found == earlier + image(slot[n]));
        let at = if has_entry(store, place.protocol, slot[n]) {
            before.push(n)
        } else {
            before
        };
        assert forall|i: int| 0 <= i < slot.len() implies (#[trigger] at.contains(i) <==> has_entry(
            store,
            place.protocol,
            slot[i],
        )) by {
            lemma_push_contains(before, n, i);
            if i < n {
                assert(before.contains(i) <==> has_entry(store, place.protocol, rest[i]));
            } else if before.contains(i) {
                let k = choose|k: int| 0 <= k < before.len() && before[k] == i;
                assert(0 <= before[k] < rest.len());
            }
        }
        assert forall|k: int| 0 <= k < at.len() implies is_entry_of(
            store,
            place,
            slot[at[k]],
            #[trigger] found[k],
        ) by {
            if k < before.len() {
                assert(found[k] == earlier[k]);
                assert(rest[before[k]] == slot[at[k]]);
            }
        }
        at
    }
}

/// The place of a slot in the set that a place is in.
pub open spec fn slot_place(place: EntryPlace, slot_index: nat) -> EntryPlace {
    EntryPlace {
        protocol: place.protocol,
        request_index: place.request_index,
        set_index: place.set_index,
        slot_index,
        data: place.data,
        request_indices: place.request_indices,
    }
}

/// The slots of a set are those of the presentation set that have entries, in order. Each entry
/// knows the slot by its place in the presentation set.
pub proof fn lemma_sets_show_their_slots<S: MatcherStore>(
    store: S,
    place: EntryPlace,
    slots: Seq<Seq<SelectionModel<RefModel<S>>>>,
) -> (at: Seq<int>)
    ensures
        presented_set(store, place, slots).slots == set_slots(store, place, slots),
        at.len() == set_slots(store, place, slots).len(),
        ascends(at, slots.len()),
        forall|i: int|
            0 <= i < slots.len() ==> (#[trigger] at.contains(i) <==> exists|c: int|
                0 <= c < slots[i].len() && has_entry(
                    store,
                    place.protocol,
                    #[trigger] slots[i][c],
                )),
        forall|k: int|
            0 <= k < at.len() ==> #[trigger] set_slots(store, place, slots)[k] == slot_entries(
                store,
                slot_place(place, at[k] as nat),
                slots[at[k]],
            ),
    decreases slots.len(),
{
    if slots.len() == 0 {
        Seq::empty()
    } else {
        let n = slots.len() - 1;
        let rest = slots.drop_last();
        let before = lemma_sets_show_their_slots(store, place, rest);
        let own = slot_place(place, n as nat);
        assert(own == EntryPlace { slot_index: n as nat, ..place });
        let entries = slot_entries(store, own, slots[n]);
        let shown = lemma_slots_show_their_choices(store, own, slots[n]);
        assert(entries.len() > 0 <==> exists|c: int|
            0 <= c < slots[n].len() && has_entry(store, place.protocol, #[trigger] slots[n][c])) by {
            if entries.len() > 0 {
                assert(shown.contains(shown[0]));
                assert(has_entry(store, place.protocol, slots[n][shown[0]]));
            }
            if exists|c: int|
                0 <= c < slots[n].len() && has_entry(store, place.protocol, #[trigger] slots[n][c]) {
                let c = choose|c: int|
                    0 <= c < slots[n].len() && has_entry(
                        store,
                        place.protocol,
                        #[trigger] slots[n][c],
                    );
                assert(shown.contains(c));
            }
        }
        let at = if entries.len() > 0 {
            before.push(n)
        } else {
            before
        };
        assert forall|i: int| 0 <= i < slots.len() implies (#[trigger] at.contains(i) <==> exists|
            c: int,
        |
            0 <= c < slots[i].len() && has_entry(store, place.protocol, #[trigger] slots[i][c])) by {
            lemma_push_contains(before, n, i);
            if i < n {
                assert(rest[i] == slots[i]);
                assert(before.contains(i) <==> exists|c: int|
                    0 <= c < rest[i].len() && has_entry(
                        store,
                        place.protocol,
                        #[trigger] rest[i][c],
                    ));
            } else if before.contains(i) {
                let k = choose|k: int| 0 <= k < before.len() && before[k] == i;
                assert(0 <= before[k] < rest.len());
            }
        }
        assert forall|k: int| 0 <= k < at.len() implies #[trigger] set_slots(store, place, slots)[k]
            == slot_entries(store, slot_place(place, at[k] as nat), slots[at[k]]) by {
            if k < before.len() {
                assert(set_slots(store, place, rest)[k] == slot_entries(
                    store,
                    slot_place(place, before[k] as nat),
                    rest[before[k]],
                ));
                assert(rest[before[k]] == slots[at[k]]);
            }
        }
        at
    }
}

/// What is handed to the host as an entry holds what its model holds, member by member, and its
/// lines hold what their models hold, line by line.
pub proof fn lemma_members_of_entries(entry: CredentialEntry)
    ensures
        match entry {
            CredentialEntry::StringId(own) => entry.deep_view() matches EntryModel::StringId(shown)
                && own.cred_id@ == shown.cred_id && own.title@ == shown.title
                && own.icon.deep_view() == shown.icon && own.subtitle.deep_view() == shown.subtitle
                && own.disclaimer.deep_view() == shown.disclaimer && own.warning.deep_view()
                == shown.warning && own.metadata@ == shown.metadata,
            CredentialEntry::Payment(own) => entry.deep_view() matches EntryModel::Payment(shown)
                && own.cred_id@ == shown.cred_id && own.merchant_name@ == shown.merchant_name
                && own.transaction_amount@ == shown.transaction_amount && own.payment_method_name@
                == shown.payment_method_name && own.payment_method_subtitle.deep_view()
                == shown.payment_method_subtitle && own.payment_method_icon.deep_view()
                == shown.payment_method_icon && own.additional_info.deep_view()
                == shown.additional_info && own.metadata@ == shown.metadata,
        },
        ({
            let fields = match entry {
                CredentialEntry::StringId(own) => own.fields,
                CredentialEntry::Payment(own) => own.fields,
            };
            fields.len() == lines(entry.deep_view()).len() && forall|k: int|
                0 <= k < fields.len() ==> (#[trigger] fields@[k]).display_name@ == lines(
                    entry.deep_view(),
                )[k].display_name && fields@[k].display_value.deep_view() == lines(
                    entry.deep_view(),
                )[k].display_value
        }),
{
}

/// What is handed to the host as a set holds the id, and slot by slot the entries, of its model.
pub proof fn lemma_members_of_sets(set: CredentialSet)
    ensures
        set.deep_view().set_id == set.set_id@,
        set.deep_view().slots.len() == set.slots.len(),
        forall|t: int|
            0 <= t < set.slots.len() ==> set.deep_view().slots[t].len() == (
            #[trigger] set.slots@[t]).alternatives.len(),
        forall|t: int, c: int|
            0 <= t < set.slots.len() && 0 <= c < set.slots@[t].alternatives.len()
                ==> set.deep_view().slots[t][c] == (
            #[trigger] set.slots@[t].alternatives@[c]).deep_view(),
{
    assert forall|t: int| 0 <= t < set.slots.len() implies set.deep_view().slots[t].len() == (
    #[trigger] set.slots@[t]).alternatives.len() by {
        assert(set.deep_view().slots[t] == set.slots@[t].deep_view());
    }
    assert forall|t: int, c: int|
        0 <= t < set.slots.len() && 0 <= c < set.slots@[t].alternatives.len() implies set.deep_view().slots[t][c]
        == (#[trigger] set.slots@[t].alternatives@[c]).deep_view() by {
        assert(set.deep_view().slots[t] == set.slots@[t].deep_view());
    }
}

} // verus!
