//! What holds of what a user can choose for a credential query.

use crate::laws::claims::{is_asked_for, is_first_with_id, lemma_candidates_are_what_is_asked_for};
use crate::laws::claims::lemma_ids_stand_for_the_first_query;
use crate::laws::listings::{ascends, lemma_filtering_keeps_the_order, lemma_the_first_is_found};
use crate::models::{ClaimModel, CredentialQueryModel, MetaModel, TransactionDataModel};
use crate::planner::constraints::{generic_indices, ts12_indices, usable};
use crate::planner::error::PlanErrorModel;
use crate::planner::index::query_table;
use crate::planner::matching::{candidates, query_matches, QueryMatchesModel};
use crate::planner::options::{default_options, CredentialSetOptionMode};
use crate::planner::options::{OptionalCredentialSetsMode, PlanOptionsModel};
use crate::planner::selections::{selections, ts12_choice, ts12_naming};
use crate::planner::selections::Ts12SelectionModel;
use crate::planner::transactions::matched_ids;
use crate::seqs::indices_where;
use crate::store::{CredentialFormat, CredentialStore, RefModel};
use crate::text::Text;
use vstd::prelude::*;

verus! {

/// Whether a text begins with another, which is not empty.
pub open spec fn begins_with(text: Text, start: Text) -> bool {
    start.len() > 0 && start.len() <= text.len() && forall|i: int|
        0 <= i < start.len() ==> #[trigger] text[i] == start[i]
}

/// Transaction data is TS12 data exactly where its type begins with one of the prefixes.
pub proof fn lemma_ts12_types(options: PlanOptionsModel, data_type: Text)
    ensures
        options.is_ts12(data_type) <==> exists|i: int|
            0 <= i < options.ts12_prefixes.len() && begins_with(
                data_type,
                #[trigger] options.ts12_prefixes[i],
            ),
{
    assert forall|start: Text|
        begins_with(data_type, start) <==> start.len() > 0 && #[trigger] start.is_prefix_of(
            data_type,
        ) by {
        if start.is_prefix_of(data_type) {
            assert forall|i: int| 0 <= i < start.len() implies #[trigger] data_type[i]
                == start[i] by {
                assert(data_type.subrange(0, start.len() as int)[i] == start[i]);
            }
        }
        if begins_with(data_type, start) {
            assert(start =~= data_type.subrange(0, start.len() as int));
        }
    }
    if options.is_ts12(data_type) {
        let i = choose|i: int|
            0 <= i < options.ts12_prefixes.len() && (#[trigger] options.ts12_prefixes[i]).len() > 0
                && options.ts12_prefixes[i].is_prefix_of(data_type);
        assert(begins_with(data_type, options.ts12_prefixes[i]));
    }
    if exists|i: int|
        0 <= i < options.ts12_prefixes.len() && begins_with(
            data_type,
            #[trigger] options.ts12_prefixes[i],
        ) {
        let i = choose|i: int|
            0 <= i < options.ts12_prefixes.len() && begins_with(
                data_type,
                #[trigger] options.ts12_prefixes[i],
            );
        assert(options.ts12_prefixes[i].is_prefix_of(data_type));
    }
}

/// Where nothing else is configured, all options of credential sets are offered, optional sets are
/// preferred present, and data of the types that begin with `urn:eudi:sca:` is TS12 data.
pub proof fn lemma_options_by_default(data_type: Text)
    ensures
        default_options().credential_set_option_mode == CredentialSetOptionMode::AllSatisfiable,
        default_options().optional_credential_sets_mode
            == OptionalCredentialSetsMode::PreferPresent,
        default_options().is_ts12(data_type) <==> begins_with(data_type, "urn:eudi:sca:"@),
{
    let options = default_options();
    lemma_ts12_types(options, data_type);
    assert(options.ts12_prefixes[0] == "urn:eudi:sca:"@);
}

/// Whether a credential query is for credentials that can authorize transactions: all but SD-JWT
/// credentials that need not be bound to their holder.
pub open spec fn is_for_authorization(query: CredentialQueryModel) -> bool {
    match query {
        CredentialQueryModel::MsoMdoc { .. } => true,
        CredentialQueryModel::DcSdJwt { common, .. } => common.require_cryptographic_holder_binding
            != Some(false),
        CredentialQueryModel::Unknown => false,
    }
}

/// Whether transaction data names the id of a credential query that is for credentials that can
/// authorize transactions. Of the queries that share an id, the first counts.
pub open spec fn names_a_query(
    credentials: Seq<CredentialQueryModel>,
    data: TransactionDataModel,
) -> bool {
    exists|k: int, i: int|
        0 <= k < data.credential_ids.len() && #[trigger] is_first_with_id(
            credentials,
            i,
            data.credential_ids[k],
        ) && is_for_authorization(credentials[i])
}

proof fn lemma_first_is_unique(credentials: Seq<CredentialQueryModel>, i: int, j: int, id: Text)
    requires
        is_first_with_id(credentials, i, id),
        is_first_with_id(credentials, j, id),
    ensures
        i == j,
{
}

/// Transaction data can be used exactly where it names the id of a credential query that is for
/// credentials that can authorize transactions.
pub proof fn lemma_usable_transaction_data(
    credentials: Seq<CredentialQueryModel>,
    data: TransactionDataModel,
)
    ensures
        usable(query_table(credentials), data) <==> names_a_query(credentials, data),
{
    let table = query_table(credentials);
    if usable(table, data) {
        let k = choose|k: int|
            0 <= k < data.credential_ids.len() && table.is_target(
                #[trigger] data.credential_ids[k],
            );
        let id = data.credential_ids[k];
        lemma_ids_stand_for_the_first_query(credentials, id);
        let i = choose|i: int| #[trigger]
            is_first_with_id(credentials, i, id) && table.queries[id] == credentials[i];
        assert(is_first_with_id(credentials, i, data.credential_ids[k]));
        assert(is_for_authorization(credentials[i]));
    }
    if names_a_query(credentials, data) {
        let (k, i) = choose|k: int, i: int|
            0 <= k < data.credential_ids.len() && #[trigger] is_first_with_id(
                credentials,
                i,
                data.credential_ids[k],
            ) && is_for_authorization(credentials[i]);
        let id = data.credential_ids[k];
        lemma_ids_stand_for_the_first_query(credentials, id);
        assert(table.queries.contains_key(id));
        let j = choose|j: int| #[trigger]
            is_first_with_id(credentials, j, id) && table.queries[id] == credentials[j];
        lemma_first_is_unique(credentials, i, j, id);
        assert(table.is_target(data.credential_ids[k]));
    }
}

proof fn lemma_indices(bound: nat, wanted: spec_fn(int) -> bool) -> (at: Seq<int>)
    ensures
        at == indices_where(bound, wanted),
        ascends(at, bound),
        forall|i: int| 0 <= i < bound ==> (#[trigger] at.contains(i) <==> wanted(i)),
{
    let all = Seq::new(bound, |i: int| i);
    let at = lemma_filtering_keeps_the_order(all, wanted);
    assert(indices_where(bound, wanted) =~= at) by {
        assert forall|k: int| 0 <= k < at.len() implies indices_where(bound, wanted)[k]
            == at[k] by {
            assert(all.filter(wanted)[k] == all[at[k]]);
        }
    }
    assert forall|i: int| 0 <= i < bound implies (#[trigger] at.contains(i) <==> wanted(i)) by {
        assert(all[i] == i);
    }
    at
}

/// Transaction data that can be used is TS12 data or has to be bound to one credential, as its type
/// says, and never both. Data that cannot be used is neither.
pub proof fn lemma_kinds_of_transaction_data(
    credentials: Seq<CredentialQueryModel>,
    data: Seq<TransactionDataModel>,
    options: PlanOptionsModel,
    i: int,
)
    requires
        0 <= i < data.len(),
    ensures
        ts12_indices(query_table(credentials), data, options).contains(i) <==> names_a_query(
            credentials,
            data[i],
        ) && options.is_ts12(data[i].data_type),
        generic_indices(query_table(credentials), data, options).contains(i) <==> names_a_query(
            credentials,
            data[i],
        ) && !options.is_ts12(data[i].data_type),
        ascends(ts12_indices(query_table(credentials), data, options), data.len()),
        ascends(generic_indices(query_table(credentials), data, options), data.len()),
{
    let table = query_table(credentials);
    lemma_usable_transaction_data(credentials, data[i]);
    lemma_indices(
        data.len(),
        |i: int| usable(table, data[i]) && options.is_ts12(data[i].data_type),
    );
    lemma_indices(
        data.len(),
        |i: int| usable(table, data[i]) && !options.is_ts12(data[i].data_type),
    );
}

/// Whether the transaction at a place of the listing is TS12 data that names a credential query.
pub open spec fn asks_for_signature(
    options: PlanOptionsModel,
    id: Text,
    data: Seq<TransactionDataModel>,
    indices: Seq<int>,
    k: int,
) -> bool {
    &&& 0 <= k < indices.len()
    &&& options.is_ts12(data[indices[k]].data_type)
    &&& exists|j: int|
        0 <= j < data[indices[k]].credential_ids.len()
            && #[trigger] data[indices[k]].credential_ids[j] == id
}

/// Of the TS12 data that names its credential query, a credential authorizes the first that it can.
/// It is incompatible where it can authorize none of them, and untargeted where there is none.
pub proof fn lemma_the_first_signable_transaction_is_chosen<S: CredentialStore>(
    store: S,
    options: PlanOptionsModel,
    id: Text,
    cred: RefModel<S>,
    data: Seq<TransactionDataModel>,
    indices: Seq<int>,
)
    ensures
        match ts12_choice(store, options, id, cred, data, indices) {
            Ts12SelectionModel::Selected(index) => exists|k: int|
                #![trigger indices[k]]
                asks_for_signature(options, id, data, indices, k) && index == indices[k]
                    && store.can_sign(cred, data[indices[k]]) && forall|j: int|
                    0 <= j < k && asks_for_signature(options, id, data, indices, j)
                        ==> !store.can_sign(cred, data[#[trigger] indices[j]]),
            Ts12SelectionModel::Incompatible => {
                &&& exists|k: int| #[trigger] asks_for_signature(options, id, data, indices, k)
                &&& forall|k: int| #[trigger]
                    asks_for_signature(options, id, data, indices, k) ==> !store.can_sign(
                        cred,
                        data[indices[k]],
                    )
            },
            Ts12SelectionModel::Untargeted => forall|k: int|
                !#[trigger] asks_for_signature(options, id, data, indices, k),
        },
{
    let wanted = |i: int|
        options.is_ts12(data[i].data_type) && data[i].credential_ids.contains(id);
    let can = |i: int| store.can_sign(cred, data[i]);
    let naming = ts12_naming(options, id, data, indices);
    assert(naming == indices.filter(wanted));
    let at = lemma_filtering_keeps_the_order(indices, wanted);
    lemma_the_first_is_found(naming, can);
    assert forall|k: int| #[trigger]
        asks_for_signature(options, id, data, indices, k) <==> 0 <= k < indices.len()
            && at.contains(k) by {
        if 0 <= k < indices.len() {
            assert(at.contains(k) <==> wanted(indices[k]));
            let ids = data[indices[k]].credential_ids;
            if ids.contains(id) {
                let j = choose|j: int| 0 <= j < ids.len() && ids[j] == id;
                assert(data[indices[k]].credential_ids[j] == id);
            }
        }
    }
    match crate::seqs::first_where(naming, can) {
        Some(n) => {
            let k = at[n];
            assert(at.contains(k));
            assert(naming[n] == indices[k]);
            assert(asks_for_signature(options, id, data, indices, k));
            assert forall|j: int|
                0 <= j < k && asks_for_signature(options, id, data, indices, j) implies !store.can_sign(
            cred, data[#[trigger] indices[j]]) by {
                let m = choose|m: int| 0 <= m < at.len() && at[m] == j;
                if m >= n {
                    assert(m == n || at[n] < at[m]);
                }
                assert(naming[m] == indices[j]);
                assert(!can(naming[m]));
            }
            assert(can(naming[n]));
            assert(indices[k] == naming[n]);
        },
        None => {
            assert forall|k: int| #[trigger]
                asks_for_signature(options, id, data, indices, k) implies !store.can_sign(
                cred,
                data[indices[k]],
            ) by {
                let m = choose|m: int| 0 <= m < at.len() && at[m] == k;
                assert(naming[m] == indices[k]);
                assert(!can(naming[m]));
            }
            if naming.len() > 0 {
                assert(at.contains(at[0]));
                assert(asks_for_signature(options, id, data, indices, at[0]));
            } else {
                assert forall|k: int| !#[trigger] asks_for_signature(
                    options,
                    id,
                    data,
                    indices,
                    k,
                ) by {
                    if asks_for_signature(options, id, data, indices, k) {
                        let m = choose|m: int| 0 <= m < at.len() && at[m] == k;
                        assert(0 <= m < naming.len());
                    }
                }
            }
        },
    }
}

/// Every credential that no TS12 data rules out can be chosen, in order. What is chosen names its
/// query, its credential and its claims, and lists in order the transaction data that is bound to
/// its query and the TS12 data that the credential authorizes.
pub proof fn lemma_choices_of_a_query<S: CredentialStore>(
    store: S,
    options: PlanOptionsModel,
    data: Seq<TransactionDataModel>,
    indices: Seq<int>,
    bindings: Seq<Option<Text>>,
    id: Text,
    claims: Seq<ClaimModel>,
    creds: Seq<RefModel<S>>,
) -> (at: Seq<int>)
    ensures
        ({
            let found = selections(store, options, data, indices, bindings, id, claims, creds);
            &&& at.len() == found.len()
            &&& ascends(at, creds.len())
            &&& forall|i: int|
                0 <= i < creds.len() ==> (#[trigger] at.contains(i) <==> !(ts12_choice(
                    store,
                    options,
                    id,
                    creds[i],
                    data,
                    indices,
                ) is Incompatible))
            &&& forall|k: int|
                #![trigger found[k]]
                0 <= k < at.len() ==> {
                    &&& found[k].dcql_id == id
                    &&& found[k].credential_id == Some(creds[at[k]])
                    &&& found[k].selected_claims == claims
                    &&& ascends(found[k].transaction_data_ids, bindings.len())
                    &&& forall|i: int|
                        0 <= i < bindings.len() ==> (
                        #[trigger] found[k].transaction_data_ids.contains(i) <==> bindings[i]
                            == Some(id) || ts12_choice(
                            store,
                            options,
                            id,
                            creds[at[k]],
                            data,
                            indices,
                        ) == Ts12SelectionModel::Selected(i))
                }
        }),
{
    let found = selections(store, options, data, indices, bindings, id, claims, creds);
    let keep = |cred: RefModel<S>|
        ts12_choice(store, options, id, cred, data, indices) != Ts12SelectionModel::Incompatible;
    let at = lemma_filtering_keeps_the_order(creds, keep);
    let kept = creds.filter(keep);
    assert forall|i: int| 0 <= i < creds.len() implies (#[trigger] at.contains(i) <==> !(
    ts12_choice(store, options, id, creds[i], data, indices) is Incompatible)) by {
        assert(at.contains(i) <==> keep(creds[i]));
    }
    assert forall|k: int| #![trigger found[k]] 0 <= k < at.len() implies {
        &&& found[k].dcql_id == id
        &&& found[k].credential_id == Some(creds[at[k]])
        &&& found[k].selected_claims == claims
        &&& ascends(found[k].transaction_data_ids, bindings.len())
        &&& forall|i: int|
            0 <= i < bindings.len() ==> (#[trigger] found[k].transaction_data_ids.contains(i)
                <==> bindings[i] == Some(id) || ts12_choice(
                store,
                options,
                id,
                creds[at[k]],
                data,
                indices,
            ) == Ts12SelectionModel::Selected(i))
    } by {
        assert(kept[k] == creds[at[k]]);
        let choice = ts12_choice(store, options, id, kept[k], data, indices);
        lemma_indices(
            bindings.len(),
            |i: int| bindings[i] == Some(id) || choice == Ts12SelectionModel::Selected(i),
        );
    }
    at
}

/// Whether the first credential query of an id asks for a credential that the store has.
pub open spec fn is_matched<S: CredentialStore>(
    store: S,
    credentials: Seq<CredentialQueryModel>,
    id: Text,
) -> bool {
    exists|i: int, cred: RefModel<S>|
        #![trigger is_first_with_id(credentials, i, id), is_asked_for(store, credentials[i], cred)]
        is_first_with_id(credentials, i, id) && is_asked_for(store, credentials[i], cred)
}

/// A credential query counts as matched exactly where it asks for a credential that the store has.
pub proof fn lemma_matched_queries<S: CredentialStore>(
    store: S,
    credentials: Seq<CredentialQueryModel>,
    id: Text,
)
    ensures
        matched_ids(store, query_table(credentials)).contains(id) <==> is_matched(
            store,
            credentials,
            id,
        ),
{
    let table = query_table(credentials);
    lemma_ids_stand_for_the_first_query(credentials, id);
    if matched_ids(store, table).contains(id) {
        let i = choose|i: int| #[trigger]
            is_first_with_id(credentials, i, id) && table.queries[id] == credentials[i];
        let cred = candidates(store, credentials[i])[0];
        lemma_candidates_are_what_is_asked_for(store, credentials[i], cred);
        assert(is_asked_for(store, credentials[i], cred));
    }
    if is_matched(store, credentials, id) {
        let (i, cred) = choose|i: int, cred: RefModel<S>|
            #![trigger is_first_with_id(credentials, i, id),
                is_asked_for(store, credentials[i], cred)]
            is_first_with_id(credentials, i, id) && is_asked_for(store, credentials[i], cred);
        assert(table.queries.contains_key(id));
        let j = choose|j: int| #[trigger]
            is_first_with_id(credentials, j, id) && table.queries[id] == credentials[j];
        lemma_first_is_unique(credentials, i, j, id);
        lemma_candidates_are_what_is_asked_for(store, credentials[i], cred);
        assert(candidates(store, credentials[i]).contains(cred));
    }
}

/// What a credential query matches repeats what the query says. Several credentials are allowed
/// only where the query says so, and holder binding is required unless the query says otherwise.
/// A query of an unknown format matches nothing and is invalid.
pub proof fn lemma_matches_repeat_the_query<S: CredentialStore>(
    store: S,
    query: CredentialQueryModel,
)
    ensures
        match query {
            CredentialQueryModel::MsoMdoc { common, meta } => query_matches(
                store,
                query,
            ) matches Ok(found) && found.id == common.id && found.format
                == CredentialFormat::MsoMdoc && found.meta == MetaModel::IsoMdoc(meta)
                && found.multiple == (common.multiple matches Some(true))
                && found.require_holder_binding == !(
            common.require_cryptographic_holder_binding matches Some(false))
                && found.trusted_authorities == common.trusted_authorities
                && found.selected_claims.len() == 0,
            CredentialQueryModel::DcSdJwt { common, meta } => query_matches(
                store,
                query,
            ) matches Ok(found) && found.id == common.id && found.format
                == CredentialFormat::DcSdJwt && found.meta == MetaModel::SdJwtVc(meta)
                && found.multiple == (common.multiple matches Some(true))
                && found.require_holder_binding == !(
            common.require_cryptographic_holder_binding matches Some(false))
                && found.trusted_authorities == common.trusted_authorities
                && found.selected_claims.len() == 0,
            CredentialQueryModel::Unknown => query_matches(store, query) == Err::<
                QueryMatchesModel<RefModel<S>>,
                PlanErrorModel,
            >(
                PlanErrorModel::InvalidQuery(
                    "unsupported credential format in dcql_query.credentials entry"@,
                ),
            ),
        },
        forall|cred: RefModel<S>| #[trigger]
            is_asked_for(store, query, cred) <==> (query_matches(store, query) matches Ok(found)
                && found.credentials.contains(cred)),
{
    assert forall|cred: RefModel<S>| #[trigger]
        is_asked_for(store, query, cred) <==> (query_matches(store, query) matches Ok(found)
            && found.credentials.contains(cred)) by {
        lemma_candidates_are_what_is_asked_for(store, query, cred);
    }
}

} // verus!
