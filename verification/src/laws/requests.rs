//! What holds of what comes of a request.

use crate::c8::without_nul;
use crate::json::{member, JsonModel, NumberModel};
use crate::laws::envelopes::{holds_data, lemma_transaction_data_is_kept};
use crate::matcher::config::OpenId4VpConfigModel;
use crate::matcher::engine::{item_outcome, place_of, request_data, request_outcome};
use crate::matcher::engine::{response, signed_outcome, ItemModel};
use crate::matcher::entries::{presented_set, selected_json, SelectedTransactionData, SetModel};
use crate::matcher::envelope::{compact_envelope, json_envelope};
use crate::matcher::error::{MatcherErrorModel, OpenId4VpErrorModel};
use crate::matcher::origins::{all_filled, expected_origins};
use crate::matcher::request::{EnvelopeModel, OpenId4VpRequestModel};
use crate::matcher::store::MatcherStore;
use crate::models::TransactionDataModel;
use crate::planner::options::PlanOptionsModel;
use crate::planner::plan::plan;
use crate::planner::selections::SelectionModel;
use crate::store::RefModel;
use crate::text::{decimal, Text};
use vstd::prelude::*;

verus! {

/// Whether one of the texts is this one.
pub open spec fn lists(texts: Seq<Text>, text: Text) -> bool {
    exists|i: int| 0 <= i < texts.len() && #[trigger] texts[i] == text
}

/// Whether a request holds transaction data that can be matched.
pub open spec fn has_data(request: OpenId4VpRequestModel) -> bool {
    request.transaction_data matches Some(inputs) && exists|i: int, data: TransactionDataModel|
        0 <= i < inputs.len() && #[trigger] holds_data(inputs[i], data)
}

/// Whether a wallet supports all that a request asks for: its response mode, which is `dc_api`
/// where it names none; its response type, where it names one; DCQL; and transaction data, where
/// it holds some that can be matched.
pub open spec fn is_supported(config: OpenId4VpConfigModel, request: OpenId4VpRequestModel) -> bool {
    &&& request.response_mode matches Some(mode) ==> lists(config.supported_response_modes, mode)
    &&& request.response_mode is None ==> lists(config.supported_response_modes, "dc_api"@)
    &&& request.response_type matches Some(named) ==> lists(config.supported_response_types, named)
    &&& lists(config.supported_query_methods, "dcql_query"@)
    &&& has_data(request) ==> lists(config.supported_request_parameters, "transaction_data"@)
}

proof fn lemma_lists(texts: Seq<Text>, text: Text)
    ensures
        texts.contains(text) <==> lists(texts, text),
{
}

proof fn lemma_has_data(request: OpenId4VpRequestModel)
    ensures
        request_data(request.transaction_data).0.len() > 0 <==> has_data(request),
{
    if let Some(inputs) = request.transaction_data {
        lemma_transaction_data_is_kept(inputs);
        let (data, indices) = request_data(request.transaction_data);
        if data.len() > 0 {
            assert(holds_data(inputs[indices[0]], data[0]));
        }
        if has_data(request) {
            let (i, own) = choose|i: int, own: TransactionDataModel|
                0 <= i < inputs.len() && #[trigger] holds_data(inputs[i], own);
            assert(indices.contains(i));
        }
    }
}

/// A request that has no DCQL query, or that asks for something that the wallet does not support,
/// gives nothing. Any other gives a set for every presentation set of the plan for its query and
/// its transaction data, nothing where the query is not satisfied, and the error of the plan where
/// there is another.
pub proof fn lemma_supported_requests_are_planned<S: MatcherStore>(
    store: S,
    config: OpenId4VpConfigModel,
    options: PlanOptionsModel,
    protocol: Text,
    request_index: nat,
    request: OpenId4VpRequestModel,
)
    ensures
        ({
            let outcome = request_outcome(
                store,
                config,
                options,
                protocol,
                request_index,
                request,
            );
            match request.dcql_query {
                None => outcome matches Ok(sets) && sets.len() == 0,
                Some(query) => if !is_supported(config, request) {
                    outcome matches Ok(sets) && sets.len() == 0
                } else {
                    match plan(
                        store,
                        query,
                        Some(request_data(request.transaction_data).0),
                        options,
                    ) {
                        Ok(output) => outcome matches Ok(sets) && sets.len() == output.len()
                            && forall|k: int|
                            0 <= k < sets.len() ==> #[trigger] sets[k] == presented_set(
                                store,
                                place_of(
                                    protocol,
                                    request_index,
                                    k as nat,
                                    request.transaction_data,
                                ),
                                output[k],
                            ),
                        Err(error) => if error is Unsatisfied {
                            outcome matches Ok(sets) && sets.len() == 0
                        } else {
                            outcome == Err::<Seq<SetModel>, MatcherErrorModel>(
                                MatcherErrorModel::Dcql(error),
                            )
                        },
                    }
                },
            }
        }),
{
    lemma_has_data(request);
    if let Some(mode) = request.response_mode {
        lemma_lists(config.supported_response_modes, mode);
    }
    if let Some(named) = request.response_type {
        lemma_lists(config.supported_response_types, named);
    }
    lemma_lists(config.supported_response_modes, "dc_api"@);
    lemma_lists(config.supported_query_methods, "dcql_query"@);
    lemma_lists(config.supported_request_parameters, "transaction_data"@);
}

/// A set knows its request by the protocol without NULs and the index, and its own index. Its
/// entries know the transaction data of the request, and for each the index that it has there.
pub proof fn lemma_places_of_sets<S: MatcherStore>(
    store: S,
    protocol: Text,
    request_index: nat,
    set_index: nat,
    request: OpenId4VpRequestModel,
    slots: Seq<Seq<SelectionModel<RefModel<S>>>>,
)
    ensures
        ({
            let place = place_of(protocol, request_index, set_index, request.transaction_data);
            &&& place.protocol == protocol
            &&& place.request_index == request_index
            &&& place.set_index == set_index
            &&& presented_set(store, place, slots).set_id == without_nul(protocol) + ":"@
                + decimal(request_index) + ":dcql:"@ + decimal(set_index)
            &&& request.transaction_data is None ==> place.data.len() == 0
            &&& request.transaction_data matches Some(inputs) ==> inputs.len() <= usize::MAX ==> (
            place.data.len() == place.request_indices.len() && forall|k: int|
                0 <= k < place.data.len() ==> place.request_indices[k] < inputs.len()
                    && holds_data(
                    inputs[place.request_indices[k] as int],
                    #[trigger] place.data[k],
                ))
        }),
{
    reveal_strlit(":");
    assert(":"@ =~= seq![':']);
    if let Some(inputs) = request.transaction_data {
        lemma_transaction_data_is_kept(inputs);
        let (data, indices) = request_data(request.transaction_data);
        let place = place_of(protocol, request_index, set_index, request.transaction_data);
        if inputs.len() <= usize::MAX {
            assert forall|k: int| 0 <= k < place.data.len() implies place.request_indices[k]
                < inputs.len() && holds_data(
                inputs[place.request_indices[k] as int],
                #[trigger] place.data[k],
            ) by {
                assert(0 <= indices[k] < inputs.len());
                assert(holds_data(inputs[indices[k]], data[k]));
            }
        }
    }
}

/// Whether a request names the origins that it is for: they are an array with an element, and all
/// elements are text that is not empty.
pub open spec fn names_origins(request: OpenId4VpRequestModel, origins: Seq<JsonModel>) -> bool {
    &&& member(request.extra, "expected_origins"@) == Some(JsonModel::Array(origins))
    &&& origins.len() > 0
    &&& forall|i: int|
        0 <= i < origins.len() ==> ((#[trigger] origins[i]) matches JsonModel::String(origin)
            && origin.len() > 0)
}

/// A signed request has to be verified, its payload has to be a request, and that request has to
/// name the origin of the caller among those that it is for. What comes of it is then what comes of
/// that request. Else the first of these that fails is reported.
pub proof fn lemma_signed_requests_are_for_the_caller<S: MatcherStore>(
    store: S,
    config: OpenId4VpConfigModel,
    options: PlanOptionsModel,
    origin: Text,
    protocol: Text,
    request_index: nat,
    envelope: EnvelopeModel,
    payload: Result<OpenId4VpRequestModel, Text>,
    origins: Seq<JsonModel>,
)
    requires
        payload matches Ok(request) ==> names_origins(request, origins) || forall|
            other: Seq<JsonModel>,
        |
            !#[trigger] names_origins(request, other),
    ensures
        ({
            let outcome = signed_outcome(
                store,
                config,
                options,
                origin,
                protocol,
                request_index,
                Ok(envelope),
                payload,
            );
            let fails = |fault: OpenId4VpErrorModel|
                outcome == Err::<Seq<SetModel>, MatcherErrorModel>(
                    MatcherErrorModel::InvalidOpenId4Vp(fault),
                );
            if !store.is_verified(protocol, envelope) {
                fails(OpenId4VpErrorModel::SignedRequestUnverified { protocol })
            } else {
                match payload {
                    Err(message) => fails(
                        OpenId4VpErrorModel::SignedPayloadNotSupported { protocol, message },
                    ),
                    Ok(request) => if !names_origins(request, origins) {
                        fails(OpenId4VpErrorModel::ExpectedOriginsMissing { protocol })
                    } else if origin.len() == 0 {
                        fails(OpenId4VpErrorModel::OriginMissing { protocol })
                    } else if exists|i: int|
                        0 <= i < origins.len() && #[trigger] origins[i] == JsonModel::String(
                            origin,
                        ) {
                        outcome == request_outcome(
                            store,
                            config,
                            options,
                            protocol,
                            request_index,
                            request,
                        )
                    } else {
                        fails(OpenId4VpErrorModel::OriginMismatch { protocol, origin })
                    },
                }
            }
        }),
{
    if let Ok(request) = payload {
        let expected = expected_origins(request);
        if names_origins(request, origins) {
            assert(all_filled(origins)) by {
                assert forall|i: int| 0 <= i < origins.len() implies match (
                #[trigger] origins[i]).as_text() {
                    Some(text) => text.len() > 0,
                    None => false,
                } by {
                    assert(origins[i] matches JsonModel::String(own) && own.len() > 0);
                }
            }
            let texts = expected->0;
            assert(texts.contains(origin) <==> exists|i: int|
                0 <= i < origins.len() && #[trigger] origins[i] == JsonModel::String(origin)) by {
                if texts.contains(origin) {
                    let i = choose|i: int| 0 <= i < texts.len() && texts[i] == origin;
                    assert(origins[i] matches JsonModel::String(own) && own.len() > 0);
                    assert(origins[i] == JsonModel::String(origin));
                }
                if exists|i: int|
                    0 <= i < origins.len() && #[trigger] origins[i] == JsonModel::String(origin) {
                    let i = choose|i: int|
                        0 <= i < origins.len() && #[trigger] origins[i] == JsonModel::String(
                            origin,
                        );
                    assert(texts[i] == origin);
                }
            }
        } else {
            if let Some(JsonModel::Array(items)) = member(request.extra, "expected_origins"@) {
                assert(!names_origins(request, items));
                if items.len() > 0 && all_filled(items) {
                    assert forall|i: int| 0 <= i < items.len() implies ((
                    #[trigger] items[i]) matches JsonModel::String(own) && own.len() > 0) by {
                        assert(items[i].as_text() is Some);
                    }
                    assert(names_origins(request, items));
                }
            }
            assert(expected is None);
        }
    }
}

/// A signed request without an envelope gives the fault of the envelope.
pub proof fn lemma_signed_requests_have_envelopes<S: MatcherStore>(
    store: S,
    config: OpenId4VpConfigModel,
    options: PlanOptionsModel,
    origin: Text,
    protocol: Text,
    request_index: nat,
    fault: MatcherErrorModel,
    payload: Result<OpenId4VpRequestModel, Text>,
)
    ensures
        signed_outcome(
            store,
            config,
            options,
            origin,
            protocol,
            request_index,
            Err(fault),
            payload,
        ) == Err::<Seq<SetModel>, MatcherErrorModel>(fault),
{
}

/// Whether a wallet takes requests of a protocol: it takes requests, and it lists the protocol.
pub open spec fn is_taken<S: MatcherStore>(store: S, protocol: Text) -> bool {
    store.capabilities().enabled && lists(
        store.capabilities().supported_request_protocols,
        protocol,
    )
}

/// Unsigned requests, signed ones and those with several signatures are requests of three
/// protocols. A request of a protocol that the wallet does not take gives nothing, and so does one
/// of no known protocol.
pub proof fn lemma_requests_of_the_protocols<S: MatcherStore>(
    store: S,
    options: PlanOptionsModel,
    origin: Text,
    request_index: nat,
    item: ItemModel,
)
    ensures
        ({
            let outcome = item_outcome(store, options, origin, request_index, item);
            let config = store.capabilities();
            let nothing = outcome matches Ok(sets) && sets.len() == 0;
            match item {
                ItemModel::Unknown => nothing,
                ItemModel::Unsigned { request } => if !is_taken(store, "openid4vp-v1-unsigned"@) {
                    nothing
                } else {
                    match request {
                        Ok(request) => outcome == request_outcome(
                            store,
                            config,
                            options,
                            "openid4vp-v1-unsigned"@,
                            request_index,
                            request,
                        ),
                        Err(message) => outcome == Err::<Seq<SetModel>, MatcherErrorModel>(
                            MatcherErrorModel::InvalidOpenId4Vp(
                                OpenId4VpErrorModel::Json { message },
                            ),
                        ),
                    }
                },
                ItemModel::Signed { compact, request } => if !is_taken(
                    store,
                    "openid4vp-v1-signed"@,
                ) {
                    nothing
                } else {
                    outcome == signed_outcome(
                        store,
                        config,
                        options,
                        origin,
                        "openid4vp-v1-signed"@,
                        request_index,
                        compact_envelope("openid4vp-v1-signed"@, compact),
                        request,
                    )
                },
                ItemModel::MultiSigned { payload, signatures, request } => if !is_taken(
                    store,
                    "openid4vp-v1-multisigned"@,
                ) {
                    nothing
                } else {
                    outcome == signed_outcome(
                        store,
                        config,
                        options,
                        origin,
                        "openid4vp-v1-multisigned"@,
                        request_index,
                        json_envelope("openid4vp-v1-multisigned"@, payload, signatures),
                        request,
                    )
                },
            }
        }),
{
    let protocols = store.capabilities().supported_request_protocols;
    lemma_lists(protocols, "openid4vp-v1-unsigned"@);
    lemma_lists(protocols, "openid4vp-v1-signed"@);
    lemma_lists(protocols, "openid4vp-v1-multisigned"@);
}

/// What comes of requests is what comes of all but the last, and behind it what comes of the last.
/// So the sets of a request stand together, in the order of the requests.
pub proof fn lemma_requests_come_in_order<S: MatcherStore>(
    store: S,
    options: PlanOptionsModel,
    origin: Text,
    items: Seq<ItemModel>,
    last: ItemModel,
)
    ensures
        response(store, options, origin, Seq::empty()) matches Ok(sets) && sets.len() == 0,
        ({
            let before = response(store, options, origin, items);
            let all = response(store, options, origin, items.push(last));
            match before {
                Err(fault) => all == before,
                Ok(earlier) => match item_outcome(store, options, origin, items.len(), last) {
                    Err(fault) => all == Err::<Seq<SetModel>, MatcherErrorModel>(fault),
                    Ok(own) => all matches Ok(sets) && sets.len() == earlier.len() + own.len()
                        && sets.take(earlier.len() as int) == earlier && sets.skip(
                        earlier.len() as int,
                    ) == own,
                },
            }
        }),
{
    assert(items.push(last).drop_last() =~= items);
    if let Ok(earlier) = response(store, options, origin, items) {
        if let Ok(own) = item_outcome(store, options, origin, items.len(), last) {
            assert((earlier + own).take(earlier.len() as int) =~= earlier);
            assert((earlier + own).skip(earlier.len() as int) =~= own);
        }
    }
}

/// The document that tells of transaction data has its index in the request, and whether it is
/// displayed. It has no other members.
pub proof fn lemma_told_transaction_data(told: SelectedTransactionData, key: Text)
    ensures
        selected_json(told).get(key) == if key == "index"@ {
            Some(JsonModel::Number(NumberModel::PosInt(told.index as u64)))
        } else if key == "displayed"@ {
            Some(JsonModel::Bool(told.displayed))
        } else {
            None
        },
{
    reveal_strlit("index");
    reveal_strlit("displayed");
    assert("index"@.len() == 5 && "displayed"@.len() == 9);
    let index = JsonModel::Number(NumberModel::PosInt(told.index as u64));
    let none = Seq::<(Text, JsonModel)>::empty();
    let one = none.push(("index"@, index));
    let two = one.push(("displayed"@, JsonModel::Bool(told.displayed)));
    assert(one.drop_last() =~= none);
    assert(two.drop_last() =~= one);
    assert(member(none, key) is None);
    assert(member(one, key) == if key == "index"@ {
        Some(index)
    } else {
        None
    });
    assert(selected_json(told)->Object_0 =~= two);
}

} // verus!
