//! What holds of every response.

use crate::c8::without_nul;
use crate::json::{member, JsonModel};
use crate::matcher::config::{OpenId4VpConfigModel, PROTOCOL_OPENID4VP_V1_MULTISIGNED};
use crate::matcher::config::PROTOCOL_OPENID4VP_V1_SIGNED;
use crate::matcher::engine::{item_outcome, protocol_of, request_data, request_outcome, response};
use crate::matcher::engine::{takes, ItemModel};
use crate::matcher::entries::{entry_of, metadata_json, payments, selected_json, set_id, told};
use crate::matcher::entries::{SelectedTransactionData, SetModel};
use crate::matcher::envelope::{compact_envelope, json_envelope};
use crate::matcher::error::MatcherErrorModel;
use crate::matcher::origins::expected_origins;
use crate::matcher::request::{EnvelopeModel, OpenId4VpRequestModel};
use crate::matcher::store::MatcherStore;
use crate::matcher::transaction_data::{entry_data, lemma_decoded_data};
use crate::models::{ClaimModel, TransactionDataModel};
use crate::planner::index::query_table;
use crate::planner::laws::{can_authorize, lemma_selections_are_sound};
use crate::planner::options::PlanOptionsModel;
use crate::planner::plan::plan;
use crate::seqs::{lemma_add_contains, lemma_push_contains};
use crate::store::RefModel;
use crate::text::{decimal, digit_char, Text};
use vstd::prelude::*;

verus! {

/// Whether a set comes of one of the requests.
pub open spec fn is_exposed<S: MatcherStore>(
    store: S,
    options: PlanOptionsModel,
    origin: Text,
    items: Seq<ItemModel>,
    set: SetModel,
) -> bool {
    exists|k: int|
        0 <= k < items.len() && (item_outcome(
            store,
            options,
            origin,
            k as nat,
            #[trigger] items[k],
        ) matches Ok(sets) && sets.contains(set))
}

/// Requests are alternatives: a response holds the sets of all requests and no others. The only
/// reason for there being none is a faulty request, and then the first fault is reported.
pub proof fn lemma_every_request_is_exposed<S: MatcherStore>(
    store: S,
    options: PlanOptionsModel,
    origin: Text,
    items: Seq<ItemModel>,
)
    ensures
        match response(store, options, origin, items) {
            Ok(sets) => {
                &&& forall|k: int|
                    0 <= k < items.len() ==> item_outcome(
                        store,
                        options,
                        origin,
                        k as nat,
                        #[trigger] items[k],
                    ) is Ok
                &&& forall|set: SetModel| #[trigger]
                    sets.contains(set) <==> is_exposed(store, options, origin, items, set)
            },
            Err(error) => exists|k: int|
                0 <= k < items.len() && item_outcome(
                    store,
                    options,
                    origin,
                    k as nat,
                    #[trigger] items[k],
                ) == Err::<Seq<SetModel>, MatcherErrorModel>(error) && forall|j: int|
                    0 <= j < k ==> item_outcome(
                        store,
                        options,
                        origin,
                        j as nat,
                        #[trigger] items[j],
                    ) is Ok,
        },
    decreases items.len(),
{
    if items.len() > 0 {
        let rest = items.drop_last();
        let n = items.len() - 1;
        lemma_every_request_is_exposed(store, options, origin, rest);
        match response(store, options, origin, rest) {
            Err(error) => {
                let k = choose|k: int|
                    0 <= k < rest.len() && item_outcome(
                        store,
                        options,
                        origin,
                        k as nat,
                        #[trigger] rest[k],
                    ) == Err::<Seq<SetModel>, MatcherErrorModel>(error) && forall|j: int|
                        0 <= j < k ==> item_outcome(
                            store,
                            options,
                            origin,
                            j as nat,
                            #[trigger] rest[j],
                        ) is Ok;
                assert(items[k] == rest[k]);
                assert forall|j: int| 0 <= j < k implies item_outcome(
                    store,
                    options,
                    origin,
                    j as nat,
                    #[trigger] items[j],
                ) is Ok by {
                    assert(items[j] == rest[j]);
                }
            },
            Ok(earlier) => {
                assert forall|j: int| 0 <= j < n implies item_outcome(
                    store,
                    options,
                    origin,
                    j as nat,
                    #[trigger] items[j],
                ) is Ok by {
                    assert(items[j] == rest[j]);
                }
                match item_outcome(store, options, origin, n as nat, items[n]) {
                    Err(_) => {},
                    Ok(added) => {
                        assert forall|set: SetModel| #[trigger]
                            (earlier + added).contains(set) <==> is_exposed(
                            store,
                            options,
                            origin,
                            items,
                            set,
                        ) by {
                            lemma_add_contains(earlier, added, set);
                            assert(earlier.contains(set) <==> is_exposed(
                                store,
                                options,
                                origin,
                                rest,
                                set,
                            ));
                            if is_exposed(store, options, origin, rest, set) {
                                let k = choose|k: int|
                                    0 <= k < rest.len() && (item_outcome(
                                        store,
                                        options,
                                        origin,
                                        k as nat,
                                        #[trigger] rest[k],
                                    ) matches Ok(sets) && sets.contains(set));
                                assert(items[k] == rest[k]);
                            }
                            if added.contains(set) {
                                assert(items[n] == items.last());
                            }
                            if is_exposed(store, options, origin, items, set) {
                                let k = choose|k: int|
                                    0 <= k < items.len() && (item_outcome(
                                        store,
                                        options,
                                        origin,
                                        k as nat,
                                        #[trigger] items[k],
                                    ) matches Ok(sets) && sets.contains(set));
                                if k < n {
                                    assert(rest[k] == items[k]);
                                }
                            }
                        }
                    },
                }
            },
        }
    }
}

/// The id of a set tells the protocol and the index of its request, and the set's own index.
pub proof fn lemma_set_ids_tell_the_request<S: MatcherStore>(
    store: S,
    options: PlanOptionsModel,
    origin: Text,
    request_index: nat,
    item: ItemModel,
    k: int,
)
    requires
        item_outcome(store, options, origin, request_index, item) matches Ok(sets) && 0 <= k
            < sets.len(),
    ensures
        protocol_of(item) is Some,
        item_outcome(store, options, origin, request_index, item)->Ok_0[k].set_id == set_id(
            protocol_of(item)->0,
            request_index,
            k as nat,
        ),
{
}

/// A request that the wallet does not take is treated like one of an unknown protocol.
pub proof fn lemma_requests_not_taken_are_ignored<S: MatcherStore>(
    store: S,
    options: PlanOptionsModel,
    origin: Text,
    items: Seq<ItemModel>,
    k: int,
)
    requires
        0 <= k < items.len(),
        !takes(store.capabilities(), items[k]),
    ensures
        response(store, options, origin, items) == response(
            store,
            options,
            origin,
            items.update(k, ItemModel::Unknown),
        ),
    decreases items.len(),
{
    let other = items.update(k, ItemModel::Unknown);
    if k < items.len() - 1 {
        lemma_requests_not_taken_are_ignored(store, options, origin, items.drop_last(), k);
        assert(other.drop_last() =~= items.drop_last().update(k, ItemModel::Unknown));
    } else {
        assert(other.drop_last() =~= items.drop_last());
    }
}

/// Members of a request that the matcher does not know do not matter to what comes of it.
pub proof fn lemma_unknown_parameters_are_ignored<S: MatcherStore>(
    store: S,
    config: OpenId4VpConfigModel,
    options: PlanOptionsModel,
    protocol: Text,
    request_index: nat,
    request: OpenId4VpRequestModel,
    extra: Seq<(Text, JsonModel)>,
)
    ensures
        request_outcome(store, config, options, protocol, request_index, request)
            == request_outcome(
            store,
            config,
            options,
            protocol,
            request_index,
            OpenId4VpRequestModel { extra, ..request },
        ),
{
}

/// The envelope of a signed request, and the request that its payload holds.
pub open spec fn signed_parts(item: ItemModel) -> Option<
    (Result<EnvelopeModel, MatcherErrorModel>, Result<OpenId4VpRequestModel, Text>),
> {
    match item {
        ItemModel::Signed { compact, request } => Some(
            (compact_envelope(PROTOCOL_OPENID4VP_V1_SIGNED@, compact), request),
        ),
        ItemModel::MultiSigned { payload, signatures, request } => Some(
            (json_envelope(PROTOCOL_OPENID4VP_V1_MULTISIGNED@, payload, signatures), request),
        ),
        _ => None,
    }
}

/// Nothing comes of a signed request unless the wallet verified it and it is for the caller.
pub proof fn lemma_signed_requests_are_guarded<S: MatcherStore>(
    store: S,
    options: PlanOptionsModel,
    origin: Text,
    request_index: nat,
    item: ItemModel,
)
    requires
        signed_parts(item) is Some,
        item_outcome(store, options, origin, request_index, item) matches Ok(sets) && sets.len()
            > 0,
    ensures
        ({
            let (envelope, request) = signed_parts(item)->0;
            &&& envelope is Ok
            &&& store.is_verified(protocol_of(item)->0, envelope->Ok_0)
            &&& request is Ok
            &&& origin.len() > 0
            &&& expected_origins(request->Ok_0) matches Some(expected) && expected.contains(origin)
        }),
{
}

/// The digit of a character.
proof fn lemma_digits(value: nat)
    ensures
        decimal(value).len() > 0,
        !decimal(value).contains(':'),
    decreases value,
{
    if value >= 10 {
        lemma_digits(value / 10);
        lemma_push_contains(decimal(value / 10), digit_char(value % 10), ':');
    } else if decimal(value).contains(':') {
        assert(decimal(value)[0] == digit_char(value));
    }
}

/// Numbers with the same rendering are the same.
proof fn lemma_decimal_is_injective(a: nat, b: nat)
    requires
        decimal(a) == decimal(b),
    ensures
        a == b,
    decreases a,
{
    assert(decimal(a).last() == digit_char(a % 10));
    assert(decimal(b).last() == digit_char(b % 10));
    assert(a % 10 == b % 10);
    if a >= 10 {
        lemma_digits(a / 10);
        assert(b >= 10);
        assert(decimal(a).drop_last() =~= decimal(a / 10));
        assert(decimal(b).drop_last() =~= decimal(b / 10));
        lemma_decimal_is_injective(a / 10, b / 10);
    } else if b >= 10 {
        lemma_digits(b / 10);
        assert(decimal(b).len() > 1);
    }
}

/// What stands before the first colon, and what behind it.
proof fn lemma_split_at_colon(a: Text, b: Text, x: Text, y: Text)
    requires
        !a.contains(':'),
        !b.contains(':'),
        a + seq![':'] + x == b + seq![':'] + y,
    ensures
        a == b,
        x == y,
{
    let left = a + seq![':'] + x;
    let right = b + seq![':'] + y;
    if a.len() < b.len() {
        assert(left[a.len() as int] == ':');
        assert(right[a.len() as int] == b[a.len() as int]);
        assert(b.contains(b[a.len() as int]));
    } else if b.len() < a.len() {
        assert(right[b.len() as int] == ':');
        assert(left[b.len() as int] == a[b.len() as int]);
        assert(a.contains(a[b.len() as int]));
    }
    assert(a =~= b) by {
        assert forall|i: int| 0 <= i < a.len() implies a[i] == b[i] by {
            assert(left[i] == a[i] && right[i] == b[i]);
        }
    }
    let from: int = a.len() as int + 1;
    assert(left.skip(from) =~= x);
    assert(right.skip(from) =~= y);
}

/// Sets of one protocol have the same id only if they are of the same request and have the same
/// index.
pub proof fn lemma_set_ids_differ(
    protocol: Text,
    request_index: nat,
    set_index: nat,
    other_request_index: nat,
    other_set_index: nat,
)
    requires
        set_id(protocol, request_index, set_index) == set_id(
            protocol,
            other_request_index,
            other_set_index,
        ),
    ensures
        request_index == other_request_index,
        set_index == other_set_index,
{
    reveal_strlit(":dcql:");
    reveal_strlit("dcql:");
    let name = without_nul(protocol);
    let colon = seq![':'];
    let (r, q) = (decimal(request_index), decimal(other_request_index));
    let (u, v) = (decimal(set_index), decimal(other_set_index));
    assert(":dcql:"@ =~= colon + "dcql:"@);
    let (a, b) = (
        set_id(protocol, request_index, set_index),
        set_id(protocol, other_request_index, other_set_index),
    );
    let (x, y) = (r + colon + ("dcql:"@ + u), q + colon + ("dcql:"@ + v));
    assert(a =~= name + colon + x);
    assert(b =~= name + colon + y);
    let from = name.len() + 1;
    assert(a.skip(from as int) =~= x);
    assert(b.skip(from as int) =~= y);
    lemma_digits(request_index);
    lemma_digits(other_request_index);
    lemma_split_at_colon(r, q, "dcql:"@ + u, "dcql:"@ + v);
    assert(("dcql:"@ + u).skip("dcql:"@.len() as int) =~= u);
    assert(("dcql:"@ + v).skip("dcql:"@.len() as int) =~= v);
    lemma_decimal_is_injective(request_index, other_request_index);
    lemma_decimal_is_injective(set_index, other_set_index);
}

/// The document that metadata is the text of tells the credential query id, the credential id, and
/// what transaction data there is. It has no other members.
pub proof fn lemma_metadata_members(
    dcql_id: Text,
    credential_id: Text,
    selected: Option<SelectedTransactionData>,
    key: Text,
)
    ensures
        metadata_json(dcql_id, credential_id, selected).get(key) == if key == "dcql_id"@ {
            Some(JsonModel::String(dcql_id))
        } else if key == "credential_id"@ {
            Some(JsonModel::String(credential_id))
        } else if key == "transaction_data"@ {
            match selected {
                Some(selected) => Some(selected_json(selected)),
                None => None,
            }
        } else {
            None
        },
{
    reveal_strlit("dcql_id");
    reveal_strlit("credential_id");
    reveal_strlit("transaction_data");
    assert("dcql_id"@.len() == 7 && "credential_id"@.len() == 13 && "transaction_data"@.len()
        == 16);
    let none = Seq::<(Text, JsonModel)>::empty();
    let one = none.push(("dcql_id"@, JsonModel::String(dcql_id)));
    let two = one.push(("credential_id"@, JsonModel::String(credential_id)));
    assert(one.drop_last() =~= none);
    assert(two.drop_last() =~= one);
    assert(member(none, key) is None);
    assert(member(one, key) == if key == "dcql_id"@ {
        Some(JsonModel::String(dcql_id))
    } else {
        None
    });
    assert(member(two, key) == if key == "dcql_id"@ {
        Some(JsonModel::String(dcql_id))
    } else if key == "credential_id"@ {
        Some(JsonModel::String(credential_id))
    } else {
        None
    });
    match selected {
        Some(selected) => {
            let three = two.push(("transaction_data"@, selected_json(selected)));
            assert(three.drop_last() =~= two);
            assert(metadata_json(dcql_id, credential_id, Some(selected)) == JsonModel::Object(
                three,
            )) by {
                assert(metadata_json(dcql_id, credential_id, Some(selected))->Object_0 =~= three);
            }
        },
        None => {
            assert(metadata_json(dcql_id, credential_id, None)->Object_0 =~= two);
        },
    }
}

/// An entry is shown as a payment exactly when one of the transactions that are bound to it has a
/// payment summary and no other has.
pub proof fn lemma_payment_entries<S: MatcherStore>(
    store: S,
    cred: RefModel<S>,
    query_id: Text,
    claims: Seq<ClaimModel>,
    data: Seq<TransactionDataModel>,
    request_indices: Seq<usize>,
    bound: Seq<int>,
)
    ensures
        entry_of(store, cred, query_id, claims, data, request_indices, bound) is Payment
            <==> payments(store, cred, data, bound).len() == 1,
{
}

/// The transaction data that the metadata of a selection tells of is the one at the given index of
/// the request: it names the selection's credential query, and the credential can authorize it.
pub proof fn lemma_metadata_index<S: MatcherStore>(
    store: S,
    options: PlanOptionsModel,
    request: OpenId4VpRequestModel,
    s: int,
    t: int,
    c: int,
    displayed: Option<int>,
)
    requires
        request.dcql_query is Some,
        plan(
            store,
            request.dcql_query->0,
            Some(request_data(request.transaction_data).0),
            options,
        ) matches Ok(output) && 0 <= s < output.len() && 0 <= t < output[s].len() && 0 <= c
            < output[s][t].len() && output[s][t][c].transaction_data_ids.len() > 0,
        request.transaction_data matches Some(inputs) && inputs.len() <= usize::MAX,
    ensures
        ({
            let (data, indices) = request_data(request.transaction_data);
            let inputs = request.transaction_data->0;
            let output = plan(store, request.dcql_query->0, Some(data), options)->Ok_0;
            let selection = output[s][t][c];
            let first = selection.transaction_data_ids[0];
            &&& told(
                indices.map_values(|i: int| i as usize),
                selection.transaction_data_ids,
                displayed,
            ) matches Some(selected) && selected.index < inputs.len() && entry_data(
                inputs[selected.index as int],
            ) == Some(data[first])
            &&& data[first].credential_ids.contains(selection.dcql_id)
            &&& selection.credential_id matches Some(cred) && store.can_sign(cred, data[first])
        }),
{
    let (data, indices) = request_data(request.transaction_data);
    let inputs = request.transaction_data->0;
    let query = request.dcql_query->0;
    let output = plan(store, query, Some(data), options)->Ok_0;
    let selection = output[s][t][c];
    let ids = selection.transaction_data_ids;
    lemma_selections_are_sound(store, query, Some(data), options, s, t, c);
    lemma_decoded_data(inputs);
    assert(can_authorize(
        store,
        query_table(query.credentials),
        data,
        selection.dcql_id,
        selection.credential_id->0,
        ids[0],
    ));
    assert(0 <= indices[ids[0]] < inputs.len());
}

} // verus!
