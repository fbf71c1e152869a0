//! The matcher: from a request and a wallet to what is handed to the host.

use crate::matcher::config::{OpenId4VpConfig, OpenId4VpConfigModel, QUERY_METHOD_DCQL_QUERY};
use crate::matcher::config::{PROTOCOL_OPENID4VP_V1_MULTISIGNED, PROTOCOL_OPENID4VP_V1_SIGNED};
use crate::matcher::config::{PROTOCOL_OPENID4VP_V1_UNSIGNED, REQUEST_PARAMETER_TRANSACTION_DATA};
use crate::matcher::config::RESPONSE_MODE_DC_API;
use crate::matcher::entries::{presented_set, set_from_dcql_presentation_set, CredentialSet};
use crate::matcher::entries::{EntryPlace, SetContext, SetModel};
use crate::matcher::envelope::{compact_envelope, decode_openid4vp_multisigned_envelope};
use crate::matcher::envelope::{decode_openid4vp_signed_envelope, json_envelope};
use crate::matcher::error::{MatcherError, MatcherErrorModel, OpenId4VpError, OpenId4VpErrorModel};
use crate::matcher::origins::{ensure_expected_origins, expected_origins, origin_fault};
use crate::matcher::request::{EnvelopeModel, OpenId4VpMultiSignedData, OpenId4VpRequest};
use crate::matcher::request::{OpenId4VpRequestModel, OpenId4VpSignedData, OpenId4VpSignedEnvelope};
use crate::matcher::request::{SignatureModel, TransactionDataInputModel};
use crate::matcher::store::MatcherStore;
use crate::matcher::transaction_data::{decode_transaction_data, decoded_data};
use crate::matcher::transaction_data::DecodedTransactionData;
use crate::models::TransactionDataModel;
use crate::planner::constraints::as_ints;
use crate::planner::error::{PlanError, PlanErrorModel};
use crate::planner::matching::result_view;
use crate::planner::options::{default_options, PlanOptions, PlanOptionsModel};
use crate::planner::plan::{plan, plan_selection};
use crate::planner::presentation::OutputModel;
use crate::seqs::lemma_take_all;
use crate::store::{lawful_refs, RefModel};
use crate::text::Text;
use vstd::prelude::*;

verus! {

broadcast use vstd::string::group_string_axioms;

/// Matcher framework options.
#[derive(Debug)]
pub struct MatcherOptions {
    /// DCQL planner behavior.
    pub dcql: PlanOptions,
}

impl Default for MatcherOptions {
    fn default() -> (options: MatcherOptions)
        ensures
            options.dcql.deep_view() == default_options(),
    {
        MatcherOptions { dcql: PlanOptions::default() }
    }
}

/// One request of the Digital Credentials API. Where a request still has to be read into its
/// members, it comes with what that gave: the request, or the message that says why there is none.
#[allow(inconsistent_fields)]
#[derive(Debug)]
pub enum DcApiRequestItem {
    /// An unsigned request.
    OpenId4VpUnsigned { request: Result<OpenId4VpRequest, String> },
    /// A signed request in compact form, with the request that its payload holds.
    OpenId4VpSigned { data: OpenId4VpSignedData, request: Result<OpenId4VpRequest, String> },
    /// A request with several signatures, with the request that its payload holds.
    OpenId4VpMultiSigned {
        data: OpenId4VpMultiSignedData,
        request: Result<OpenId4VpRequest, String>,
    },
    /// A request of another protocol.
    Unknown,
}

/// Model of [`DcApiRequestItem`].
pub enum ItemModel {
    Unsigned { request: Result<OpenId4VpRequestModel, Text> },
    Signed { compact: Text, request: Result<OpenId4VpRequestModel, Text> },
    MultiSigned {
        payload: Text,
        signatures: Seq<SignatureModel>,
        request: Result<OpenId4VpRequestModel, Text>,
    },
    Unknown,
}

impl DeepView for DcApiRequestItem {
    type V = ItemModel;

    open spec fn deep_view(&self) -> ItemModel {
        match *self {
            DcApiRequestItem::OpenId4VpUnsigned { request } => ItemModel::Unsigned {
                request: result_view(request),
            },
            DcApiRequestItem::OpenId4VpSigned { data, request } => ItemModel::Signed {
                compact: data.request@,
                request: result_view(request),
            },
            DcApiRequestItem::OpenId4VpMultiSigned { data, request } => ItemModel::MultiSigned {
                payload: data.payload@,
                signatures: data.signatures.deep_view(),
                request: result_view(request),
            },
            DcApiRequestItem::Unknown => ItemModel::Unknown,
        }
    }
}

/// What is handed to the host.
#[derive(Debug)]
pub struct MatcherResponse {
    /// The sets to choose from.
    pub results: Vec<CredentialSet>,
}

impl DeepView for MatcherResponse {
    type V = Seq<SetModel>;

    open spec fn deep_view(&self) -> Seq<SetModel> {
        self.results.deep_view()
    }
}

/// The transaction data of a request that can be matched, with its indices in the request.
pub open spec fn request_data(inputs: Option<Seq<TransactionDataInputModel>>) -> (
    Seq<TransactionDataModel>,
    Seq<int>,
) {
    match inputs {
        Some(inputs) => decoded_data(inputs),
        None => (Seq::empty(), Seq::empty()),
    }
}

/// Whether the wallet supports every part of a request.
pub open spec fn supported(config: OpenId4VpConfigModel, request: OpenId4VpRequestModel) -> bool {
    &&& config.supported_response_modes.contains(
        match request.response_mode {
            Some(mode) => mode,
            None => RESPONSE_MODE_DC_API@,
        },
    )
    &&& match request.response_type {
        Some(response_type) => config.supported_response_types.contains(response_type),
        None => true,
    }
    &&& request.dcql_query is Some
    &&& config.supported_query_methods.contains(QUERY_METHOD_DCQL_QUERY@)
    &&& request_data(request.transaction_data).0.len() > 0
        ==> config.supported_request_parameters.contains(REQUEST_PARAMETER_TRANSACTION_DATA@)
}

/// Where the entries of a set of a request stand.
pub open spec fn place_of(
    protocol: Text,
    request_index: nat,
    set_index: nat,
    inputs: Option<Seq<TransactionDataInputModel>>,
) -> EntryPlace {
    EntryPlace {
        protocol,
        request_index,
        set_index,
        slot_index: 0,
        data: request_data(inputs).0,
        request_indices: request_data(inputs).1.map_values(|i: int| i as usize),
    }
}

/// The sets for the presentation sets of a plan.
pub open spec fn presented_sets<S: MatcherStore>(
    store: S,
    protocol: Text,
    request_index: nat,
    inputs: Option<Seq<TransactionDataInputModel>>,
    output: OutputModel<RefModel<S>>,
) -> Seq<SetModel> {
    Seq::new(
        output.len(),
        |k: int|
            presented_set(
                store,
                place_of(protocol, request_index, k as nat, inputs),
                output[k],
            ),
    )
}

/// What comes of an OpenID4VP request: nothing when a part of it is not supported, or when no
/// credentials satisfy it.
pub open spec fn request_outcome<S: MatcherStore>(
    store: S,
    config: OpenId4VpConfigModel,
    options: PlanOptionsModel,
    protocol: Text,
    request_index: nat,
    request: OpenId4VpRequestModel,
) -> Result<Seq<SetModel>, MatcherErrorModel> {
    if !supported(config, request) {
        Ok(Seq::empty())
    } else {
        let data = request_data(request.transaction_data).0;
        match plan(store, request.dcql_query->0, Some(data), options) {
            Ok(output) => Ok(
                presented_sets(store, protocol, request_index, request.transaction_data, output),
            ),
            Err(PlanErrorModel::Unsatisfied) => Ok(Seq::empty()),
            Err(error) => Err(MatcherErrorModel::Dcql(error)),
        }
    }
}

/// What comes of a signed request, given its envelope: it has to be verified, its payload has to
/// be a request, and the request has to be for the caller.
pub open spec fn signed_outcome<S: MatcherStore>(
    store: S,
    config: OpenId4VpConfigModel,
    options: PlanOptionsModel,
    origin: Text,
    protocol: Text,
    request_index: nat,
    envelope: Result<EnvelopeModel, MatcherErrorModel>,
    request: Result<OpenId4VpRequestModel, Text>,
) -> Result<Seq<SetModel>, MatcherErrorModel> {
    match envelope {
        Err(error) => Err(error),
        Ok(envelope) => if !store.is_verified(protocol, envelope) {
            Err(
                MatcherErrorModel::InvalidOpenId4Vp(
                    OpenId4VpErrorModel::SignedRequestUnverified { protocol },
                ),
            )
        } else {
            match request {
                Err(message) => Err(
                    MatcherErrorModel::InvalidOpenId4Vp(
                        OpenId4VpErrorModel::SignedPayloadNotSupported { protocol, message },
                    ),
                ),
                Ok(request) => match origin_fault(protocol, expected_origins(request), origin) {
                    Some(fault) => Err(MatcherErrorModel::InvalidOpenId4Vp(fault)),
                    None => request_outcome(
                        store,
                        config,
                        options,
                        protocol,
                        request_index,
                        request,
                    ),
                },
            }
        },
    }
}

/// The protocol of a request.
pub open spec fn protocol_of(item: ItemModel) -> Option<Text> {
    match item {
        ItemModel::Unsigned { .. } => Some(PROTOCOL_OPENID4VP_V1_UNSIGNED@),
        ItemModel::Signed { .. } => Some(PROTOCOL_OPENID4VP_V1_SIGNED@),
        ItemModel::MultiSigned { .. } => Some(PROTOCOL_OPENID4VP_V1_MULTISIGNED@),
        ItemModel::Unknown => None,
    }
}

/// Whether the wallet takes requests of this protocol.
pub open spec fn takes(config: OpenId4VpConfigModel, item: ItemModel) -> bool {
    match protocol_of(item) {
        Some(protocol) => config.enabled && config.supported_request_protocols.contains(protocol),
        None => false,
    }
}

/// What comes of one request: nothing when the wallet does not take its protocol.
pub open spec fn item_outcome<S: MatcherStore>(
    store: S,
    options: PlanOptionsModel,
    origin: Text,
    request_index: nat,
    item: ItemModel,
) -> Result<Seq<SetModel>, MatcherErrorModel> {
    let config = store.capabilities();
    if !takes(config, item) {
        Ok(Seq::empty())
    } else {
        match item {
            ItemModel::Unsigned { request } => match request {
                Err(message) => Err(
                    MatcherErrorModel::InvalidOpenId4Vp(OpenId4VpErrorModel::Json { message }),
                ),
                Ok(request) => request_outcome(
                    store,
                    config,
                    options,
                    PROTOCOL_OPENID4VP_V1_UNSIGNED@,
                    request_index,
                    request,
                ),
            },
            ItemModel::Signed { compact, request } => signed_outcome(
                store,
                config,
                options,
                origin,
                PROTOCOL_OPENID4VP_V1_SIGNED@,
                request_index,
                compact_envelope(PROTOCOL_OPENID4VP_V1_SIGNED@, compact),
                request,
            ),
            ItemModel::MultiSigned { payload, signatures, request } => signed_outcome(
                store,
                config,
                options,
                origin,
                PROTOCOL_OPENID4VP_V1_MULTISIGNED@,
                request_index,
                json_envelope(PROTOCOL_OPENID4VP_V1_MULTISIGNED@, payload, signatures),
                request,
            ),
            ItemModel::Unknown => Ok(Seq::empty()),
        }
    }
}

/// What comes of all requests, one after the other, or the first error.
pub open spec fn response<S: MatcherStore>(
    store: S,
    options: PlanOptionsModel,
    origin: Text,
    items: Seq<ItemModel>,
) -> Result<Seq<SetModel>, MatcherErrorModel>
    decreases items.len(),
{
    if items.len() == 0 {
        Ok(Seq::empty())
    } else {
        match response(store, options, origin, items.drop_last()) {
            Err(error) => Err(error),
            Ok(earlier) => match item_outcome(
                store,
                options,
                origin,
                (items.len() - 1) as nat,
                items.last(),
            ) {
                Err(error) => Err(error),
                Ok(sets) => Ok(earlier + sets),
            },
        }
    }
}

/// The result of matching.
pub open spec fn sets_view(sets: Result<Vec<CredentialSet>, MatcherError>) -> Result<
    Seq<SetModel>,
    MatcherErrorModel,
> {
    match sets {
        Ok(sets) => Ok(sets.deep_view()),
        Err(error) => Err(error.deep_view()),
    }
}

/// No sets.
fn no_sets() -> (sets: Vec<CredentialSet>)
    ensures
        sets.deep_view() == Seq::<SetModel>::empty(),
{
    let sets: Vec<CredentialSet> = Vec::new();
    assert(sets.deep_view() =~= Seq::<SetModel>::empty());
    sets
}

/// Whether the wallet supports every part of `request`, given its transaction data.
fn is_supported(
    config: &OpenId4VpConfig,
    request: &OpenId4VpRequest,
    data: &DecodedTransactionData,
) -> (is: bool)
    requires
        data.deep_view() == request_data(request.deep_view().transaction_data),
    ensures
        is == supported(config.deep_view(), request.deep_view()),
{
    let response_mode = match &request.response_mode {
        Some(mode) => mode.as_str(),
        None => RESPONSE_MODE_DC_API,
    };
    if !config.supports_response_mode(response_mode) {
        return false;
    }
    if let Some(response_type) = &request.response_type {
        if !config.supports_response_type(response_type.as_str()) {
            return false;
        }
    }
    if request.dcql_query.is_none() || !config.supports_query_method(QUERY_METHOD_DCQL_QUERY) {
        return false;
    }
    assert(data.deep_view().0.len() == data.data.len());
    data.data.is_empty() || config.supports_request_parameter(REQUEST_PARAMETER_TRANSACTION_DATA)
}

/// Matches an OpenID4VP request.
pub fn match_openid4vp_request<S: MatcherStore>(
    request_index: usize,
    protocol: &str,
    request: &OpenId4VpRequest,
    store: &S,
    config: &OpenId4VpConfig,
    options: &MatcherOptions,
) -> (sets: Result<Vec<CredentialSet>, MatcherError>)
    requires
        lawful_refs::<S::CredentialRef>(),
    ensures
        sets_view(sets) == request_outcome(
            *store,
            config.deep_view(),
            options.dcql.deep_view(),
            protocol@,
            request_index as nat,
            request.deep_view(),
        ),
{
    let ghost model = request.deep_view();
    let decoded = match decode_transaction_data(&request.transaction_data) {
        Some(decoded) => decoded,
        None => {
            let none = DecodedTransactionData { data: Vec::new(), request_indices: Vec::new() };
            proof {
                assert(none.data.deep_view() =~= Seq::<TransactionDataModel>::empty());
                assert(as_ints(none.request_indices@) =~= Seq::<int>::empty());
            }
            none
        },
    };
    assert(decoded.deep_view() == request_data(model.transaction_data));
    if !is_supported(config, request, &decoded) {
        return Ok(no_sets());
    }
    let query = match &request.dcql_query {
        Some(query) => query,
        None => return Ok(no_sets()),
    };
    let data = decoded.data.as_slice();
    let ghost models = request_data(model.transaction_data).0;
    assert(data.deep_view() =~= models);
    assert(Some(data).deep_view() == Some(models));
    let output = match plan_selection(query, Some(data), store, &options.dcql) {
        Ok(output) => output,
        Err(PlanError::Unsatisfied) => return Ok(no_sets()),
        Err(error) => return Err(MatcherError::Dcql(error)),
    };
    let context = SetContext {
        protocol,
        request_index,
        transaction_data: data,
        request_indices: decoded.request_indices.as_slice(),
    };
    let ghost planned = output.deep_view();
    let ghost wanted = presented_sets(
        *store,
        protocol@,
        request_index as nat,
        model.transaction_data,
        planned,
    );
    proof {
        let indices = request_data(model.transaction_data).1;
        assert(decoded.request_indices@ =~= indices.map_values(|i: int| i as usize)) by {
            assert(as_ints(decoded.request_indices@) == indices);
            assert forall|k: int| 0 <= k < indices.len() implies decoded.request_indices@[k]
                == indices[k] as usize by {
                assert(as_ints(decoded.request_indices@)[k] == decoded.request_indices@[k]);
            }
        }
    }
    let mut sets: Vec<CredentialSet> = Vec::new();
    let mut i: usize = 0;
    while i < output.presentation_sets.len()
        invariant
            i <= output.presentation_sets.len(),
            planned == output.deep_view(),
            forall|k: nat| #[trigger]
                context.place(k, 0) == place_of(
                    protocol@,
                    request_index as nat,
                    k,
                    model.transaction_data,
                ),
            wanted == presented_sets(
                *store,
                protocol@,
                request_index as nat,
                model.transaction_data,
                planned,
            ),
            sets.len() == i,
            forall|k: int| 0 <= k < i ==> (#[trigger] sets@[k]).deep_view() == wanted[k],
        decreases output.presentation_sets.len() - i,
    {
        let set = set_from_dcql_presentation_set(
            store,
            &context,
            i,
            &output.presentation_sets[i],
        );
        proof {
            assert(planned[i as int] == output.presentation_sets@[i as int].deep_view());
            assert(context.place(i as nat, 0) == place_of(
                protocol@,
                request_index as nat,
                i as nat,
                model.transaction_data,
            ));
        }
        sets.push(set);
        i = i + 1;
    }
    assert(sets.deep_view() =~= wanted);
    Ok(sets)
}

/// Checks that the signatures of a request are verified.
fn ensure_signed_request_verified<S: MatcherStore>(
    store: &S,
    protocol: &str,
    envelope: &OpenId4VpSignedEnvelope,
) -> (checked: Result<(), MatcherError>)
    ensures
        match checked {
            Ok(_) => store.is_verified(protocol@, envelope.deep_view()),
            Err(error) => !store.is_verified(protocol@, envelope.deep_view()) && error.deep_view()
                == MatcherErrorModel::InvalidOpenId4Vp(
                OpenId4VpErrorModel::SignedRequestUnverified { protocol: protocol@ },
            ),
        },
{
    if !store.verify_openid4vp_signed_request(protocol, envelope) {
        return Err(
            MatcherError::InvalidOpenId4Vp(
                OpenId4VpError::SignedRequestUnverified { protocol: protocol.to_owned() },
            ),
        );
    }
    Ok(())
}

/// Matches a signed request, given its envelope.
pub fn match_signed_request<S: MatcherStore>(
    request_index: usize,
    protocol: &str,
    envelope: Result<OpenId4VpSignedEnvelope, MatcherError>,
    request: &Result<OpenId4VpRequest, String>,
    origin: &str,
    store: &S,
    config: &OpenId4VpConfig,
    options: &MatcherOptions,
) -> (sets: Result<Vec<CredentialSet>, MatcherError>)
    requires
        lawful_refs::<S::CredentialRef>(),
    ensures
        sets_view(sets) == signed_outcome(
            *store,
            config.deep_view(),
            options.dcql.deep_view(),
            origin@,
            protocol@,
            request_index as nat,
            result_view(envelope),
            result_view(*request),
        ),
{
    let envelope = match envelope {
        Ok(envelope) => envelope,
        Err(error) => return Err(error),
    };
    match ensure_signed_request_verified(store, protocol, &envelope) {
        Ok(_) => {},
        Err(error) => return Err(error),
    }
    let request = match request {
        Ok(request) => request,
        Err(message) => return Err(
            MatcherError::InvalidOpenId4Vp(
                OpenId4VpError::SignedPayloadNotSupported {
                    protocol: protocol.to_owned(),
                    message: message.clone(),
                },
            ),
        ),
    };
    match ensure_expected_origins(protocol, request, origin) {
        Ok(_) => {},
        Err(error) => return Err(error),
    }
    match_openid4vp_request(request_index, protocol, request, store, config, options)
}

/// Whether the wallet takes requests of `protocol`.
fn takes_protocol(config: &OpenId4VpConfig, protocol: &str) -> (does: bool)
    ensures
        does == (config.deep_view().enabled
            && config.deep_view().supported_request_protocols.contains(protocol@)),
{
    config.enabled && config.supports_request_protocol(protocol)
}

/// Matches one request.
fn match_item<S: MatcherStore>(
    request_index: usize,
    item: &DcApiRequestItem,
    origin: &str,
    store: &S,
    config: &OpenId4VpConfig,
    options: &MatcherOptions,
) -> (sets: Result<Vec<CredentialSet>, MatcherError>)
    requires
        lawful_refs::<S::CredentialRef>(),
        config.deep_view() == store.capabilities(),
    ensures
        sets_view(sets) == item_outcome(
            *store,
            options.dcql.deep_view(),
            origin@,
            request_index as nat,
            item.deep_view(),
        ),
{
    match item {
        DcApiRequestItem::OpenId4VpUnsigned { request } => {
            if !takes_protocol(config, PROTOCOL_OPENID4VP_V1_UNSIGNED) {
                return Ok(no_sets());
            }
            match request {
                Ok(request) => match_openid4vp_request(
                    request_index,
                    PROTOCOL_OPENID4VP_V1_UNSIGNED,
                    request,
                    store,
                    config,
                    options,
                ),
                Err(message) => Err(
                    MatcherError::InvalidOpenId4Vp(
                        OpenId4VpError::Json { message: message.clone() },
                    ),
                ),
            }
        },
        DcApiRequestItem::OpenId4VpSigned { data, request } => {
            if !takes_protocol(config, PROTOCOL_OPENID4VP_V1_SIGNED) {
                return Ok(no_sets());
            }
            let envelope = decode_openid4vp_signed_envelope(PROTOCOL_OPENID4VP_V1_SIGNED, data);
            match_signed_request(
                request_index,
                PROTOCOL_OPENID4VP_V1_SIGNED,
                envelope,
                request,
                origin,
                store,
                config,
                options,
            )
        },
        DcApiRequestItem::OpenId4VpMultiSigned { data, request } => {
            if !takes_protocol(config, PROTOCOL_OPENID4VP_V1_MULTISIGNED) {
                return Ok(no_sets());
            }
            let envelope = decode_openid4vp_multisigned_envelope(
                PROTOCOL_OPENID4VP_V1_MULTISIGNED,
                data,
            );
            match_signed_request(
                request_index,
                PROTOCOL_OPENID4VP_V1_MULTISIGNED,
                envelope,
                request,
                origin,
                store,
                config,
                options,
            )
        },
        DcApiRequestItem::Unknown => Ok(no_sets()),
    }
}

/// Matches the requests of a Digital Credentials API call. `origin` is the origin of the caller,
/// empty if there is none.
pub fn match_dc_api_request<S: MatcherStore>(
    requests: &Vec<DcApiRequestItem>,
    origin: &str,
    store: &S,
    options: &MatcherOptions,
) -> (matched: Result<MatcherResponse, MatcherError>)
    requires
        lawful_refs::<S::CredentialRef>(),
    ensures
        result_view(matched) == response(
            *store,
            options.dcql.deep_view(),
            origin@,
            requests.deep_view(),
        ),
{
    let config = store.openid4vp_config();
    let ghost all = requests.deep_view();
    let ghost knobs = options.dcql.deep_view();
    let mut results: Vec<CredentialSet> = no_sets();
    let mut i: usize = 0;
    assert(all.take(0) =~= Seq::<ItemModel>::empty());
    while i < requests.len()
        invariant
            i <= requests.len(),
            lawful_refs::<S::CredentialRef>(),
            config.deep_view() == store.capabilities(),
            all == requests.deep_view(),
            knobs == options.dcql.deep_view(),
            response(*store, knobs, origin@, all.take(i as int)) == Ok::<
                Seq<SetModel>,
                MatcherErrorModel,
            >(results.deep_view()),
        decreases requests.len() - i,
    {
        let ghost before = results.deep_view();
        proof {
            assert(all[i as int] == requests@[i as int].deep_view());
            assert(all.take(i + 1).drop_last() =~= all.take(i as int));
            assert(all.take(i + 1).last() == all[i as int]);
        }
        match match_item(i, &requests[i], origin, store, &config, options) {
            Ok(mut sets) => {
                let ghost added = sets.deep_view();
                results.append(&mut sets);
                assert(results.deep_view() =~= before + added);
            },
            Err(error) => {
                proof {
                    lemma_response_fault(*store, knobs, origin@, all, i + 1);
                }
                return Err(error);
            },
        }
        i = i + 1;
    }
    proof {
        lemma_take_all(all);
    }
    Ok(MatcherResponse { results })
}

/// The first error is the one that is reported.
proof fn lemma_response_fault<S: MatcherStore>(
    store: S,
    options: PlanOptionsModel,
    origin: Text,
    items: Seq<ItemModel>,
    n: int,
)
    requires
        0 <= n <= items.len(),
        response(store, options, origin, items.take(n)) is Err,
    ensures
        response(store, options, origin, items) == response(store, options, origin, items.take(n)),
    decreases items.len() - n,
{
    if n == items.len() {
        lemma_take_all(items);
    } else {
        assert(items.take(n + 1).drop_last() =~= items.take(n));
        lemma_response_fault(store, options, origin, items, n + 1);
    }
}

} // verus!
