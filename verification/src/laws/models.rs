//! What holds of the models of queries, requests and results: they hold what they are models of.

use crate::json::{JsonModel, JsonNumber, JsonValue, NumberModel};
use crate::matcher::config::OpenId4VpConfig;
use crate::matcher::engine::{DcApiRequestItem, ItemModel};
use crate::matcher::error::{MatcherError, MatcherErrorModel, OpenId4VpError, OpenId4VpErrorModel};
use crate::matcher::request::{OpenId4VpRequest, OpenId4VpSignature, OpenId4VpSignedEnvelope};
use crate::matcher::request::{OpenId4VpSignedSignature, TransactionDataInput};
use crate::matcher::request::TransactionDataInputModel;
use crate::matcher::store::Ts12PaymentSummary;
use crate::models::{ClaimValue, ClaimValueModel, ClaimsQuery, CredentialQuery};
use crate::models::{CredentialQueryCommon, CredentialQueryModel, CredentialSetQuery, DcqlQuery};
use crate::models::{TransactionData, TrustedAuthority};
use crate::package::config::{CredentialFieldConfig, IconConfig, IconModel, PaymentScaTypeConfig};
use crate::path::{PathElement, PathElementModel};
use crate::planner::error::{PlanError, PlanErrorModel};
use crate::planner::matching::{result_view, QueryMatches};
use crate::planner::options::PlanOptions;
use crate::planner::selections::CredentialSelection;
use crate::text::Text;
use crate::ts12::metadata::{Ts12ClaimMetadata, Ts12TransactionMetadata};
use vstd::prelude::*;

verus! {

/// The model of a document is a document of the same kind, with the same flag, number or text.
pub proof fn lemma_documents(value: JsonValue)
    ensures
        match value {
            JsonValue::Null => value.deep_view() is Null,
            JsonValue::Bool(flag) => value.deep_view() == JsonModel::Bool(flag),
            JsonValue::Number(JsonNumber::PosInt(own)) => value.deep_view() == JsonModel::Number(
                NumberModel::PosInt(own),
            ),
            JsonValue::Number(JsonNumber::NegInt(own)) => value.deep_view() == JsonModel::Number(
                NumberModel::NegInt(own),
            ),
            JsonValue::Number(JsonNumber::Float(text)) => value.deep_view() == JsonModel::Number(
                NumberModel::Float(text@),
            ),
            JsonValue::String(text) => value.deep_view() == JsonModel::String(text@),
            JsonValue::Array(items) => value.deep_view() matches JsonModel::Array(models)
                && models.len() == items.len() && forall|i: int|
                0 <= i < items.len() ==> models[i] == (#[trigger] items@[i]).deep_view(),
            JsonValue::Object(members) => value.deep_view() matches JsonModel::Object(models)
                && models.len() == members.len() && forall|i: int|
                0 <= i < members.len() ==> models[i].0 == (#[trigger] members@[i]).0@
                    && models[i].1 == members@[i].1.deep_view(),
        },
{
    match value {
        JsonValue::Array(items) => {
            crate::json::lemma_json_models(items@);
        },
        JsonValue::Object(members) => {
            crate::json::lemma_entry_models(members@);
        },
        _ => {},
    }
}

/// The models of a component of a path and of a claim value are of the same kind and hold the same.
pub proof fn lemma_components_and_values(element: PathElement, value: ClaimValue)
    ensures
        match element {
            PathElement::String(name) => element.deep_view() == PathElementModel::String(name@),
            PathElement::Index(index) => element.deep_view() == PathElementModel::Index(index),
            PathElement::Wildcard => element.deep_view() is Wildcard,
        },
        match value {
            ClaimValue::String(text) => value.deep_view() == ClaimValueModel::String(text@),
            ClaimValue::Integer(own) => value.deep_view() == ClaimValueModel::Integer(own),
            ClaimValue::Boolean(own) => value.deep_view() == ClaimValueModel::Boolean(own),
        },
{
}

/// The model of a credential query is of the same format and has the same members.
pub proof fn lemma_credential_queries(query: CredentialQuery)
    ensures
        match query {
            CredentialQuery::MsoMdoc { common, meta } =>
                query.deep_view() matches CredentialQueryModel::MsoMdoc { common: own, meta: other }
                && own == common.deep_view() && other.doctype_value == meta.doctype_value@,
            CredentialQuery::DcSdJwt { common, meta } =>
                query.deep_view() matches CredentialQueryModel::DcSdJwt { common: own, meta: other }
                && own == common.deep_view() && other.vct_values == meta.vct_values.deep_view(),
            CredentialQuery::Unknown => query.deep_view() is Unknown,
        },
{
}

/// The models of the parts of a query have the members of the parts.
pub proof fn lemma_parts_of_queries(
    common: CredentialQueryCommon,
    claim: ClaimsQuery,
    set: CredentialSetQuery,
    authority: TrustedAuthority,
    query: DcqlQuery,
    data: TransactionData,
)
    ensures
        common.deep_view().id == common.id@,
        common.deep_view().multiple == common.multiple,
        common.deep_view().trusted_authorities == common.trusted_authorities.deep_view(),
        common.deep_view().require_cryptographic_holder_binding
            == common.require_cryptographic_holder_binding,
        common.deep_view().claims == common.claims.deep_view(),
        common.deep_view().claim_sets == common.claim_sets.deep_view(),
        claim.deep_view().id == claim.id.deep_view(),
        claim.deep_view().path == claim.path.deep_view(),
        claim.deep_view().values == claim.values.deep_view(),
        claim.deep_view().intent_to_retain == claim.intent_to_retain,
        set.deep_view().options == set.options.deep_view(),
        set.deep_view().required == set.required,
        set.deep_view().purpose == set.purpose.deep_view(),
        authority.deep_view().authority_type == authority.authority_type@,
        authority.deep_view().values == authority.values.deep_view(),
        query.deep_view().credentials == query.credentials.deep_view(),
        query.deep_view().credential_sets == query.credential_sets.deep_view(),
        data.deep_view().data_type == data.data_type@,
        data.deep_view().credential_ids == data.credential_ids.deep_view(),
        data.deep_view().transaction_data_hashes_alg
            == data.transaction_data_hashes_alg.deep_view(),
        data.deep_view().extra == data.extra.deep_view(),
{
}

/// The models of a request and its parts have the members of the request and its parts.
pub proof fn lemma_parts_of_requests(
    request: OpenId4VpRequest,
    input: TransactionDataInput,
    signature: OpenId4VpSignature,
    signed: OpenId4VpSignedSignature,
    envelope: OpenId4VpSignedEnvelope,
)
    ensures
        request.deep_view().response_mode == request.response_mode.deep_view(),
        request.deep_view().response_type == request.response_type.deep_view(),
        request.deep_view().dcql_query == request.dcql_query.deep_view(),
        request.deep_view().transaction_data == request.transaction_data.deep_view(),
        request.deep_view().extra == request.extra.deep_view(),
        match input {
            TransactionDataInput::Decoded(data) => input.deep_view()
                == TransactionDataInputModel::Decoded(data.deep_view()),
            TransactionDataInput::Encoded { encoded, parsed } => input.deep_view()
                == (TransactionDataInputModel::Encoded {
                encoded: encoded@,
                parsed: parsed.deep_view(),
            }),
        },
        signature.deep_view().protected == signature.protected@,
        signature.deep_view().signature == signature.signature@,
        signature.deep_view().header == signature.header.deep_view(),
        signed.deep_view().protected_b64 == signed.protected_b64@,
        signed.deep_view().protected == signed.protected,
        signed.deep_view().signature_b64 == signed.signature_b64@,
        signed.deep_view().header == signed.header.deep_view(),
        envelope.deep_view().format == envelope.format,
        envelope.deep_view().payload_b64 == envelope.payload_b64@,
        envelope.deep_view().payload == envelope.payload,
        envelope.deep_view().signatures == envelope.signatures.deep_view(),
{
}

/// The models of what a wallet is set up with have the members of what it is set up with.
pub proof fn lemma_parts_of_settings(
    config: OpenId4VpConfig,
    options: PlanOptions,
    payment: PaymentScaTypeConfig,
    field: CredentialFieldConfig,
    icon: IconConfig,
    claim: Ts12ClaimMetadata,
    metadata: Ts12TransactionMetadata,
)
    ensures
        config.deep_view().enabled == config.enabled,
        config.deep_view().supported_request_protocols
            == config.supported_request_protocols.deep_view(),
        config.deep_view().supported_response_modes == config.supported_response_modes.deep_view(),
        config.deep_view().supported_response_types == config.supported_response_types.deep_view(),
        config.deep_view().supported_query_methods == config.supported_query_methods.deep_view(),
        config.deep_view().supported_request_parameters
            == config.supported_request_parameters.deep_view(),
        options.deep_view().credential_set_option_mode == options.credential_set_option_mode,
        options.deep_view().optional_credential_sets_mode == options.optional_credential_sets_mode,
        options.deep_view().ts12_prefixes == options.ts12_prefixes.deep_view(),
        payment.deep_view().data_type == payment.data_type@,
        payment.deep_view().payee == payment.payee.deep_view(),
        payment.deep_view().amount == payment.amount.deep_view(),
        payment.deep_view().additional_info == payment.additional_info.deep_view(),
        field.deep_view().path == field.path.deep_view(),
        field.deep_view().display_name == field.display_name@,
        field.deep_view().display_value == field.display_value.deep_view(),
        match icon {
            IconConfig::Bytes(bytes) => icon.deep_view() == IconModel::Bytes(bytes@),
            IconConfig::Base64(text) => icon.deep_view() == IconModel::Base64(text@),
        },
        claim.deep_view().path == claim.path.deep_view(),
        claim.deep_view().mandatory == claim.mandatory,
        claim.deep_view().value_type == claim.value_type.deep_view(),
        claim.deep_view().displayable == claim.displayable,
        metadata.deep_view().data_type.data_type == metadata.data_type.data_type@,
        metadata.deep_view().claims == metadata.claims.deep_view(),
{
}

/// The models of what is chosen, and of the summary of a payment, have the members of what they are
/// models of.
pub proof fn lemma_parts_of_results<C: DeepView>(
    selection: CredentialSelection<C>,
    summary: Ts12PaymentSummary,
)
    ensures
        selection.deep_view().dcql_id == selection.dcql_id@,
        selection.deep_view().credential_id == selection.credential_id.deep_view(),
        selection.deep_view().selected_claims == selection.selected_claims.deep_view(),
        selection.deep_view().transaction_data_ids.len() == selection.transaction_data_ids.len(),
        forall|k: int|
            0 <= k < selection.transaction_data_ids.len()
                ==> #[trigger] selection.transaction_data_ids@[k]
                == selection.deep_view().transaction_data_ids[k],
        summary.deep_view().merchant_name == summary.merchant_name@,
        summary.deep_view().transaction_amount == summary.transaction_amount@,
        summary.deep_view().additional_info == summary.additional_info.deep_view(),
{
}

/// The model of an error is the same error, with the same members.
pub proof fn lemma_errors(error: MatcherError)
    ensures
        match error {
            MatcherError::InvalidBase64(own) => error.deep_view()
                == MatcherErrorModel::InvalidBase64(own),
            MatcherError::Dcql(PlanError::Unsatisfied) => error.deep_view()
                == MatcherErrorModel::Dcql(PlanErrorModel::Unsatisfied),
            MatcherError::Dcql(PlanError::InvalidQuery(reason)) => error.deep_view()
                == MatcherErrorModel::Dcql(PlanErrorModel::InvalidQuery(reason@)),
            MatcherError::InvalidOpenId4Vp(own) => error.deep_view()
                == MatcherErrorModel::InvalidOpenId4Vp(
                match own {
                    OpenId4VpError::Json { message } => OpenId4VpErrorModel::Json {
                        message: message@,
                    },
                    OpenId4VpError::SignedRequestMalformed { protocol } =>
                        OpenId4VpErrorModel::SignedRequestMalformed { protocol: protocol@ },
                    OpenId4VpError::SignedPayloadNotSupported { protocol, message } =>
                        OpenId4VpErrorModel::SignedPayloadNotSupported {
                        protocol: protocol@,
                        message: message@,
                    },
                    OpenId4VpError::SignedRequestUnverified { protocol } =>
                        OpenId4VpErrorModel::SignedRequestUnverified { protocol: protocol@ },
                    OpenId4VpError::ExpectedOriginsMissing { protocol } =>
                        OpenId4VpErrorModel::ExpectedOriginsMissing { protocol: protocol@ },
                    OpenId4VpError::OriginMissing { protocol } =>
                        OpenId4VpErrorModel::OriginMissing { protocol: protocol@ },
                    OpenId4VpError::OriginMismatch { protocol, origin } =>
                        OpenId4VpErrorModel::OriginMismatch {
                        protocol: protocol@,
                        origin: origin@,
                    },
                },
            ),
        },
{
}

/// The model of a request of the Digital Credentials API is of the same protocol, and has the same
/// parts.
pub proof fn lemma_requests_of_an_api_call(item: DcApiRequestItem)
    ensures
        match item {
            DcApiRequestItem::OpenId4VpUnsigned { request } => item.deep_view()
                == (ItemModel::Unsigned { request: result_view(request) }),
            DcApiRequestItem::OpenId4VpSigned { data, request } => item.deep_view()
                == (ItemModel::Signed { compact: data.request@, request: result_view(request) }),
            DcApiRequestItem::OpenId4VpMultiSigned { data, request } => item.deep_view()
                == (ItemModel::MultiSigned {
                payload: data.payload@,
                signatures: data.signatures.deep_view(),
                request: result_view(request),
            }),
            DcApiRequestItem::Unknown => item.deep_view() is Unknown,
        },
{
}

/// The model of what a credential query matches has the members of what it matches.
pub proof fn lemma_matches<C: DeepView>(matches: QueryMatches<C>)
    ensures
        matches.deep_view().id == matches.id@,
        matches.deep_view().format == matches.format,
        matches.deep_view().meta == matches.meta.deep_view(),
        matches.deep_view().multiple == matches.multiple,
        matches.deep_view().require_holder_binding == matches.require_holder_binding,
        matches.deep_view().trusted_authorities == matches.trusted_authorities.deep_view(),
        matches.deep_view().selected_claims == matches.selected_claims.deep_view(),
        matches.deep_view().credentials == matches.credentials.deep_view(),
{
}

/// The message of an error tells an invalid query, with the reason, from one that is unsatisfied.
pub proof fn lemma_messages(reason: Text)
    ensures
        PlanErrorModel::InvalidQuery(reason).message().len() == "invalid dcql query: "@.len()
            + reason.len(),
        PlanErrorModel::InvalidQuery(reason).message().take("invalid dcql query: "@.len() as int)
            == "invalid dcql query: "@,
        PlanErrorModel::InvalidQuery(reason).message().skip("invalid dcql query: "@.len() as int)
            == reason,
        PlanErrorModel::Unsatisfied.message()
            == "unsatisfied dcql query: no credential combination satisfies all credential and transaction_data constraints"@,
{
    let start = "invalid dcql query: "@;
    assert((start + reason).take(start.len() as int) =~= start);
    assert((start + reason).skip(start.len() as int) =~= reason);
}

} // verus!
