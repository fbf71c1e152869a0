//! The contract between the matcher and a wallet.

use crate::c8::C8Text;
use crate::json::{JsonModel, JsonValue};
use crate::matcher::config::{OpenId4VpConfig, OpenId4VpConfigModel};
use crate::matcher::request::{EnvelopeModel, OpenId4VpSignedEnvelope};
use crate::models::{ClaimsQuery, TransactionData, TransactionDataModel};
use crate::path::{ClaimsPathPointer, PathModel};
use crate::store::{CredentialStore, RefModel};
use crate::text::Text;
use crate::ts12::metadata::{Ts12MetadataModel, Ts12TransactionMetadata};
use vstd::prelude::*;

verus! {

/// Context for building the entry of one candidate.
#[derive(Debug)]
pub struct DcqlSelectionContext<'a> {
    /// DCQL credential query id.
    pub query_id: &'a str,
    /// Claim constraints selected for this query.
    pub selected_claims: &'a [ClaimsQuery],
    /// Transaction data decoded from the request.
    pub transaction_data: &'a [TransactionData],
    /// For each transaction data its index in the request.
    pub request_indices: &'a [usize],
    /// The transaction data that is bound to this query id in the selected alternative.
    pub transaction_data_indices: &'a [usize],
}

/// Severity of a diagnostic.
#[derive(Debug, Clone, Copy, PartialEq, Eq, Structural)]
pub enum LogLevel {
    Trace,
    Debug,
    Info,
    Warn,
    Error,
}

/// Payment rendering summary for TS12 flows.
#[derive(Debug)]
pub struct Ts12PaymentSummary {
    /// Merchant/payee name shown in payment UI.
    pub merchant_name: C8Text,
    /// Transaction amount string shown in payment UI.
    pub transaction_amount: C8Text,
    /// Optional extra context for payment UI.
    pub additional_info: Option<C8Text>,
}

/// Model of [`Ts12PaymentSummary`].
pub struct SummaryModel {
    pub merchant_name: Text,
    pub transaction_amount: Text,
    pub additional_info: Option<Text>,
}

impl DeepView for Ts12PaymentSummary {
    type V = SummaryModel;

    open spec fn deep_view(&self) -> SummaryModel {
        SummaryModel {
            merchant_name: self.merchant_name@,
            transaction_amount: self.transaction_amount@,
            additional_info: self.additional_info.deep_view(),
        }
    }
}

/// What a wallet knows of its credentials besides what a query asks for: how they are displayed,
/// and what they are available for.
///
/// Like a [`CredentialStore`] it is read only while a request is matched, and the specification
/// functions name its answers.
pub trait MatcherStore: CredentialStore {
    /// The answer of [`MatcherStore::credential_id`].
    closed spec fn id_of(&self, cred: RefModel<Self>) -> Text {
        arbitrary()
    }

    /// The answer of [`MatcherStore::credential_title`].
    closed spec fn title_of(&self, cred: RefModel<Self>) -> Text {
        arbitrary()
    }

    /// The answer of [`MatcherStore::credential_icon`].
    closed spec fn icon_of(&self, cred: RefModel<Self>) -> Option<Seq<u8>> {
        arbitrary()
    }

    /// The answer of [`MatcherStore::credential_subtitle`].
    closed spec fn subtitle_of(&self, cred: RefModel<Self>) -> Option<Text> {
        arbitrary()
    }

    /// The answer of [`MatcherStore::credential_disclaimer`].
    closed spec fn disclaimer_of(&self, cred: RefModel<Self>) -> Option<Text> {
        arbitrary()
    }

    /// The answer of [`MatcherStore::credential_warning`].
    closed spec fn warning_of(&self, cred: RefModel<Self>) -> Option<Text> {
        arbitrary()
    }

    /// The answer of [`MatcherStore::get_credential_field_label`].
    closed spec fn label_of(&self, cred: RefModel<Self>, path: PathModel) -> Option<Text> {
        arbitrary()
    }

    /// The answer of [`MatcherStore::get_credential_field_value`].
    closed spec fn value_of(&self, cred: RefModel<Self>, path: PathModel) -> Option<Text> {
        arbitrary()
    }

    /// The answer of [`MatcherStore::supports_protocol`].
    closed spec fn is_available(&self, cred: RefModel<Self>, protocol: Text) -> bool {
        arbitrary()
    }

    /// The answer of [`MatcherStore::verify_openid4vp_signed_request`].
    closed spec fn is_verified(&self, protocol: Text, request: EnvelopeModel) -> bool {
        arbitrary()
    }

    /// The answer of [`MatcherStore::openid4vp_config`].
    closed spec fn capabilities(&self) -> OpenId4VpConfigModel {
        arbitrary()
    }

    /// The answer of [`MatcherStore::log_level`].
    closed spec fn log_level_of(&self) -> Option<LogLevel> {
        arbitrary()
    }

    /// The answer of [`MatcherStore::ts12_transaction_metadata`].
    closed spec fn ts12_metadata_of(
        &self,
        cred: RefModel<Self>,
        data: TransactionDataModel,
    ) -> Option<Ts12MetadataModel> {
        arbitrary()
    }

    /// The answer of [`MatcherStore::ts12_payment_summary`].
    closed spec fn ts12_summary_of(
        &self,
        cred: RefModel<Self>,
        data: TransactionDataModel,
        payload: JsonModel,
        metadata: Ts12MetadataModel,
    ) -> Option<SummaryModel> {
        arbitrary()
    }

    /// Credential selection id returned to host.
    fn credential_id(&self, cred: &Self::CredentialRef) -> (id: C8Text)
        ensures
            id@ == self.id_of(cred.deep_view()),
    ;

    /// Entry title.
    fn credential_title(&self, cred: &Self::CredentialRef) -> (title: C8Text)
        ensures
            title@ == self.title_of(cred.deep_view()),
    ;

    /// Optional icon bytes.
    fn credential_icon(&self, cred: &Self::CredentialRef) -> (icon: Option<Vec<u8>>)
        ensures
            icon.deep_view() == self.icon_of(cred.deep_view()),
    ;

    /// Optional subtitle.
    fn credential_subtitle(&self, cred: &Self::CredentialRef) -> (subtitle: Option<C8Text>)
        ensures
            subtitle.deep_view() == self.subtitle_of(cred.deep_view()),
    ;

    /// Optional disclaimer.
    fn credential_disclaimer(&self, cred: &Self::CredentialRef) -> (disclaimer: Option<C8Text>)
        ensures
            disclaimer.deep_view() == self.disclaimer_of(cred.deep_view()),
    ;

    /// Optional warning.
    fn credential_warning(&self, cred: &Self::CredentialRef) -> (warning: Option<C8Text>)
        ensures
            warning.deep_view() == self.warning_of(cred.deep_view()),
    ;

    /// Optional display field label for a claim path. There is none when the path includes
    /// wildcards.
    fn get_credential_field_label(
        &self,
        cred: &Self::CredentialRef,
        path: &ClaimsPathPointer,
    ) -> (label: Option<C8Text>)
        ensures
            label.deep_view() == self.label_of(cred.deep_view(), path.deep_view()),
    ;

    /// Optional display field value for a claim path. There is none when the path includes
    /// wildcards.
    fn get_credential_field_value(
        &self,
        cred: &Self::CredentialRef,
        path: &ClaimsPathPointer,
    ) -> (value: Option<C8Text>)
        ensures
            value.deep_view() == self.value_of(cred.deep_view(), path.deep_view()),
    ;

    /// Whether this credential is available for a protocol.
    fn supports_protocol(&self, cred: &Self::CredentialRef, protocol: &str) -> (supports: bool)
        ensures
            supports == self.is_available(cred.deep_view(), protocol@),
    ;

    /// Verifies a signed OpenID4VP request: whether its signatures are verified under a supported
    /// trust framework.
    fn verify_openid4vp_signed_request(
        &self,
        protocol: &str,
        request: &OpenId4VpSignedEnvelope,
    ) -> (verified: bool)
        ensures
            verified == self.is_verified(protocol@, request.deep_view()),
    ;

    /// Wallet-level OpenID4VP support configuration.
    fn openid4vp_config(&self) -> (config: OpenId4VpConfig)
        ensures
            config.deep_view() == self.capabilities(),
    ;

    /// Logging level for matcher diagnostics. `None` disables logging.
    fn log_level(&self) -> (level: Option<LogLevel>)
        ensures
            level == self.log_level_of(),
    ;

    /// Resolved TS12 transaction metadata for payload compatibility.
    ///
    /// There is none when the credential does not support the type of the transaction data.
    fn ts12_transaction_metadata(
        &self,
        cred: &Self::CredentialRef,
        transaction_data: &TransactionData,
    ) -> (metadata: Option<Ts12TransactionMetadata>)
        ensures
            metadata.deep_view() == self.ts12_metadata_of(
                cred.deep_view(),
                transaction_data.deep_view(),
            ),
    ;

    /// Optional payment summary for TS12 flows. Where there is one, the credential is rendered as
    /// a payment entry for the transaction data.
    fn ts12_payment_summary(
        &self,
        cred: &Self::CredentialRef,
        transaction_data: &TransactionData,
        payload: &JsonValue,
        metadata: &Ts12TransactionMetadata,
    ) -> (summary: Option<Ts12PaymentSummary>)
        ensures
            summary.deep_view() == self.ts12_summary_of(
                cred.deep_view(),
                transaction_data.deep_view(),
                payload.deep_view(),
                metadata.deep_view(),
            ),
    ;
}

} // verus!
