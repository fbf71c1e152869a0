//! Requests, as they reach the matcher.

use crate::json::{JsonModel, JsonValue};
use crate::models::{DcqlQuery, DcqlQueryModel, TransactionData, TransactionDataModel};
use crate::text::Text;
use vstd::prelude::*;

verus! {

/// `serde_json::Value`, carried as it is.
#[verifier::external_type_specification]
#[verifier::external_body]
pub struct ExJsonDocument(serde_json::Value);

/// One transaction data entry of a request.
#[derive(Debug)]
pub enum TransactionDataInput {
    /// The entry is an object.
    Decoded(TransactionData),
    /// The entry is base64url text.
    Encoded {
        /// The text.
        encoded: String,
        /// The transaction data that the decoded bytes hold as JSON, if they do.
        parsed: Option<TransactionData>,
    },
}

/// Model of [`TransactionDataInput`].
pub enum TransactionDataInputModel {
    Decoded(TransactionDataModel),
    Encoded { encoded: Text, parsed: Option<TransactionDataModel> },
}

impl DeepView for TransactionDataInput {
    type V = TransactionDataInputModel;

    open spec fn deep_view(&self) -> TransactionDataInputModel {
        match *self {
            TransactionDataInput::Decoded(data) => TransactionDataInputModel::Decoded(
                data.deep_view(),
            ),
            TransactionDataInput::Encoded { encoded, parsed } =>
                TransactionDataInputModel::Encoded {
                encoded: encoded@,
                parsed: parsed.deep_view(),
            },
        }
    }
}

/// An OpenID4VP authorization request.
#[derive(Debug)]
pub struct OpenId4VpRequest {
    /// Response mode.
    pub response_mode: Option<String>,
    /// Response type.
    pub response_type: Option<String>,
    /// DCQL query.
    pub dcql_query: Option<DcqlQuery>,
    /// Transaction data entries.
    pub transaction_data: Option<Vec<TransactionDataInput>>,
    /// Further members, in the order of the object.
    pub extra: Vec<(String, JsonValue)>,
}

/// Model of [`OpenId4VpRequest`].
pub struct OpenId4VpRequestModel {
    pub response_mode: Option<Text>,
    pub response_type: Option<Text>,
    pub dcql_query: Option<DcqlQueryModel>,
    pub transaction_data: Option<Seq<TransactionDataInputModel>>,
    pub extra: Seq<(Text, JsonModel)>,
}

impl DeepView for OpenId4VpRequest {
    type V = OpenId4VpRequestModel;

    open spec fn deep_view(&self) -> OpenId4VpRequestModel {
        OpenId4VpRequestModel {
            response_mode: self.response_mode.deep_view(),
            response_type: self.response_type.deep_view(),
            dcql_query: self.dcql_query.deep_view(),
            transaction_data: self.transaction_data.deep_view(),
            extra: self.extra.deep_view(),
        }
    }
}

/// A signed request in compact form.
#[derive(Debug)]
pub struct OpenId4VpSignedData {
    /// Header, payload and signature, joined by points.
    pub request: String,
}

/// One signature of a request with several.
#[derive(Debug)]
pub struct OpenId4VpSignature {
    /// Protected header, base64url.
    pub protected: String,
    /// Signature, base64url.
    pub signature: String,
    /// Unprotected header.
    pub header: Option<JsonValue>,
}

/// Model of [`OpenId4VpSignature`].
pub struct SignatureModel {
    pub protected: Text,
    pub signature: Text,
    pub header: Option<JsonModel>,
}

impl DeepView for OpenId4VpSignature {
    type V = SignatureModel;

    open spec fn deep_view(&self) -> SignatureModel {
        SignatureModel {
            protected: self.protected@,
            signature: self.signature@,
            header: self.header.deep_view(),
        }
    }
}

/// A request with several signatures.
#[derive(Debug)]
pub struct OpenId4VpMultiSignedData {
    /// Payload, base64url.
    pub payload: String,
    /// The signatures.
    pub signatures: Vec<OpenId4VpSignature>,
}

/// How a signed request was written down.
#[derive(Debug, Clone, Copy, PartialEq, Eq, Structural)]
pub enum OpenId4VpSignedFormat {
    /// As header, payload and signature joined by points.
    Compact,
    /// As a JSON object.
    Json,
}

/// One signature of a decoded signed request.
#[derive(Debug)]
pub struct OpenId4VpSignedSignature {
    /// Protected header, base64url.
    pub protected_b64: String,
    /// Protected header.
    pub protected: serde_json::Value,
    /// Signature, base64url.
    pub signature_b64: String,
    /// Unprotected header.
    pub header: Option<JsonValue>,
}

/// Model of [`OpenId4VpSignedSignature`].
pub struct SignedSignatureModel {
    pub protected_b64: Text,
    pub protected: serde_json::Value,
    pub signature_b64: Text,
    pub header: Option<JsonModel>,
}

impl DeepView for OpenId4VpSignedSignature {
    type V = SignedSignatureModel;

    open spec fn deep_view(&self) -> SignedSignatureModel {
        SignedSignatureModel {
            protected_b64: self.protected_b64@,
            protected: self.protected,
            signature_b64: self.signature_b64@,
            header: self.header.deep_view(),
        }
    }
}

/// A decoded signed request.
#[derive(Debug)]
pub struct OpenId4VpSignedEnvelope {
    /// How the request was written down.
    pub format: OpenId4VpSignedFormat,
    /// Payload, base64url.
    pub payload_b64: String,
    /// Payload.
    pub payload: serde_json::Value,
    /// The signatures.
    pub signatures: Vec<OpenId4VpSignedSignature>,
}

/// Model of [`OpenId4VpSignedEnvelope`].
pub struct EnvelopeModel {
    pub format: OpenId4VpSignedFormat,
    pub payload_b64: Text,
    pub payload: serde_json::Value,
    pub signatures: Seq<SignedSignatureModel>,
}

impl DeepView for OpenId4VpSignedEnvelope {
    type V = EnvelopeModel;

    open spec fn deep_view(&self) -> EnvelopeModel {
        EnvelopeModel {
            format: self.format,
            payload_b64: self.payload_b64@,
            payload: self.payload,
            signatures: self.signatures.deep_view(),
        }
    }
}

} // verus!
