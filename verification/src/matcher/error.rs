//! Matching errors.

use crate::base64url::Base64Error;
use crate::planner::error::{PlanError, PlanErrorModel};
use crate::text::Text;
use vstd::prelude::*;

verus! {

/// What is wrong with an OpenID4VP request.
#[derive(Debug)]
pub enum OpenId4VpError {
    /// The request is not what the protocol asks for.
    Json { message: String },
    /// The signed request does not have its parts.
    SignedRequestMalformed { protocol: String },
    /// A part of the signed request is not what the protocol asks for.
    SignedPayloadNotSupported { protocol: String, message: String },
    /// The signatures were not verified.
    SignedRequestUnverified { protocol: String },
    /// The signed request does not say which origins it is for.
    ExpectedOriginsMissing { protocol: String },
    /// The caller has no origin.
    OriginMissing { protocol: String },
    /// The signed request is for other origins.
    OriginMismatch { protocol: String, origin: String },
}

/// Model of [`OpenId4VpError`].
pub enum OpenId4VpErrorModel {
    Json { message: Text },
    SignedRequestMalformed { protocol: Text },
    SignedPayloadNotSupported { protocol: Text, message: Text },
    SignedRequestUnverified { protocol: Text },
    ExpectedOriginsMissing { protocol: Text },
    OriginMissing { protocol: Text },
    OriginMismatch { protocol: Text, origin: Text },
}

impl DeepView for OpenId4VpError {
    type V = OpenId4VpErrorModel;

    open spec fn deep_view(&self) -> OpenId4VpErrorModel {
        match *self {
            OpenId4VpError::Json { message } => OpenId4VpErrorModel::Json { message: message@ },
            OpenId4VpError::SignedRequestMalformed { protocol } =>
                OpenId4VpErrorModel::SignedRequestMalformed { protocol: protocol@ },
            OpenId4VpError::SignedPayloadNotSupported { protocol, message } =>
                OpenId4VpErrorModel::SignedPayloadNotSupported {
                protocol: protocol@,
                message: message@,
            },
            OpenId4VpError::SignedRequestUnverified { protocol } =>
                OpenId4VpErrorModel::SignedRequestUnverified { protocol: protocol@ },
            OpenId4VpError::ExpectedOriginsMissing { protocol } =>
                OpenId4VpErrorModel::ExpectedOriginsMissing { protocol: protocol@ },
            OpenId4VpError::OriginMissing { protocol } => OpenId4VpErrorModel::OriginMissing {
                protocol: protocol@,
            },
            OpenId4VpError::OriginMismatch { protocol, origin } =>
                OpenId4VpErrorModel::OriginMismatch { protocol: protocol@, origin: origin@ },
        }
    }
}

/// Why a request cannot be matched.
#[derive(Debug)]
pub enum MatcherError {
    /// A part of a signed request is not base64url.
    InvalidBase64(Base64Error),
    /// The OpenID4VP request is faulty.
    InvalidOpenId4Vp(OpenId4VpError),
    /// The DCQL query cannot be planned.
    Dcql(PlanError),
}

/// Model of [`MatcherError`].
pub enum MatcherErrorModel {
    InvalidBase64(Base64Error),
    InvalidOpenId4Vp(OpenId4VpErrorModel),
    Dcql(PlanErrorModel),
}

impl DeepView for MatcherError {
    type V = MatcherErrorModel;

    open spec fn deep_view(&self) -> MatcherErrorModel {
        match *self {
            MatcherError::InvalidBase64(error) => MatcherErrorModel::InvalidBase64(error),
            MatcherError::InvalidOpenId4Vp(error) => MatcherErrorModel::InvalidOpenId4Vp(
                error.deep_view(),
            ),
            MatcherError::Dcql(error) => MatcherErrorModel::Dcql(error.deep_view()),
        }
    }
}

} // verus!
