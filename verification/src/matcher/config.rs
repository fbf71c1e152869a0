//! What a wallet supports.

use crate::text::{contains_text, Text};
use vstd::prelude::*;

verus! {

broadcast use vstd::string::group_string_axioms;

/// Protocol of OpenID4VP requests, without a version.
pub const PROTOCOL_OPENID4VP: &'static str = "openid4vp";

/// Protocol of unsigned OpenID4VP requests.
pub const PROTOCOL_OPENID4VP_V1_UNSIGNED: &'static str = "openid4vp-v1-unsigned";

/// Protocol of signed OpenID4VP requests.
pub const PROTOCOL_OPENID4VP_V1_SIGNED: &'static str = "openid4vp-v1-signed";

/// Protocol of OpenID4VP requests with several signatures.
pub const PROTOCOL_OPENID4VP_V1_MULTISIGNED: &'static str = "openid4vp-v1-multisigned";

/// Response mode of the Digital Credentials API.
pub const RESPONSE_MODE_DC_API: &'static str = "dc_api";

/// Response mode of the Digital Credentials API with encrypted responses.
pub const RESPONSE_MODE_DC_API_JWT: &'static str = "dc_api.jwt";

/// Response type of presentations.
pub const RESPONSE_TYPE_VP_TOKEN: &'static str = "vp_token";

/// Query method DCQL.
pub const QUERY_METHOD_DCQL_QUERY: &'static str = "dcql_query";

/// Request parameter for transaction data.
pub const REQUEST_PARAMETER_TRANSACTION_DATA: &'static str = "transaction_data";

/// Wallet-supported OpenID4VP capabilities.
#[derive(Debug)]
pub struct OpenId4VpConfig {
    /// Whether OpenID4VP requests are supported at all.
    pub enabled: bool,
    /// DC API protocol variants supported by this matcher.
    pub supported_request_protocols: Vec<String>,
    /// OpenID4VP response modes supported by this matcher.
    pub supported_response_modes: Vec<String>,
    /// OpenID4VP response types supported by this matcher when present.
    pub supported_response_types: Vec<String>,
    /// Query mechanisms supported by this matcher.
    pub supported_query_methods: Vec<String>,
    /// Extra request parameters supported by this matcher.
    pub supported_request_parameters: Vec<String>,
}

/// Model of [`OpenId4VpConfig`].
pub struct OpenId4VpConfigModel {
    pub enabled: bool,
    pub supported_request_protocols: Seq<Text>,
    pub supported_response_modes: Seq<Text>,
    pub supported_response_types: Seq<Text>,
    pub supported_query_methods: Seq<Text>,
    pub supported_request_parameters: Seq<Text>,
}

impl DeepView for OpenId4VpConfig {
    type V = OpenId4VpConfigModel;

    open spec fn deep_view(&self) -> OpenId4VpConfigModel {
        OpenId4VpConfigModel {
            enabled: self.enabled,
            supported_request_protocols: self.supported_request_protocols.deep_view(),
            supported_response_modes: self.supported_response_modes.deep_view(),
            supported_response_types: self.supported_response_types.deep_view(),
            supported_query_methods: self.supported_query_methods.deep_view(),
            supported_request_parameters: self.supported_request_parameters.deep_view(),
        }
    }
}

/// Copies a list of texts.
pub fn clone_texts(texts: &Vec<String>) -> (copy: Vec<String>)
    ensures
        copy.deep_view() == texts.deep_view(),
{
    let copy = texts.clone();
    assert(copy.deep_view() =~= texts.deep_view());
    copy
}

impl Clone for OpenId4VpConfig {
    fn clone(&self) -> (copy: OpenId4VpConfig)
        ensures
            copy.deep_view() == self.deep_view(),
    {
        OpenId4VpConfig {
            enabled: self.enabled,
            supported_request_protocols: clone_texts(&self.supported_request_protocols),
            supported_response_modes: clone_texts(&self.supported_response_modes),
            supported_response_types: clone_texts(&self.supported_response_types),
            supported_query_methods: clone_texts(&self.supported_query_methods),
            supported_request_parameters: clone_texts(&self.supported_request_parameters),
        }
    }
}

/// Nothing is supported.
pub open spec fn nothing_supported() -> OpenId4VpConfigModel {
    OpenId4VpConfigModel {
        enabled: false,
        supported_request_protocols: Seq::empty(),
        supported_response_modes: Seq::empty(),
        supported_response_types: Seq::empty(),
        supported_query_methods: Seq::empty(),
        supported_request_parameters: Seq::empty(),
    }
}

fn no_texts() -> (texts: Vec<String>)
    ensures
        texts.deep_view() == Seq::<Text>::empty(),
{
    let texts: Vec<String> = Vec::new();
    assert(texts.deep_view() =~= Seq::<Text>::empty());
    texts
}

fn one_text(text: &str) -> (texts: Vec<String>)
    ensures
        texts.deep_view() == seq![text@],
{
    let texts = vec![text.to_owned()];
    assert(texts.deep_view() =~= seq![text@]);
    texts
}

impl Default for OpenId4VpConfig {
    fn default() -> (config: OpenId4VpConfig)
        ensures
            config.deep_view() == nothing_supported(),
    {
        OpenId4VpConfig {
            enabled: false,
            supported_request_protocols: no_texts(),
            supported_response_modes: no_texts(),
            supported_response_types: no_texts(),
            supported_query_methods: no_texts(),
            supported_request_parameters: no_texts(),
        }
    }
}

impl OpenId4VpConfig {
    /// Returns a configuration with all features disabled.
    pub fn disabled() -> (config: OpenId4VpConfig)
        ensures
            config.deep_view() == nothing_supported(),
    {
        OpenId4VpConfig::default()
    }

    /// Returns base OpenID4VP 1.0 DC API support.
    pub fn openid4vp1() -> (config: OpenId4VpConfig)
        ensures
            config.deep_view() == (OpenId4VpConfigModel {
                enabled: true,
                supported_request_protocols: seq![PROTOCOL_OPENID4VP_V1_UNSIGNED@],
                supported_response_modes: seq![RESPONSE_MODE_DC_API@],
                supported_response_types: seq![RESPONSE_TYPE_VP_TOKEN@],
                supported_query_methods: seq![QUERY_METHOD_DCQL_QUERY@],
                supported_request_parameters: seq![REQUEST_PARAMETER_TRANSACTION_DATA@],
            }),
    {
        OpenId4VpConfig {
            enabled: true,
            supported_request_protocols: one_text(PROTOCOL_OPENID4VP_V1_UNSIGNED),
            supported_response_modes: one_text(RESPONSE_MODE_DC_API),
            supported_response_types: one_text(RESPONSE_TYPE_VP_TOKEN),
            supported_query_methods: one_text(QUERY_METHOD_DCQL_QUERY),
            supported_request_parameters: one_text(REQUEST_PARAMETER_TRANSACTION_DATA),
        }
    }

    /// Whether requests of this protocol are supported.
    pub fn supports_request_protocol(&self, protocol: &str) -> (supports: bool)
        ensures
            supports == self.deep_view().supported_request_protocols.contains(protocol@),
    {
        contains_capability(&self.supported_request_protocols, protocol)
    }

    /// Whether this response mode is supported.
    pub fn supports_response_mode(&self, response_mode: &str) -> (supports: bool)
        ensures
            supports == self.deep_view().supported_response_modes.contains(response_mode@),
    {
        contains_capability(&self.supported_response_modes, response_mode)
    }

    /// Whether this response type is supported.
    pub fn supports_response_type(&self, response_type: &str) -> (supports: bool)
        ensures
            supports == self.deep_view().supported_response_types.contains(response_type@),
    {
        contains_capability(&self.supported_response_types, response_type)
    }

    /// Whether this query method is supported.
    pub fn supports_query_method(&self, query_method: &str) -> (supports: bool)
        ensures
            supports == self.deep_view().supported_query_methods.contains(query_method@),
    {
        contains_capability(&self.supported_query_methods, query_method)
    }

    /// Whether this request parameter is supported.
    pub fn supports_request_parameter(&self, parameter: &str) -> (supports: bool)
        ensures
            supports == self.deep_view().supported_request_parameters.contains(parameter@),
    {
        contains_capability(&self.supported_request_parameters, parameter)
    }
}

/// Whether `values` holds `value`.
fn contains_capability(values: &Vec<String>, value: &str) -> (found: bool)
    ensures
        found == values.deep_view().contains(value@),
{
    let listed = values.as_slice();
    assert(listed.deep_view() =~= values.deep_view());
    contains_text(listed, value)
}

} // verus!
