use dcapi_matcher::c8::C8Text;
use dcapi_matcher::json::{JsonNumber, JsonValue};
use dcapi_matcher::matcher::config::OpenId4VpConfig;
use dcapi_matcher::matcher::engine::{match_dc_api_request, DcApiRequestItem, MatcherOptions};
use dcapi_matcher::matcher::entries::CredentialEntry;
use dcapi_matcher::matcher::request::OpenId4VpRequest;
use dcapi_matcher::matcher::store::{LogLevel, MatcherStore};
use dcapi_matcher::models::{
    ClaimValue, ClaimsQuery, CredentialQuery, CredentialQueryCommon, CredentialSetQuery, DcqlQuery,
    IsoMdocMeta, NonEmptyVec, TransactionData,
};
use dcapi_matcher::package::config::{
    CredentialConfig, CredentialFieldConfig, IconConfig, PackageConfig, PaymentScaTypeConfig,
    Ts12ClaimConfig, Ts12MetadataConfig,
};
use dcapi_matcher::package::layout::{
    configurations_by_type, configurations_from_list, is_displayable,
};
use dcapi_matcher::package::store::PackageStore;
use dcapi_matcher::path::{path_from_json, pointer_from_strings, ClaimsPathPointer, PathElement};
use dcapi_matcher::planner::options::{
    CredentialSetOptionMode, OptionalCredentialSetsMode, PlanOptions,
};
use dcapi_matcher::store::{CredentialFormat, CredentialStore, ValueMatch};
use serde_json::Value;

fn to_json(value: &Value) -> JsonValue {
    match value {
        Value::Null => JsonValue::Null,
        Value::Bool(value) => JsonValue::Bool(*value),
        Value::Number(number) => JsonValue::Number(if let Some(value) = number.as_u64() {
            JsonNumber::PosInt(value)
        } else if let Some(value) = number.as_i64() {
            JsonNumber::NegInt(value)
        } else {
            JsonNumber::Float(number.to_string())
        }),
        Value::String(text) => JsonValue::String(text.clone()),
        Value::Array(items) => JsonValue::Array(items.iter().map(to_json).collect()),
        Value::Object(entries) => JsonValue::Object(
            entries
                .iter()
                .map(|(key, value)| (key.clone(), to_json(value)))
                .collect(),
        ),
    }
}

fn parse(text: &str) -> JsonValue {
    to_json(&serde_json::from_str::<Value>(text).expect("JSON"))
}

fn owned(value: Option<&JsonValue>) -> Option<String> {
    value.and_then(JsonValue::as_str).map(ToString::to_string)
}

fn c8(value: Option<&JsonValue>) -> Option<C8Text> {
    owned(value).map(|text| C8Text::from_string(text).expect("no NUL"))
}

fn flag(value: Option<&JsonValue>) -> Option<bool> {
    match value {
        Some(JsonValue::Bool(value)) => Some(*value),
        _ => None,
    }
}

fn items(value: Option<&JsonValue>) -> Vec<&JsonValue> {
    value
        .and_then(JsonValue::as_array)
        .map(|items| items.iter().collect())
        .unwrap_or_default()
}

fn strings(value: Option<&JsonValue>) -> Vec<String> {
    items(value)
        .into_iter()
        .map(|item| item.as_str().expect("string").to_string())
        .collect()
}

fn path_at(value: &JsonValue, key: &str) -> Option<ClaimsPathPointer> {
    value.get(key).and_then(path_from_json)
}

fn claim_config(value: &JsonValue) -> Option<Ts12ClaimConfig> {
    Some(Ts12ClaimConfig {
        path: path_at(value, "path")?,
        mandatory: flag(value.get("mandatory")).unwrap_or(false),
        value_type: owned(value.get("value_type")),
        displayable: value.get("display").map(is_displayable).unwrap_or(false),
    })
}

fn metadata_config(value: &JsonValue) -> Option<Ts12MetadataConfig> {
    Some(Ts12MetadataConfig {
        data_type: owned(value.get("type"))?,
        claims: value
            .get("claims")
            .map(|claims| configurations_from_list(claims.clone()))
            .unwrap_or_default()
            .iter()
            .filter_map(claim_config)
            .collect(),
    })
}

fn payment_config(value: &JsonValue) -> Option<PaymentScaTypeConfig> {
    Some(PaymentScaTypeConfig {
        data_type: owned(value.get("type"))?,
        payee: path_at(value, "payee")?,
        amount: path_at(value, "amount")?,
        additional_info: path_at(value, "additional_info"),
    })
}

fn field_config(value: &JsonValue) -> CredentialFieldConfig {
    CredentialFieldConfig {
        path: path_at(value, "path").expect("path"),
        display_name: c8(value.get("display_name")).expect("name"),
        display_value: c8(value.get("display_value")),
    }
}

fn credential_config(value: &JsonValue) -> CredentialConfig {
    CredentialConfig {
        id: c8(value.get("id")),
        format: owned(value.get("format")).expect("format"),
        title: c8(value.get("title")),
        subtitle: c8(value.get("subtitle")),
        disclaimer: c8(value.get("disclaimer")),
        warning: c8(value.get("warning")),
        fields: items(value.get("fields")).into_iter().map(field_config).collect(),
        metadata: value.get("metadata").cloned(),
        icon: owned(value.get("icon")).map(IconConfig::Base64),
        vcts: strings(value.get("vcts")),
        doctype: owned(value.get("doctype")),
        holder_binding: flag(value.get("holder_binding")),
        claims: value.get("claims").cloned(),
        transaction_data_types: value
            .get("transaction_data_types")
            .map(|types| configurations_by_type(types.clone()))
            .unwrap_or_default()
            .iter()
            .filter_map(metadata_config)
            .collect(),
    }
}

fn capabilities(value: &JsonValue) -> OpenId4VpConfig {
    OpenId4VpConfig {
        enabled: flag(value.get("enabled")).unwrap_or(false),
        supported_request_protocols: strings(value.get("supported_request_protocols")),
        supported_response_modes: strings(value.get("supported_response_modes")),
        supported_response_types: strings(value.get("supported_response_types")),
        supported_query_methods: strings(value.get("supported_query_methods")),
        supported_request_parameters: strings(value.get("supported_request_parameters")),
    }
}

fn plan_options(value: &JsonValue) -> PlanOptions {
    let mut options = PlanOptions::default();
    match value.get("credential_set_option_mode").and_then(JsonValue::as_str) {
        Some("first_satisfiable_only") => {
            options.credential_set_option_mode = CredentialSetOptionMode::FirstSatisfiableOnly;
        }
        Some("all_satisfiable") => {
            options.credential_set_option_mode = CredentialSetOptionMode::AllSatisfiable;
        }
        _ => {}
    }
    match value.get("optional_credential_sets_mode").and_then(JsonValue::as_str) {
        Some("prefer_present") => {
            options.optional_credential_sets_mode = OptionalCredentialSetsMode::PreferPresent;
        }
        Some("prefer_absent") => {
            options.optional_credential_sets_mode = OptionalCredentialSetsMode::PreferAbsent;
        }
        _ => {}
    }
    options
}

fn package(text: &str) -> PackageStore {
    let value = parse(text);
    let config = PackageConfig {
        default_id_prefix: owned(value.get("default_id_prefix")),
        openid4vp: value.get("openid4vp").map(capabilities).unwrap_or_default(),
        dcql: value.get("dcql").map(plan_options).unwrap_or_default(),
        payment_sca: value
            .get("payment_sca")
            .map(|mappings| configurations_by_type(mappings.clone()))
            .unwrap_or_default()
            .iter()
            .filter_map(payment_config)
            .collect(),
        log_level: match value.get("log_level").and_then(JsonValue::as_str) {
            Some("debug") => Some(LogLevel::Debug),
            Some("info") => Some(LogLevel::Info),
            _ => None,
        },
        credentials: items(value.get("credentials"))
            .into_iter()
            .map(credential_config)
            .collect(),
    };
    assert!(config.ids_are_usable());
    PackageStore::from_config(config)
}

fn transaction_data(text: &str) -> TransactionData {
    let JsonValue::Object(entries) = parse(text) else {
        panic!("transaction data is an object");
    };
    let value = JsonValue::Object(entries.clone());
    TransactionData {
        data_type: owned(value.get("type")).expect("type"),
        credential_ids: strings(value.get("credential_ids")),
        transaction_data_hashes_alg: owned(value.get("transaction_data_hashes_alg")),
        extra: entries
            .into_iter()
            .filter(|(key, _)| {
                !["type", "credential_ids", "transaction_data_hashes_alg"].contains(&key.as_str())
            })
            .collect(),
    }
}

fn package_payload() -> &'static str {
    r#"{"default_id_prefix":"cred-","openid4vp":{"enabled":true,"supported_request_protocols":["openid4vp-v1-unsigned","openid4vp-v1-signed","openid4vp-v1-multisigned"],"supported_response_modes":["dc_api","dc_api.jwt"],"supported_response_types":["vp_token"],"supported_query_methods":["dcql_query"],"supported_request_parameters":["transaction_data"]},"dcql":{"credential_set_option_mode":"first_satisfiable_only","optional_credential_sets_mode":"prefer_present"},"credentials":[{"id":"mdoc-1","format":"mso_mdoc","title":"Drivers License","subtitle":"Issued by Utopia","icon":"/9j/4AAQSkZJRgABAQEASABIAAD//gATQ3JlYXRlZCB3aXRoIEdJTVD/2wBDAAMCAgMCAgMDAwMEAwMEBQgFBQQEBQoHBwYIDAoMDAsKCwsNDhIQDQ4RDgsLEBYQERMUFRUVDA8XGBYUGBIUFRT/2wBDAQMEBAUEBQkFBQkUDQsNFBQUFBQUFBQUFBQUFBQUFBQUFBQUFBQUFBQUFBQUFBQUFBQUFBQUFBQUFBQUFBQUFBT/wgARCABLAGQDAREAAhEBAxEB/8QAFQABAQAAAAAAAAAAAAAAAAAAAAf/xAAWAQEBAQAAAAAAAAAAAAAAAAAABgj/2gAMAwEAAhADEAAAAZzC6pAAAAAAAAAAAAAAAAAAAAAAAAAAAAAAAAAAAAAAAAAAAAAAAAAAAAAAAAAAAAAAAAH/xAAUEAEAAAAAAAAAAAAAAAAAAABw/9oACAEBAAEFAgL/xAAUEQEAAAAAAAAAAAAAAAAAAABw/9oACAEDAQE/AQL/xAAUEQEAAAAAAAAAAAAAAAAAAABw/9oACAECAQE/AQL/xAAUEAEAAAAAAAAAAAAAAAAAAABw/9oACAEBAAY/AgL/xAAUEAEAAAAAAAAAAAAAAAAAAABw/9oACAEBAAE/IQL/2gAMAwEAAgADAAAAEP8A/wD/AP8A/wD/AP8A/wD/AP8A/wD/AP8A/wD/AP8A/wD/AP8A/wD/AP8A/wD/AP8A/wD/AP8A/wD/AP8A/wD/AP8A/wD/AP8A/wD/AP8A/wD/AP8A/wD/AP8A/wD/AP8A/wD/AP8A/8QAFBEBAAAAAAAAAAAAAAAAAAAAcP/aAAgBAwEBPxAC/8QAFBEBAAAAAAAAAAAAAAAAAAAAcP/aAAgBAgEBPxAC/8QAFBABAAAAAAAAAAAAAAAAAAAAcP/aAAgBAQABPxAC/9k=","doctype":"org.iso.18013.5.1.mDL","fields":[{"path":["org.iso.18013.5.1","family_name"],"display_name":"Family Name"},{"path":["org.iso.18013.5.1","given_name"],"display_name":"Given Name"}],"claims":{"org.iso.18013.5.1":{"family_name":"Glastra","given_name":"Timo"}}},{"id":"pid-1","format":"dc+sd-jwt","title":"PID","subtitle":"Issued by Utopia","icon":"/9j/4AAQSkZJRgABAQEASABIAAD//gATQ3JlYXRlZCB3aXRoIEdJTVD/2wBDAAMCAgMCAgMDAwMEAwMEBQgFBQQEBQoHBwYIDAoMDAsKCwsNDhIQDQ4RDgsLEBYQERMUFRUVDA8XGBYUGBIUFRT/2wBDAQMEBAUEBQkFBQkUDQsNFBQUFBQUFBQUFBQUFBQUFBQUFBQUFBQUFBQUFBQUFBQUFBQUFBQUFBQUFBQUFBQUFBT/wgARCABLAGQDAREAAhEBAxEB/8QAFQABAQAAAAAAAAAAAAAAAAAAAAf/xAAWAQEBAQAAAAAAAAAAAAAAAAAABgj/2gAMAwEAAhADEAAAAZzC6pAAAAAAAAAAAAAAAAAAAAAAAAAAAAAAAAAAAAAAAAAAAAAAAAAAAAAAAAAAAAAAAAH/xAAUEAEAAAAAAAAAAAAAAAAAAABw/9oACAEBAAEFAgL/xAAUEQEAAAAAAAAAAAAAAAAAAABw/9oACAEDAQE/AQL/xAAUEQEAAAAAAAAAAAAAAAAAAABw/9oACAECAQE/AQL/xAAUEAEAAAAAAAAAAAAAAAAAAABw/9oACAEBAAY/AgL/xAAUEAEAAAAAAAAAAAAAAAAAAABw/9oACAEBAAE/IQL/2gAMAwEAAgADAAAAEP8A/wD/AP8A/wD/AP8A/wD/AP8A/wD/AP8A/wD/AP8A/wD/AP8A/wD/AP8A/wD/AP8A/wD/AP8A/wD/AP8A/wD/AP8A/wD/AP8A/wD/AP8A/wD/AP8A/wD/AP8A/wD/AP8A/wD/AP8A/8QAFBEBAAAAAAAAAAAAAAAAAAAAcP/aAAgBAwEBPxAC/8QAFBEBAAAAAAAAAAAAAAAAAAAAcP/aAAgBAgEBPxAC/8QAFBABAAAAAAAAAAAAAAAAAAAAcP/aAAgBAQABPxAC/9k=","vcts":["eu.europa.ec.eudi.pid.1"],"claims":{"first_name":"Timo","address":{"city":"Somewhere"}}}],"log_level":"debug"}"#
}

#[test]
fn parses_credential_package_fixture() {
    let store = package(package_payload());

    assert_eq!(store.credentials.len(), 2);
    assert_eq!(store.credentials[0].id.as_str(), "mdoc-1");
    assert_eq!(
        store.credentials[0].doctype.as_deref(),
        Some("org.iso.18013.5.1.mDL")
    );
    assert_eq!(store.credentials[0].fields.len(), 2);
    assert_eq!(store.credentials[1].id.as_str(), "pid-1");
    assert_eq!(
        store.credentials[1].vcts,
        vec!["eu.europa.ec.eudi.pid.1".to_string()]
    );
    assert!(matches!(store.log_level, Some(LogLevel::Debug)));
    assert_eq!(
        store.dcql.credential_set_option_mode,
        CredentialSetOptionMode::FirstSatisfiableOnly
    );
    assert_eq!(
        store.dcql.optional_credential_sets_mode,
        OptionalCredentialSetsMode::PreferPresent
    );
}

fn claims_query(id: &str, path: &[&str]) -> ClaimsQuery {
    ClaimsQuery {
        id: Some(id.to_string()),
        path: pointer_from_strings(path),
        values: None,
        intent_to_retain: Some(false),
    }
}

fn mdl_request() -> OpenId4VpRequest {
    let query = CredentialQuery::MsoMdoc {
        common: CredentialQueryCommon {
            id: "0".to_string(),
            multiple: None,
            trusted_authorities: None,
            require_cryptographic_holder_binding: None,
            claims: Some(vec![
                claims_query("given_name", &["org.iso.18013.5.1", "given_name"]),
                claims_query("family_name", &["org.iso.18013.5.1", "family_name"]),
            ]),
            claim_sets: None,
        },
        meta: IsoMdocMeta {
            doctype_value: "org.iso.18013.5.1.mDL".to_string(),
        },
    };
    OpenId4VpRequest {
        response_mode: None,
        response_type: None,
        dcql_query: Some(DcqlQuery {
            credentials: NonEmptyVec::try_new(vec![query], "empty").expect("one query"),
            credential_sets: Some(vec![CredentialSetQuery {
                options: vec![vec!["0".to_string()]],
                required: true,
                purpose: Some(JsonValue::String("mDL (mdoc) - Names".to_string())),
            }]),
        }),
        transaction_data: None,
        extra: Vec::new(),
    }
}

#[test]
fn matches_mdl_claims_for_dcql_request() {
    let store = package(package_payload());
    let requests = vec![DcApiRequestItem::OpenId4VpUnsigned {
        request: Ok(mdl_request()),
    }];

    let options = MatcherOptions {
        dcql: store.dcql_options(),
    };
    let response =
        match_dc_api_request(&requests, "", &store, &options).expect("match should succeed");
    assert!(!response.results.is_empty());

    let set = &response.results[0];
    assert_eq!(set.set_id.as_str(), "openid4vp-v1-unsigned:0:dcql:0");
    let entry = set
        .slots
        .first()
        .and_then(|slot| slot.alternatives.first())
        .expect("expected entry");
    let fields = match entry {
        CredentialEntry::StringId(entry) => &entry.fields,
        CredentialEntry::Payment(entry) => &entry.fields,
    };

    let mut has_family = false;
    let mut has_given = false;
    for field in fields {
        let name = field.display_name.as_str();
        let value = field
            .display_value
            .as_ref()
            .map(|value| value.as_str())
            .unwrap_or("");
        if name == "Family Name" && value == "Glastra" {
            has_family = true;
        }
        if name == "Given Name" && value == "Timo" {
            has_given = true;
        }
    }
    assert!(has_family, "expected Family Name field");
    assert!(has_given, "expected Given Name field");
}

#[test]
fn ts12_metadata_object_map_controls_payload_compatibility() {
    let store = package(
        r#"{
            "payment_sca": {
                "urn:eudi:sca:eu.europa.ec:payment:single:1": {
                    "payee": ["payload", "payee", "name"],
                    "amount": ["payload", "amount"]
                }
            },
            "credentials": [{
                "id": "sca-1",
                "format": "dc+sd-jwt",
                "title": "SCA",
                "vcts": ["vct:sca"],
                "transaction_data_types": {
                    "urn:eudi:sca:eu.europa.ec:payment:single:1": {
                        "claims": [
                            { "path": ["transaction_id"], "mandatory": true },
                            {
                                "path": ["amount"],
                                "mandatory": true,
                                "display": [{ "locale": "en", "name": "Amount" }]
                            },
                            {
                                "path": ["payee", "name"],
                                "mandatory": true,
                                "display": [{ "locale": "en", "name": "Payee" }]
                            }
                        ],
                        "ui_labels": {
                            "affirmative_action_label": [
                                { "locale": "en", "value": "Confirm" }
                            ]
                        }
                    }
                }
            }]
        }"#,
    );
    let matching = transaction_data(
        r#"{
            "type": "urn:eudi:sca:eu.europa.ec:payment:single:1",
            "credential_ids": ["sca"],
            "payload": {
                "transaction_id": "tx-1",
                "amount": "42.50",
                "payee": { "name": "Example Shop" }
            }
        }"#,
    );
    let extra_field = transaction_data(
        r#"{
            "type": "urn:eudi:sca:eu.europa.ec:payment:single:1",
            "credential_ids": ["sca"],
            "payload": {
                "transaction_id": "tx-1",
                "amount": "42.50",
                "payee": { "name": "Example Shop" },
                "unexpected": "x"
            }
        }"#,
    );

    assert!(store.can_sign_transaction_data(&0, &matching));
    assert!(!store.can_sign_transaction_data(&0, &extra_field));
}

#[test]
fn ts12_transaction_without_payment_sca_mapping_is_signable_if_payload_matches() {
    let store = package(
        r#"{
            "credentials": [{
                "id": "sca-1",
                "format": "dc+sd-jwt",
                "title": "SCA",
                "vcts": ["vct:sca"],
                "transaction_data_types": {
                    "urn:eudi:sca:eu.europa.ec:payment:single:1": {
                        "claims": [
                            { "path": ["amount"], "mandatory": true },
                            { "path": ["payee", "name"], "mandatory": true }
                        ]
                    }
                }
            }]
        }"#,
    );
    let td = transaction_data(
        r#"{
            "type": "urn:eudi:sca:eu.europa.ec:payment:single:1",
            "credential_ids": ["sca"],
            "payload": {
                "amount": "42.50",
                "payee": { "name": "Example Shop" }
            }
        }"#,
    );

    assert!(store.can_sign_transaction_data(&0, &td));
}

fn payment_package() -> PackageStore {
    package(
        r#"{
            "payment_sca": {
                "urn:eudi:sca:eu.europa.ec:payment:single:1": {
                    "payee": ["payload", "payee", "name"],
                    "amount": ["payload", "amount"]
                },
                "urn:eudi:sca:example.bank:payment:instant:1": {
                    "payee": ["payload", "recipient", "display_name"],
                    "amount": ["payload", "total"],
                    "additional_info": ["payload", "reference"]
                }
            },
            "credentials": [{
                "id": "sca-1",
                "format": "dc+sd-jwt",
                "title": "SCA",
                "vcts": ["vct:sca"],
                "transaction_data_types": {
                    "urn:eudi:sca:example.bank:payment:instant:1": {
                        "claims": [
                            { "path": ["recipient", "display_name"], "mandatory": true, "display": [{ "locale": "en", "name": "Payee" }] },
                            { "path": ["total"], "mandatory": true, "display": [{ "locale": "en", "name": "Amount" }] },
                            { "path": ["reference"], "display": [{ "locale": "en", "name": "Reference" }] }
                        ],
                        "ui_labels": {
                            "affirmative_action_label": [{ "locale": "en", "value": "Confirm" }]
                        }
                    }
                }
            }]
        }"#,
    )
}

#[test]
fn payment_sca_config_maps_multiple_types_to_payment_summary() {
    let store = payment_package();
    let td = transaction_data(
        r#"{
            "type": "urn:eudi:sca:example.bank:payment:instant:1",
            "credential_ids": ["sca"],
            "payload": {
                "recipient": { "display_name": "Alt Shop" },
                "total": "10.00 EUR",
                "reference": "Order 123"
            }
        }"#,
    );
    let metadata = store.ts12_transaction_metadata(&0, &td).unwrap();
    let payload = td
        .extra
        .iter()
        .find(|(key, _)| key == "payload")
        .map(|(_, payload)| payload)
        .unwrap();
    let summary = store
        .ts12_payment_summary(&0, &td, payload, &metadata)
        .expect("payment summary");

    assert_eq!(summary.merchant_name.as_str(), "Alt Shop");
    assert_eq!(summary.transaction_amount.as_str(), "10.00 EUR");
    assert_eq!(
        summary.additional_info.as_ref().map(C8Text::as_str),
        Some("Order 123")
    );
}

#[test]
fn a_transaction_of_an_unmapped_type_tells_of_no_payment() {
    let store = payment_package();
    let td = transaction_data(
        r#"{"type": "urn:other", "credential_ids": ["sca"], "payload": {"total": 1}}"#,
    );
    assert!(store.ts12_transaction_metadata(&0, &td).is_none());
    assert!(!store.can_sign_transaction_data(&0, &td));
    assert!(
        dcapi_matcher::package::payment::payment_sca_summary(&store.payment_sca, &td).is_none()
    );
}

#[test]
fn numbers_and_booleans_are_shown_in_summaries() {
    let store = payment_package();
    let td = transaction_data(
        r#"{
            "type": "urn:eudi:sca:example.bank:payment:instant:1",
            "credential_ids": ["sca"],
            "payload": {
                "recipient": { "display_name": true },
                "total": -12,
                "reference": ""
            }
        }"#,
    );
    let summary =
        dcapi_matcher::package::payment::payment_sca_summary(&store.payment_sca, &td).unwrap();
    assert_eq!(summary.merchant_name.as_str(), "true");
    assert_eq!(summary.transaction_amount.as_str(), "-12");
    assert!(summary.additional_info.is_none());
}

#[test]
fn summaries_need_text_that_the_host_can_take() {
    let store = payment_package();
    let td = transaction_data(
        r#"{
            "type": "urn:eudi:sca:example.bank:payment:instant:1",
            "credential_ids": ["sca"],
            "payload": { "recipient": { "display_name": "a\u0000b" }, "total": "1" }
        }"#,
    );
    assert!(
        dcapi_matcher::package::payment::payment_sca_summary(&store.payment_sca, &td).is_none()
    );
}

#[test]
fn credentials_without_an_id_get_one_from_the_prefix_and_their_index() {
    let store = package(
        r#"{
            "default_id_prefix": "cred",
            "credentials": [
                { "format": "  " },
                { "format": "mso_mdoc", "doctype": "d" },
                { "format": "dc+sd-jwt", "title": "Named", "holder_binding": false }
            ]
        }"#,
    );
    assert_eq!(store.credentials.len(), 2);
    assert_eq!(store.credentials[0].id.as_str(), "cred-1");
    assert_eq!(store.credentials[0].title.as_str(), "cred-1");
    assert_eq!(store.credentials[1].id.as_str(), "cred-2");
    assert_eq!(store.credentials[1].title.as_str(), "Named");
    assert!(store.credentials[0].holder_binding);
    assert!(!store.credentials[1].holder_binding);
    assert_eq!(store.list_credentials(None), vec![0, 1]);
    assert_eq!(
        store.list_credentials(Some(CredentialFormat::DcSdJwt)),
        vec![1]
    );
    assert_eq!(
        store.list_credentials(Some(CredentialFormat::MsoMdoc)),
        vec![0]
    );
    assert!(store.has_doctype(&0, "d"));
    assert!(!store.has_doctype(&1, "d"));
    assert_eq!(store.format(&7), CredentialFormat::Unknown);
    assert_eq!(store.credential_id(&7).as_str(), "");
}

#[test]
fn ids_are_made_of_the_format_where_there_is_no_prefix() {
    let store = package(r#"{ "credentials": [{ "format": "mso_mdoc" }] }"#);
    assert_eq!(store.credentials[0].id.as_str(), "mso_mdoc-0");
}

#[test]
fn a_prefix_with_a_nul_makes_no_ids() {
    let config = PackageConfig {
        default_id_prefix: Some("a\0".to_string()),
        openid4vp: OpenId4VpConfig::disabled(),
        dcql: PlanOptions::default(),
        payment_sca: Vec::new(),
        log_level: None,
        credentials: vec![credential_config(&parse(r#"{ "format": "mso_mdoc" }"#))],
    };
    assert!(!config.ids_are_usable());
}

#[test]
fn icons_are_decoded_from_either_alphabet() {
    let store = package(
        r#"{
            "credentials": [
                { "format": "mso_mdoc", "icon": "+/8=" },
                { "format": "mso_mdoc", "icon": "-_8" },
                { "format": "mso_mdoc", "icon": "" },
                { "format": "mso_mdoc", "icon": "%" }
            ]
        }"#,
    );
    assert_eq!(store.credentials.len(), 3);
    assert_eq!(store.credential_icon(&0), Some(vec![0xfb, 0xff]));
    assert_eq!(store.credential_icon(&1), Some(vec![0xfb, 0xff]));
    assert_eq!(store.credential_icon(&2), None);
}

#[test]
fn labels_come_from_metadata_before_fields() {
    let store = package(
        r#"{
            "credentials": [{
                "format": "dc+sd-jwt",
                "metadata": {
                    "claims": [
                        { "path": ["a"], "display": [{ "name": "" }, { "name": "Label A" }] }
                    ],
                    "credential_metadata": {
                        "claims": [{ "path": ["b"], "display": [{ "name": "Label B" }] }]
                    }
                },
                "fields": [
                    { "path": ["a"], "display_name": "Field A", "display_value": "Shown A" },
                    { "path": ["c"], "display_name": "Field C" }
                ],
                "claims": { "a": "1", "b": "2", "c": "3", "d": 4 }
            }]
        }"#,
    );
    let label = |name: &str| {
        store
            .get_credential_field_label(&0, &pointer_from_strings(&[name]))
            .map(|text| text.as_str().to_string())
    };
    let value = |name: &str| {
        store
            .get_credential_field_value(&0, &pointer_from_strings(&[name]))
            .map(|text| text.as_str().to_string())
    };
    assert_eq!(label("a").as_deref(), Some("Label A"));
    assert_eq!(label("b").as_deref(), Some("Label B"));
    assert_eq!(label("c").as_deref(), Some("Field C"));
    assert_eq!(label("d"), None);
    assert_eq!(value("a").as_deref(), Some("Shown A"));
    assert_eq!(value("b").as_deref(), Some("2"));
    assert_eq!(value("c").as_deref(), Some("3"));
    assert_eq!(value("d"), None);
    let wildcard = vec![PathElement::Wildcard];
    assert!(store.get_credential_field_label(&0, &wildcard).is_none());
    assert!(store.get_credential_field_value(&0, &wildcard).is_none());
}

#[test]
fn a_metadata_entry_without_a_path_ends_the_search_for_a_name() {
    let store = package(
        r#"{
            "credentials": [{
                "format": "dc+sd-jwt",
                "metadata": {
                    "claims": [
                        { "display": [{ "name": "No path" }] },
                        { "path": ["a"], "display": [{ "name": "Label A" }] }
                    ]
                },
                "fields": [{ "path": ["a"], "display_name": "Field A" }]
            }]
        }"#,
    );
    let label = store.get_credential_field_label(&0, &pointer_from_strings(&["a"]));
    assert_eq!(label.as_ref().map(C8Text::as_str), Some("Field A"));
}

#[test]
fn claim_values_are_compared_by_type() {
    let store = package(
        r#"{
            "credentials": [{
                "format": "dc+sd-jwt",
                "claims": { "n": 5, "t": "5", "b": true, "f": 5.5, "list": ["x", "y"] }
            }]
        }"#,
    );
    let matches = |name: &str, value: ClaimValue| {
        store.match_claim_value(&0, &pointer_from_strings(&[name]), &[value]) == ValueMatch::Match
    };
    assert!(matches("n", ClaimValue::Integer(5)));
    assert!(!matches("n", ClaimValue::String("5".to_string())));
    assert!(matches("t", ClaimValue::String("5".to_string())));
    assert!(!matches("t", ClaimValue::Integer(5)));
    assert!(matches("b", ClaimValue::Boolean(true)));
    assert!(!matches("b", ClaimValue::Boolean(false)));
    assert!(!matches("f", ClaimValue::Integer(5)));
    assert!(!matches("missing", ClaimValue::Integer(5)));
    let elements = vec![
        PathElement::String("list".to_string()),
        PathElement::Wildcard,
    ];
    assert_eq!(
        store.match_claim_value(&0, &elements, &[ClaimValue::String("y".to_string())]),
        ValueMatch::Match
    );
    assert!(store.has_claim_path(&0, &elements));
    assert!(!store.has_claim_path(&0, &pointer_from_strings(&["missing"])));
    assert!(!store.matches_trusted_authorities(&0, &[]));
}

#[test]
fn lists_by_type_are_read_from_objects_and_arrays() {
    let listed = configurations_by_type(parse(r#"[{"type": "a"}, 5]"#));
    assert_eq!(listed.len(), 2);
    assert_eq!(listed[0].get("type").and_then(JsonValue::as_str), Some("a"));
    let named = configurations_by_type(parse(
        r#"{"a": {"type": "other", "x": 1}, "b": 7, "c": {}}"#,
    ));
    assert_eq!(named.len(), 2);
    assert_eq!(named[0].get("type").and_then(JsonValue::as_str), Some("a"));
    assert!(named[0].get("x").is_some());
    assert_eq!(named[1].get("type").and_then(JsonValue::as_str), Some("c"));
    assert!(configurations_by_type(JsonValue::Null).is_empty());
    assert!(configurations_from_list(parse(r#"{"a": {}}"#)).is_empty());
    assert_eq!(configurations_from_list(parse("[1, 2]")).len(), 2);
    assert!(is_displayable(&parse("[{}]")));
    assert!(!is_displayable(&parse("[]")));
    assert!(!is_displayable(&parse("{}")));
}

#[test]
fn packages_match_requests_under_their_own_options() {
    let store = package(package_payload());
    let requests = vec![DcApiRequestItem::OpenId4VpUnsigned {
        request: Ok(mdl_request()),
    }];
    let response = store.match_requests(&requests, "").expect("a response");
    assert_eq!(response.results.len(), 1);
    assert_eq!(response.results[0].slots.len(), 1);
    assert_eq!(response.results[0].slots[0].alternatives.len(), 1);
}
