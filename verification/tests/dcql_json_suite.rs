use dcapi_matcher::json::{JsonNumber, JsonValue};
use dcapi_matcher::models::{
    ClaimValue, ClaimsQuery, CredentialQuery, CredentialQueryCommon, CredentialSetQuery, DcqlQuery,
    IsoMdocMeta, NonEmptyVec, SdJwtMeta, TransactionData, TransactionDataType, TrustedAuthority,
};
use dcapi_matcher::path::{path_from_json, select_nodes, ClaimsPathPointer};
use dcapi_matcher::planner::error::PlanError;
use dcapi_matcher::planner::options::{
    OptionalCredentialSetsMode, PlanOptions, DEFAULT_TS12_PREFIX,
};
use dcapi_matcher::planner::plan::plan_selection;
use dcapi_matcher::planner::presentation::DcqlOutput;
use dcapi_matcher::store::{CredentialFormat, CredentialStore, ValueMatch};
use serde_json::Value;

const SCA_PAY_V1: &str = "urn:eudi:sca:example.pay:transaction:1";
const SCA_PAY_V2: &str = "urn:eudi:sca:example.pay:transaction:2";
const SCA_CARD: &str = "urn:eudi:sca:example.pay:card:1";
const SCA_ACCOUNT: &str = "urn:eudi:sca:example.pay:account:1";
const OTHER_TD: &str = "urn:example:non-sca:receipt:1";
const OTHER_ACCOUNT_TD: &str = "urn:example:non-sca:account:1";

fn text(value: &str) -> Value {
    Value::String(value.to_string())
}

fn array(items: Vec<Value>) -> Value {
    Value::Array(items)
}

fn object(entries: Vec<(&str, Value)>) -> Value {
    let mut map = serde_json::Map::new();
    for (key, value) in entries {
        map.insert(key.to_string(), value);
    }
    Value::Object(map)
}

fn to_json(value: &Value) -> JsonValue {
    match value {
        Value::Null => JsonValue::Null,
        Value::Bool(value) => JsonValue::Bool(*value),
        Value::Number(number) => JsonValue::Number(if let Some(value) = number.as_u64() {
            JsonNumber::PosInt(value)
        } else if let Some(value) = number.as_i64() {
            JsonNumber::NegInt(value)
        } else {
            JsonNumber::Float(number.to_string())
        }),
        Value::String(text) => JsonValue::String(text.clone()),
        Value::Array(items) => JsonValue::Array(items.iter().map(to_json).collect()),
        Value::Object(entries) => JsonValue::Object(
            entries
                .iter()
                .map(|(key, value)| (key.clone(), to_json(value)))
                .collect(),
        ),
    }
}

fn strings(value: &Value) -> Vec<String> {
    value
        .as_array()
        .expect("array of strings")
        .iter()
        .map(|item| item.as_str().expect("string").to_string())
        .collect()
}

fn string_lists(value: &Value) -> Vec<Vec<String>> {
    value
        .as_array()
        .expect("array of arrays")
        .iter()
        .map(strings)
        .collect()
}

fn claim_value(value: &Value) -> ClaimValue {
    match value {
        Value::String(text) => ClaimValue::String(text.clone()),
        Value::Bool(value) => ClaimValue::Boolean(*value),
        other => ClaimValue::Integer(other.as_i64().expect("integer")),
    }
}

fn claims_query(value: &Value) -> ClaimsQuery {
    ClaimsQuery {
        id: value.get("id").map(|id| id.as_str().expect("id").to_string()),
        path: path_from_json(&to_json(&value["path"])).expect("claims path"),
        values: value.get("values").map(|values| {
            values
                .as_array()
                .expect("values")
                .iter()
                .map(claim_value)
                .collect()
        }),
        intent_to_retain: value.get("intent_to_retain").and_then(Value::as_bool),
    }
}

fn authority(value: &Value) -> TrustedAuthority {
    TrustedAuthority {
        authority_type: value["type"].as_str().expect("type").to_string(),
        values: strings(&value["values"]),
    }
}

fn authorities(value: &Value) -> Vec<TrustedAuthority> {
    value
        .as_array()
        .expect("authorities")
        .iter()
        .map(authority)
        .collect()
}

fn credential_query(value: &Value) -> CredentialQuery {
    let format = CredentialFormat::from_name(value["format"].as_str().expect("format"));
    if format == CredentialFormat::Unknown {
        return CredentialQuery::Unknown;
    }
    let common = CredentialQueryCommon {
        id: value["id"].as_str().expect("id").to_string(),
        multiple: value.get("multiple").and_then(Value::as_bool),
        trusted_authorities: value.get("trusted_authorities").map(authorities),
        require_cryptographic_holder_binding: value
            .get("require_cryptographic_holder_binding")
            .and_then(Value::as_bool),
        claims: value.get("claims").map(|claims| {
            claims
                .as_array()
                .expect("claims")
                .iter()
                .map(claims_query)
                .collect()
        }),
        claim_sets: value.get("claim_sets").map(string_lists),
    };
    match format {
        CredentialFormat::MsoMdoc => CredentialQuery::MsoMdoc {
            common,
            meta: IsoMdocMeta {
                doctype_value: value["meta"]["doctype_value"]
                    .as_str()
                    .expect("doctype")
                    .to_string(),
            },
        },
        _ => CredentialQuery::DcSdJwt {
            common,
            meta: SdJwtMeta {
                vct_values: value["meta"].get("vct_values").map(strings),
            },
        },
    }
}

fn credential_set(value: &Value) -> CredentialSetQuery {
    CredentialSetQuery {
        options: string_lists(&value["options"]),
        required: value
            .get("required")
            .and_then(Value::as_bool)
            .unwrap_or_else(dcapi_matcher::models::default_required),
        purpose: value.get("purpose").map(to_json),
    }
}

fn transaction_data(value: &Value) -> TransactionData {
    let mut extra = Vec::new();
    for (key, item) in value.as_object().expect("transaction data") {
        if !["type", "credential_ids", "transaction_data_hashes_alg"].contains(&key.as_str()) {
            extra.push((key.clone(), to_json(item)));
        }
    }
    TransactionData {
        data_type: value["type"].as_str().expect("type").to_string(),
        credential_ids: strings(&value["credential_ids"]),
        transaction_data_hashes_alg: value
            .get("transaction_data_hashes_alg")
            .and_then(Value::as_str)
            .map(ToString::to_string),
        extra,
    }
}

struct RequestFixture {
    dcql_query: DcqlQuery,
    transaction_data: Option<Vec<TransactionData>>,
}

fn request_fixture(value: &Value) -> Result<RequestFixture, String> {
    let credentials = NonEmptyVec::try_new(
        value["credentials"]
            .as_array()
            .expect("credentials")
            .iter()
            .map(credential_query)
            .collect(),
        dcapi_matcher::models::NO_CREDENTIAL_QUERIES,
    )?;
    Ok(RequestFixture {
        dcql_query: DcqlQuery {
            credentials,
            credential_sets: value
                .get("credential_sets")
                .map(|sets| sets.as_array().expect("sets").iter().map(credential_set).collect()),
        },
        transaction_data: value
            .get("transaction_data")
            .map(|data| data.as_array().expect("data").iter().map(transaction_data).collect()),
    })
}

struct JsonCredential {
    id: String,
    format: CredentialFormat,
    holder_binding: bool,
    vct: Option<String>,
    extends_vcts: Option<Vec<String>>,
    doctype: Option<String>,
    trusted_authorities: Vec<TrustedAuthority>,
    transaction_data_types: Vec<TransactionDataType>,
    accepted_transaction_payload_kinds: Vec<String>,
    claims: JsonValue,
}

fn json_credential(value: &Value) -> JsonCredential {
    let optional = |key: &str| value.get(key).and_then(Value::as_str).map(ToString::to_string);
    JsonCredential {
        id: value["id"].as_str().expect("id").to_string(),
        format: CredentialFormat::from_name(value["format"].as_str().expect("format")),
        holder_binding: value
            .get("holder_binding")
            .and_then(Value::as_bool)
            .unwrap_or(false),
        vct: optional("vct"),
        extends_vcts: value.get("extends_vcts").map(strings),
        doctype: optional("doctype"),
        trusted_authorities: value
            .get("trusted_authorities")
            .map(authorities)
            .unwrap_or_default(),
        transaction_data_types: value
            .get("transaction_data_types")
            .map(|types| {
                types
                    .as_array()
                    .expect("types")
                    .iter()
                    .map(|item| TransactionDataType {
                        data_type: item["type"].as_str().expect("type").to_string(),
                    })
                    .collect()
            })
            .unwrap_or_default(),
        accepted_transaction_payload_kinds: value
            .get("accepted_transaction_payload_kinds")
            .map(strings)
            .unwrap_or_default(),
        claims: value
            .get("claims")
            .map(to_json)
            .unwrap_or(JsonValue::Object(Vec::new())),
    }
}

struct JsonStore {
    creds: Vec<JsonCredential>,
}

impl JsonStore {
    fn get(&self, id: &str) -> &JsonCredential {
        self.creds
            .iter()
            .find(|credential| credential.id == id)
            .expect("credential id in store")
    }
}

impl CredentialStore for JsonStore {
    type CredentialRef = String;

    fn list_credentials(&self, format: Option<CredentialFormat>) -> Vec<String> {
        self.creds
            .iter()
            .filter(|c| format.map(|f| c.format == f).unwrap_or(true))
            .map(|c| c.id.clone())
            .collect()
    }

    fn format(&self, cred: &String) -> CredentialFormat {
        self.get(cred).format
    }

    fn has_vct(&self, cred: &String, vct: &str) -> bool {
        let c = self.get(cred);
        let Some(current_vct) = c.vct.as_deref() else {
            return false;
        };
        current_vct == vct
            || c.extends_vcts
                .as_ref()
                .is_some_and(|chain| chain.iter().any(|entry| entry == vct))
    }

    fn supports_holder_binding(&self, cred: &String) -> bool {
        self.get(cred).holder_binding
    }

    fn has_doctype(&self, cred: &String, doctype: &str) -> bool {
        self.get(cred).doctype.as_deref() == Some(doctype)
    }

    fn can_sign_transaction_data(&self, cred: &String, transaction_data: &TransactionData) -> bool {
        let c = self.get(cred);
        let type_matches = c
            .transaction_data_types
            .iter()
            .any(|t| t.data_type == transaction_data.data_type);
        if !type_matches {
            return false;
        }

        if c.accepted_transaction_payload_kinds.is_empty() {
            return true;
        }

        transaction_data
            .extra
            .iter()
            .find(|(key, _)| key == "payload")
            .and_then(|(_, payload)| payload.get("kind"))
            .and_then(JsonValue::as_str)
            .is_some_and(|kind| {
                c.accepted_transaction_payload_kinds
                    .iter()
                    .any(|accepted| accepted == kind)
            })
    }

    fn has_claim_path(&self, cred: &String, path: &ClaimsPathPointer) -> bool {
        select_nodes(&self.get(cred).claims, path).is_ok()
    }

    fn match_claim_value(
        &self,
        cred: &String,
        path: &ClaimsPathPointer,
        expected_values: &[ClaimValue],
    ) -> ValueMatch {
        let Ok(nodes) = select_nodes(&self.get(cred).claims, path) else {
            return ValueMatch::NoMatch;
        };

        if nodes.iter().any(|node| {
            expected_values
                .iter()
                .any(|value| claim_value_matches_json(value, node))
        }) {
            ValueMatch::Match
        } else {
            ValueMatch::NoMatch
        }
    }

    fn matches_trusted_authorities(
        &self,
        cred: &String,
        trusted_authorities: &[TrustedAuthority],
    ) -> bool {
        let c = self.get(cred);
        trusted_authorities.iter().all(|ta| {
            c.trusted_authorities.iter().any(|cred_ta| {
                cred_ta.authority_type == ta.authority_type
                    && cred_ta.values.iter().any(|v| ta.values.contains(v))
            })
        })
    }
}

#[derive(Debug, Clone, PartialEq, Eq, PartialOrd, Ord)]
struct AltSummary {
    dcql_id: String,
    credential_id: Option<String>,
    selected_claim_ids: Vec<String>,
    transaction_data_ids: Vec<usize>,
}

type SlotSummary = Vec<AltSummary>;
type SetSummary = Vec<SlotSummary>;
type PlanSummary = Vec<SetSummary>;

fn parse_request(value: Value) -> RequestFixture {
    request_fixture(&value).expect("request fixture must parse")
}

fn request_parse_error(value: Value) -> String {
    request_fixture(&value)
        .err()
        .expect("request fixture must fail to parse")
}

fn store(value: Value) -> JsonStore {
    JsonStore {
        creds: value["credentials"]
            .as_array()
            .expect("credentials")
            .iter()
            .map(json_credential)
            .collect(),
    }
}

fn plan_ok(request: Value, credentials: Value) -> DcqlOutput<String> {
    plan_ok_with_options(request, credentials, PlanOptions::default())
}

fn plan_ok_with_options(
    request: Value,
    credentials: Value,
    options: PlanOptions,
) -> DcqlOutput<String> {
    let request = parse_request(request);
    let store = store(credentials);
    plan_selection(
        &request.dcql_query,
        request.transaction_data.as_deref(),
        &store,
        &options,
    )
    .expect("expected satisfiable plan")
}

fn plan_err(request: Value, credentials: Value) -> PlanError {
    let request = parse_request(request);
    let store = store(credentials);
    plan_selection(
        &request.dcql_query,
        request.transaction_data.as_deref(),
        &store,
        &PlanOptions::default(),
    )
    .expect_err("expected planner error")
}

fn assert_invalid_query(err: PlanError, expected: &str) {
    match err {
        PlanError::InvalidQuery(message) => assert!(
            message.contains(expected),
            "expected invalid query containing {expected:?}, got {message:?}"
        ),
        other => panic!("expected InvalidQuery, got {other:?}"),
    }
}

fn assert_unsatisfied(err: PlanError) {
    assert!(
        matches!(err, PlanError::Unsatisfied),
        "expected Unsatisfied, got {err:?}"
    );
}

fn assert_plan(plan: &DcqlOutput<String>, expected: PlanSummary) {
    assert_eq!(summarize_plan(plan), canonicalize_expected(expected));
}

fn summarize_plan(plan: &DcqlOutput<String>) -> PlanSummary {
    let mut sets = plan
        .presentation_sets
        .iter()
        .map(|set| {
            let mut slots = set
                .iter()
                .map(|slot| {
                    let mut alternatives = slot
                        .alternatives
                        .iter()
                        .map(|selection| {
                            let mut selected_claim_ids = selection
                                .selected_claims
                                .iter()
                                .filter_map(|claim| claim.id.clone())
                                .collect::<Vec<_>>();
                            selected_claim_ids.sort();

                            let mut transaction_data_ids = selection.transaction_data_ids.clone();
                            transaction_data_ids.sort_unstable();

                            AltSummary {
                                dcql_id: selection.dcql_id.clone(),
                                credential_id: selection.credential_id.clone(),
                                selected_claim_ids,
                                transaction_data_ids: transaction_data_ids.clone(),
                            }
                        })
                        .collect::<Vec<_>>();
                    alternatives.sort();
                    alternatives
                })
                .collect::<Vec<_>>();
            slots.sort();
            slots
        })
        .collect::<Vec<_>>();
    sets.sort();
    sets
}

fn canonicalize_expected(mut expected: PlanSummary) -> PlanSummary {
    for set in &mut expected {
        for slot in set.iter_mut() {
            for alt in slot.iter_mut() {
                alt.selected_claim_ids.sort();
                alt.transaction_data_ids.sort_unstable();
            }
            slot.sort();
        }
        set.sort();
    }
    expected.sort();
    expected
}

fn alt(dcql_id: &str, credential_id: &str) -> AltSummary {
    alt_claims_tx(dcql_id, Some(credential_id), &[], &[])
}

fn alt_tx(dcql_id: &str, credential_id: &str, transaction_data_ids: &[usize]) -> AltSummary {
    alt_claims_tx(dcql_id, Some(credential_id), &[], transaction_data_ids)
}

fn alt_claims(dcql_id: &str, credential_id: &str, selected_claim_ids: &[&str]) -> AltSummary {
    alt_claims_tx(dcql_id, Some(credential_id), selected_claim_ids, &[])
}

fn alt_claims_tx(
    dcql_id: &str,
    credential_id: Option<&str>,
    selected_claim_ids: &[&str],
    transaction_data_ids: &[usize],
) -> AltSummary {
    AltSummary {
        dcql_id: dcql_id.to_string(),
        credential_id: credential_id.map(ToString::to_string),
        selected_claim_ids: selected_claim_ids
            .iter()
            .map(|value| (*value).to_string())
            .collect(),
        transaction_data_ids: transaction_data_ids.to_vec(),
    }
}

fn none(dcql_id: &str) -> AltSummary {
    alt_claims_tx(dcql_id, None, &[], &[])
}

fn sd_query(id: &str, vct: &str) -> Value {
    object(vec![("id", text(id)), ("format", text("dc+sd-jwt")), ("meta", object(vec![("vct_values", array(vec![text(vct)]))]))])
}

fn sd_query_without_holder_binding(id: &str, vct: &str) -> Value {
    object(vec![("id", text(id)), ("format", text("dc+sd-jwt")), ("meta", object(vec![("vct_values", array(vec![text(vct)]))])), ("require_cryptographic_holder_binding", Value::Bool(false))])
}

fn mdoc_query(id: &str, doctype: &str) -> Value {
    object(vec![("id", text(id)), ("format", text("mso_mdoc")), ("meta", object(vec![("doctype_value", text(doctype))]))])
}

fn sd_credential(id: &str, vct: &str) -> Value {
    object(vec![("id", text(id)), ("format", text("dc+sd-jwt")), ("holder_binding", Value::Bool(true)), ("vct", text(vct)), ("claims", object(vec![]))])
}

fn sd_credential_without_holder_binding(id: &str, vct: &str) -> Value {
    object(vec![("id", text(id)), ("format", text("dc+sd-jwt")), ("holder_binding", Value::Bool(false)), ("vct", text(vct)), ("claims", object(vec![]))])
}

fn mdoc_credential(id: &str, doctype: &str) -> Value {
    object(vec![("id", text(id)), ("format", text("mso_mdoc")), ("doctype", text(doctype)), ("claims", object(vec![]))])
}

fn with_transaction_types(mut credential: Value, types: &[&str]) -> Value {
    credential["transaction_data_types"] = Value::Array(
        types
            .iter()
            .map(|data_type| object(vec![("type", text(data_type))]))
            .collect(),
    );
    credential
}

fn with_accepted_payload_kinds(mut credential: Value, kinds: &[&str]) -> Value {
    credential["accepted_transaction_payload_kinds"] =
        Value::Array(kinds.iter().map(|kind| text(kind)).collect());
    credential
}

fn with_claims(mut credential: Value, claims: Value) -> Value {
    credential["claims"] = claims;
    credential
}

fn package(credentials: Vec<Value>) -> Value {
    object(vec![("credentials", array(credentials))])
}

fn claim_value_matches_json(expected: &ClaimValue, actual: &JsonValue) -> bool {
    match (expected, actual) {
        (ClaimValue::String(value), JsonValue::String(text)) => value == text,
        (ClaimValue::Integer(value), JsonValue::Number(number)) => number.as_i64() == Some(*value),
        (ClaimValue::Boolean(value), JsonValue::Bool(flag)) => value == flag,
        _ => false,
    }
}

#[test]
fn default_options_target_ts12_sca_prefix_only() {
    let options = PlanOptions::default();

    assert_eq!(options.ts12_prefixes, vec![DEFAULT_TS12_PREFIX.to_string()]);
    assert!(options.is_ts12_transaction_data_type(SCA_PAY_V1));
    assert!(options.is_ts12_transaction_data_type(SCA_PAY_V2));
    assert!(options.is_ts12_transaction_data_type(SCA_CARD));
    assert!(options.is_ts12_transaction_data_type(SCA_ACCOUNT));
    assert!(!options.is_ts12_transaction_data_type(OTHER_TD));
    assert!(!options.is_ts12_transaction_data_type(OTHER_ACCOUNT_TD));
}

#[test]
fn targeted_transaction_data_prefixes_are_configurable() {
    let options = PlanOptions {
        ts12_prefixes: vec!["urn:bank-a:sca:".to_string(), "urn:bank-b:sca:".to_string()],
        ..PlanOptions::default()
    };

    assert!(options.is_ts12_transaction_data_type("urn:bank-a:sca:payment:1"));
    assert!(options.is_ts12_transaction_data_type("urn:bank-b:sca:card:1"));
    assert!(!options.is_ts12_transaction_data_type(SCA_CARD));
    assert!(!options.is_ts12_transaction_data_type("urn:bank-c:sca:payment:1"));
}

#[test]
fn empty_targeted_transaction_data_prefixes_disable_targeted_matching() {
    let options = PlanOptions {
        ts12_prefixes: Vec::new(),
        ..PlanOptions::default()
    };

    assert!(!options.is_ts12_transaction_data_type(SCA_PAY_V1));
}

#[test]
fn credentials_array_must_not_be_empty() {
    let err = request_parse_error(object(vec![("credentials", array(vec![]))]));
    assert!(err.contains("credentials must contain at least one credential query"));
}

#[test]
fn duplicate_credential_query_ids_are_ignored_after_first() {
    let plan = plan_ok(
        object(vec![("credentials", array(vec![sd_query("pid", "vct:pid"), mdoc_query("pid", "org.iso.18013.5.1.mDL")]))]),
        package(vec![
            sd_credential("sd-pid", "vct:pid"),
            mdoc_credential("mdl", "org.iso.18013.5.1.mDL"),
        ]),
    );

    assert_plan(&plan, vec![vec![vec![alt("pid", "sd-pid")]]]);
}

#[test]
fn claim_sets_without_claims_are_ignored() {
    let plan = plan_ok(
        object(vec![("credentials", array(vec![object(vec![("id", text("pid")), ("format", text("dc+sd-jwt")), ("meta", object(vec![("vct_values", array(vec![text("vct:pid")]))])), ("claim_sets", array(vec![array(vec![text("given_name")])]))])]))]),
        package(vec![sd_credential("sd-pid", "vct:pid")]),
    );

    assert_plan(&plan, vec![vec![vec![alt("pid", "sd-pid")]]]);
}

#[test]
fn unknown_format_option_is_pruned_without_rejecting_supported_option() {
    let plan = plan_ok(
        object(vec![("credentials", array(vec![object(vec![("id", text("future")), ("format", text("dc+future")), ("meta", object(vec![]))]), sd_query("pid", "vct:pid")])), ("credential_sets", array(vec![object(vec![("options", array(vec![array(vec![text("future")]), array(vec![text("pid")])]))])]))]),
        package(vec![sd_credential("sd-pid", "vct:pid")]),
    );

    assert_plan(&plan, vec![vec![vec![alt("pid", "sd-pid")]]]);
}

#[test]
fn sd_jwt_requires_holder_binding_by_default() {
    let err = plan_err(
        object(vec![("credentials", array(vec![sd_query("pid", "vct:pid")]))]),
        package(vec![sd_credential_without_holder_binding(
            "sd-pid", "vct:pid",
        )]),
    );

    assert_unsatisfied(err);
}

#[test]
fn sd_jwt_holder_binding_requirement_can_be_disabled_without_transaction_data() {
    let plan = plan_ok(
        object(vec![("credentials", array(vec![sd_query_without_holder_binding("pid", "vct:pid")]))]),
        package(vec![sd_credential_without_holder_binding(
            "sd-pid", "vct:pid",
        )]),
    );

    assert_plan(&plan, vec![vec![vec![alt("pid", "sd-pid")]]]);
}

#[test]
fn sd_jwt_vct_values_match_direct_or_extends_chain() {
    let mut direct = sd_credential("direct", "vct:pid");
    let mut child = sd_credential("child", "vct:pid-child");
    child["extends_vcts"] = array(vec![text("vct:pid")]);
    direct["claims"] = object(vec![("given_name", text("Alice"))]);
    child["claims"] = object(vec![("given_name", text("Alice"))]);

    let plan = plan_ok(
        object(vec![("credentials", array(vec![sd_query("pid", "vct:pid")]))]),
        package(vec![direct, child, sd_credential("other", "vct:other")]),
    );

    assert_plan(
        &plan,
        vec![vec![vec![alt("pid", "child"), alt("pid", "direct")]]],
    );
}

#[test]
fn claims_without_claim_sets_select_all_claims_that_match() {
    let mut query = sd_query("pid", "vct:pid");
    query["claims"] = array(vec![object(vec![("id", text("given_name")), ("path", array(vec![text("given_name")]))]), object(vec![("id", text("age_over_18")), ("path", array(vec![text("age_over_18")])), ("values", array(vec![Value::Bool(true)]))])]);

    let plan = plan_ok(
        object(vec![("credentials", array(vec![query]))]),
        package(vec![with_claims(
            sd_credential("sd-pid", "vct:pid"),
            object(vec![("given_name", text("Alice")), ("age_over_18", Value::Bool(true))]),
        )]),
    );

    assert_plan(
        &plan,
        vec![vec![vec![alt_claims(
            "pid",
            "sd-pid",
            &["given_name", "age_over_18"],
        )]]],
    );
}

#[test]
fn claim_sets_select_first_satisfiable_claim_set() {
    let mut query = sd_query("pid", "vct:pid");
    query["claims"] = array(vec![object(vec![("id", text("family_name")), ("path", array(vec![text("family_name")]))]), object(vec![("id", text("given_name")), ("path", array(vec![text("given_name")]))])]);
    query["claim_sets"] = array(vec![array(vec![text("family_name")]), array(vec![text("given_name")])]);

    let plan = plan_ok(
        object(vec![("credentials", array(vec![query]))]),
        package(vec![with_claims(
            sd_credential("sd-pid", "vct:pid"),
            object(vec![("given_name", text("Alice"))]),
        )]),
    );

    assert_plan(
        &plan,
        vec![vec![vec![alt_claims("pid", "sd-pid", &["given_name"])]]],
    );
}

#[test]
fn malformed_claim_sets_are_ignored() {
    let mut query = sd_query("pid", "vct:pid");
    query["claims"] = array(vec![object(vec![("id", text("given_name")), ("path", array(vec![text("given_name")]))])]);
    query["claim_sets"] = array(vec![array(vec![text("missing")])]);

    let plan = plan_ok(
        object(vec![("credentials", array(vec![query]))]),
        package(vec![with_claims(
            sd_credential("sd-pid", "vct:pid"),
            object(vec![("given_name", text("Alice"))]),
        )]),
    );

    assert_plan(
        &plan,
        vec![vec![vec![alt_claims("pid", "sd-pid", &["given_name"])]]],
    );
}

#[test]
fn mdoc_null_path_component_matches_array_elements() {
    let mut query = mdoc_query("mdl", "org.iso.18013.5.1.mDL");
    query["claims"] = array(vec![object(vec![("id", text("b")), ("path", array(vec![text("org.iso.18013.5.1"), text("driving_privileges"), Value::Null, text("vehicle_category_code")])), ("values", array(vec![text("B")]))])]);

    let plan = plan_ok(
        object(vec![("credentials", array(vec![query]))]),
        package(vec![with_claims(
            mdoc_credential("mdl-1", "org.iso.18013.5.1.mDL"),
            object(vec![("org.iso.18013.5.1", object(vec![("driving_privileges", array(vec![object(vec![("vehicle_category_code", text("A"))]), object(vec![("vehicle_category_code", text("B"))])]))]))]),
        )]),
    );

    assert_plan(&plan, vec![vec![vec![alt_claims("mdl", "mdl-1", &["b"])]]]);
}

#[test]
fn trusted_authorities_require_type_and_value_overlap() {
    let mut query = sd_query("pid", "vct:pid");
    query["trusted_authorities"] = array(vec![object(vec![("type", text("aki")), ("values", array(vec![text("root-a")]))])]);

    let mut trusted = sd_credential("trusted", "vct:pid");
    trusted["trusted_authorities"] = array(vec![object(vec![("type", text("aki")), ("values", array(vec![text("root-a")]))])]);

    let mut wrong_type = sd_credential("wrong-type", "vct:pid");
    wrong_type["trusted_authorities"] = array(vec![object(vec![("type", text("x5c")), ("values", array(vec![text("root-a")]))])]);

    let mut wrong_value = sd_credential("wrong-value", "vct:pid");
    wrong_value["trusted_authorities"] = array(vec![object(vec![("type", text("aki")), ("values", array(vec![text("root-b")]))])]);

    let plan = plan_ok(
        object(vec![("credentials", array(vec![query]))]),
        package(vec![trusted, wrong_type, wrong_value]),
    );

    assert_plan(&plan, vec![vec![vec![alt("pid", "trusted")]]]);
}

#[test]
fn omitted_credential_sets_request_all_supported_credentials_as_required_slots() {
    let plan = plan_ok(
        object(vec![("credentials", array(vec![sd_query("pid", "vct:pid"), mdoc_query("mdl", "org.iso.18013.5.1.mDL")]))]),
        package(vec![
            sd_credential("sd-pid", "vct:pid"),
            mdoc_credential("mdl-1", "org.iso.18013.5.1.mDL"),
        ]),
    );

    assert_plan(
        &plan,
        vec![vec![vec![alt("pid", "sd-pid")], vec![alt("mdl", "mdl-1")]]],
    );
}

#[test]
fn simple_required_set_options_merge_into_one_choice_slot() {
    let plan = plan_ok(
        object(vec![("credentials", array(vec![sd_query("pid_sd", "vct:pid"), mdoc_query("pid_mdoc", "org.iso.18013.5.1.mDL")])), ("credential_sets", array(vec![object(vec![("options", array(vec![array(vec![text("pid_sd")]), array(vec![text("pid_mdoc")])]))])]))]),
        package(vec![
            sd_credential("sd-pid", "vct:pid"),
            mdoc_credential("mdl-pid", "org.iso.18013.5.1.mDL"),
        ]),
    );

    assert_plan(
        &plan,
        vec![vec![vec![
            alt("pid_sd", "sd-pid"),
            alt("pid_mdoc", "mdl-pid"),
        ]]],
    );
}

#[test]
fn optional_set_prefer_absent_exposes_empty_choice_first() {
    let plan = plan_ok_with_options(
        object(vec![("credentials", array(vec![sd_query("sca", "vct:sca"), sd_query("pid", "vct:pid")])), ("credential_sets", array(vec![object(vec![("options", array(vec![array(vec![text("sca")])]))]), object(vec![("required", Value::Bool(false)), ("options", array(vec![array(vec![text("pid")])]))])]))]),
        package(vec![
            sd_credential("sca-1", "vct:sca"),
            sd_credential("pid-1", "vct:pid"),
        ]),
        PlanOptions {
            optional_credential_sets_mode: OptionalCredentialSetsMode::PreferAbsent,
            ..PlanOptions::default()
        },
    );

    assert_plan(
        &plan,
        vec![vec![
            vec![alt("sca", "sca-1")],
            vec![alt("pid", "pid-1"), none("pid")],
        ]],
    );
}

#[test]
fn transposable_options_decompose_into_independent_slots() {
    let plan = plan_ok(
        object(vec![("credentials", array(vec![sd_query("sca_card", "vct:sca-card"), sd_query("pid_1", "vct:pid-1"), sd_query("pid_2", "vct:pid-2")])), ("credential_sets", array(vec![object(vec![("options", array(vec![array(vec![text("sca_card"), text("pid_1")]), array(vec![text("sca_card"), text("pid_2")]), array(vec![text("sca_card")])]))])]))]),
        package(vec![
            sd_credential("card", "vct:sca-card"),
            sd_credential("pid-1", "vct:pid-1"),
            sd_credential("pid-2", "vct:pid-2"),
        ]),
    );

    assert_plan(
        &plan,
        vec![vec![
            vec![alt("sca_card", "card")],
            vec![alt("pid_1", "pid-1"), alt("pid_2", "pid-2"), none("pid_1")],
        ]],
    );
}

#[test]
fn transaction_data_with_empty_credential_ids_is_ignored() {
    let plan = plan_ok(
        object(vec![("credentials", array(vec![sd_query("sca", "vct:sca")])), ("transaction_data", array(vec![object(vec![("type", text(SCA_PAY_V1)), ("credential_ids", array(vec![]))])]))]),
        package(vec![with_transaction_types(
            sd_credential("sca-1", "vct:sca"),
            &[SCA_PAY_V1],
        )]),
    );

    assert_plan(&plan, vec![vec![vec![alt("sca", "sca-1")]]]);
}

#[test]
fn transaction_data_with_unknown_credential_ids_is_ignored() {
    let plan = plan_ok(
        object(vec![("credentials", array(vec![sd_query("sca", "vct:sca")])), ("transaction_data", array(vec![object(vec![("type", text(SCA_PAY_V1)), ("credential_ids", array(vec![text("missing")]))])]))]),
        package(vec![with_transaction_types(
            sd_credential("sca-1", "vct:sca"),
            &[SCA_PAY_V1],
        )]),
    );

    assert_plan(&plan, vec![vec![vec![alt("sca", "sca-1")]]]);
}

#[test]
fn single_transaction_data_binds_to_the_targeted_slot() {
    let plan = plan_ok(
        object(vec![("credentials", array(vec![sd_query("sca", "vct:sca")])), ("transaction_data", array(vec![object(vec![("type", text(SCA_PAY_V1)), ("credential_ids", array(vec![text("sca")]))])]))]),
        package(vec![with_transaction_types(
            sd_credential("sca-1", "vct:sca"),
            &[SCA_PAY_V1],
        )]),
    );

    assert_plan(&plan, vec![vec![vec![alt_tx("sca", "sca-1", &[0])]]]);
}

#[test]
fn credentials_without_matching_transaction_type_are_excluded() {
    let plan = plan_ok(
        object(vec![("credentials", array(vec![sd_query("sca", "vct:sca")])), ("transaction_data", array(vec![object(vec![("type", text(SCA_PAY_V1)), ("credential_ids", array(vec![text("sca")]))])]))]),
        package(vec![
            with_transaction_types(sd_credential("can-sign", "vct:sca"), &[SCA_PAY_V1]),
            with_transaction_types(sd_credential("cannot-sign", "vct:sca"), &[OTHER_TD]),
        ]),
    );

    assert_plan(&plan, vec![vec![vec![alt_tx("sca", "can-sign", &[0])]]]);
}

#[test]
fn first_compatible_transaction_data_wins_per_credential() {
    let plan = plan_ok(
        object(vec![("credentials", array(vec![sd_query("sca", "vct:sca")])), ("transaction_data", array(vec![object(vec![("type", text(SCA_PAY_V2)), ("credential_ids", array(vec![text("sca")]))]), object(vec![("type", text(SCA_PAY_V1)), ("credential_ids", array(vec![text("sca")]))])]))]),
        package(vec![
            with_transaction_types(
                sd_credential("new-card", "vct:sca"),
                &[SCA_PAY_V2, SCA_PAY_V1],
            ),
            with_transaction_types(sd_credential("old-card", "vct:sca"), &[SCA_PAY_V1]),
        ]),
    );

    assert_plan(
        &plan,
        vec![vec![vec![
            alt_tx("sca", "new-card", &[0]),
            alt_tx("sca", "old-card", &[1]),
        ]]],
    );
}

#[test]
fn unsupported_newer_entry_falls_back_to_older_compatible_entry() {
    let plan = plan_ok(
        object(vec![("credentials", array(vec![sd_query("sca", "vct:sca")])), ("transaction_data", array(vec![object(vec![("type", text(SCA_PAY_V2)), ("credential_ids", array(vec![text("sca")]))]), object(vec![("type", text(SCA_PAY_V1)), ("credential_ids", array(vec![text("sca")]))])]))]),
        package(vec![with_transaction_types(
            sd_credential("old-card", "vct:sca"),
            &[SCA_PAY_V1],
        )]),
    );

    assert_plan(&plan, vec![vec![vec![alt_tx("sca", "old-card", &[1])]]]);
}

#[test]
fn payload_incompatible_entries_are_skipped_before_fallback() {
    let plan = plan_ok(
        object(vec![("credentials", array(vec![sd_query("sca", "vct:sca")])), ("transaction_data", array(vec![object(vec![("type", text(SCA_PAY_V2)), ("credential_ids", array(vec![text("sca")])), ("payload", object(vec![("kind", text("new"))]))]), object(vec![("type", text(SCA_PAY_V1)), ("credential_ids", array(vec![text("sca")])), ("payload", object(vec![("kind", text("legacy"))]))])]))]),
        package(vec![with_accepted_payload_kinds(
            with_transaction_types(
                sd_credential("legacy-card", "vct:sca"),
                &[SCA_PAY_V2, SCA_PAY_V1],
            ),
            &["legacy"],
        )]),
    );

    assert_plan(&plan, vec![vec![vec![alt_tx("sca", "legacy-card", &[1])]]]);
}

#[test]
fn credentials_without_compatible_transaction_payload_are_excluded() {
    let err = plan_err(
        object(vec![("credentials", array(vec![sd_query("sca", "vct:sca")])), ("transaction_data", array(vec![object(vec![("type", text(SCA_PAY_V1)), ("credential_ids", array(vec![text("sca")])), ("payload", object(vec![("kind", text("new"))]))])]))]),
        package(vec![with_accepted_payload_kinds(
            with_transaction_types(sd_credential("legacy-card", "vct:sca"), &[SCA_PAY_V1]),
            &["legacy"],
        )]),
    );

    assert_unsatisfied(err);
}

#[test]
fn selected_credential_gets_exactly_one_transaction_data_entry() {
    let plan = plan_ok(
        object(vec![("credentials", array(vec![sd_query("sca", "vct:sca")])), ("transaction_data", array(vec![object(vec![("type", text(SCA_PAY_V1)), ("credential_ids", array(vec![text("sca")]))]), object(vec![("type", text(SCA_PAY_V1)), ("credential_ids", array(vec![text("sca")]))])]))]),
        package(vec![with_transaction_types(
            sd_credential("sca-1", "vct:sca"),
            &[SCA_PAY_V1],
        )]),
    );

    assert_plan(&plan, vec![vec![vec![alt_tx("sca", "sca-1", &[0])]]]);
}

#[test]
fn transaction_data_targeting_non_holder_bound_query_is_ignored() {
    let plan = plan_ok(
        object(vec![("credentials", array(vec![sd_query_without_holder_binding("sca", "vct:sca")])), ("transaction_data", array(vec![object(vec![("type", text(SCA_PAY_V1)), ("credential_ids", array(vec![text("sca")]))])]))]),
        package(vec![with_transaction_types(
            sd_credential_without_holder_binding("sca-1", "vct:sca"),
            &[SCA_PAY_V1],
        )]),
    );

    assert_plan(&plan, vec![vec![vec![alt("sca", "sca-1")]]]);
}

#[test]
fn all_sca_transaction_ids_must_appear_in_options_of_the_same_credential_set() {
    let err = plan_err(
        object(vec![("credentials", array(vec![sd_query("sca_card", "vct:sca-card"), sd_query("sca_account", "vct:sca-account")])), ("credential_sets", array(vec![object(vec![("options", array(vec![array(vec![text("sca_card")])]))]), object(vec![("options", array(vec![array(vec![text("sca_account")])]))])])), ("transaction_data", array(vec![object(vec![("type", text(SCA_CARD)), ("credential_ids", array(vec![text("sca_card")]))]), object(vec![("type", text(SCA_ACCOUNT)), ("credential_ids", array(vec![text("sca_account")]))])]))]),
        package(vec![
            with_transaction_types(sd_credential("card", "vct:sca-card"), &[SCA_CARD]),
            with_transaction_types(sd_credential("account", "vct:sca-account"), &[SCA_ACCOUNT]),
        ]),
    );

    assert_invalid_query(err, "same credential set");
}

#[test]
fn non_sca_transaction_data_can_target_different_credential_sets() {
    let plan = plan_ok(
        object(vec![("credentials", array(vec![sd_query("receipt", "vct:receipt"), sd_query("account", "vct:account")])), ("credential_sets", array(vec![object(vec![("options", array(vec![array(vec![text("receipt")])]))]), object(vec![("options", array(vec![array(vec![text("account")])]))])])), ("transaction_data", array(vec![object(vec![("type", text(OTHER_TD)), ("credential_ids", array(vec![text("receipt")]))]), object(vec![("type", text(OTHER_ACCOUNT_TD)), ("credential_ids", array(vec![text("account")]))])]))]),
        package(vec![
            with_transaction_types(sd_credential("receipt-1", "vct:receipt"), &[OTHER_TD]),
            with_transaction_types(
                sd_credential("account-1", "vct:account"),
                &[OTHER_ACCOUNT_TD],
            ),
        ]),
    );

    assert_plan(
        &plan,
        vec![vec![
            vec![alt_tx("receipt", "receipt-1", &[0])],
            vec![alt_tx("account", "account-1", &[1])],
        ]],
    );
}

#[test]
fn non_sca_transaction_data_does_not_trigger_ts12_transposability_rejection() {
    let plan = plan_ok(
        object(vec![("credentials", array(vec![sd_query("receipt", "vct:receipt"), sd_query("pid_1", "vct:pid-1"), sd_query("pid_2", "vct:pid-2"), sd_query("loyalty", "vct:loyalty")])), ("credential_sets", array(vec![object(vec![("options", array(vec![array(vec![text("receipt"), text("pid_1")]), array(vec![text("receipt"), text("pid_2"), text("loyalty")]), array(vec![text("receipt")])]))])])), ("transaction_data", array(vec![object(vec![("type", text(OTHER_TD)), ("credential_ids", array(vec![text("receipt")]))])]))]),
        package(vec![
            with_transaction_types(sd_credential("receipt-1", "vct:receipt"), &[OTHER_TD]),
            sd_credential("pid-1", "vct:pid-1"),
            sd_credential("pid-2", "vct:pid-2"),
            sd_credential("loyalty-1", "vct:loyalty"),
        ]),
    );

    assert!(!plan.presentation_sets.is_empty());
}

#[test]
fn alternative_with_multiple_sca_entries_for_same_credential_uses_first_match() {
    let plan = plan_ok(
        object(vec![("credentials", array(vec![sd_query("sca_card", "vct:sca-card")])), ("credential_sets", array(vec![object(vec![("options", array(vec![array(vec![text("sca_card")])]))])])), ("transaction_data", array(vec![object(vec![("type", text(SCA_CARD)), ("credential_ids", array(vec![text("sca_card")]))]), object(vec![("type", text(SCA_CARD)), ("credential_ids", array(vec![text("sca_card")]))])]))]),
        package(vec![with_transaction_types(
            sd_credential("card", "vct:sca-card"),
            &[SCA_CARD],
        )]),
    );

    assert_plan(&plan, vec![vec![vec![alt_tx("sca_card", "card", &[0])]]]);
}

#[test]
fn transposable_sca_options_decompose_into_slots_with_optional_none() {
    let plan = plan_ok(
        object(vec![("credentials", array(vec![sd_query("sca_card", "vct:sca-card"), sd_query("pid_1", "vct:pid-1"), sd_query("pid_2", "vct:pid-2")])), ("credential_sets", array(vec![object(vec![("options", array(vec![array(vec![text("sca_card"), text("pid_1")]), array(vec![text("sca_card"), text("pid_2")]), array(vec![text("sca_card")])]))])])), ("transaction_data", array(vec![object(vec![("type", text(SCA_CARD)), ("credential_ids", array(vec![text("sca_card")]))])]))]),
        package(vec![
            with_transaction_types(sd_credential("card", "vct:sca-card"), &[SCA_CARD]),
            sd_credential("pid-1", "vct:pid-1"),
            sd_credential("pid-2", "vct:pid-2"),
        ]),
    );

    assert_plan(
        &plan,
        vec![vec![
            vec![alt_tx("sca_card", "card", &[0])],
            vec![alt("pid_1", "pid-1"), alt("pid_2", "pid-2"), none("pid_1")],
        ]],
    );
}

#[test]
fn non_transposable_sca_options_are_invalid() {
    let err = plan_err(
        object(vec![("credentials", array(vec![sd_query("sca_card", "vct:sca-card"), sd_query("pid_1", "vct:pid-1"), sd_query("pid_2", "vct:pid-2"), sd_query("loyalty", "vct:loyalty")])), ("credential_sets", array(vec![object(vec![("options", array(vec![array(vec![text("sca_card"), text("pid_1")]), array(vec![text("sca_card"), text("pid_2"), text("loyalty")]), array(vec![text("sca_card")])]))])])), ("transaction_data", array(vec![object(vec![("type", text(SCA_CARD)), ("credential_ids", array(vec![text("sca_card")]))])]))]),
        package(vec![
            with_transaction_types(sd_credential("card", "vct:sca-card"), &[SCA_CARD]),
            sd_credential("pid-1", "vct:pid-1"),
            sd_credential("pid-2", "vct:pid-2"),
            sd_credential("loyalty-1", "vct:loyalty"),
        ]),
    );

    assert_invalid_query(err, "not transposable");
}

#[test]
fn different_sca_options_keep_their_own_transaction_data_binding() {
    let plan = plan_ok(
        object(vec![("credentials", array(vec![sd_query("sca_card", "vct:sca-card"), sd_query("sca_account", "vct:sca-account"), sd_query("pid", "vct:pid")])), ("credential_sets", array(vec![object(vec![("options", array(vec![array(vec![text("sca_card"), text("pid")]), array(vec![text("sca_account"), text("pid")])]))])])), ("transaction_data", array(vec![object(vec![("type", text(SCA_CARD)), ("credential_ids", array(vec![text("sca_card")]))]), object(vec![("type", text(SCA_ACCOUNT)), ("credential_ids", array(vec![text("sca_account")]))])]))]),
        package(vec![
            with_transaction_types(sd_credential("card", "vct:sca-card"), &[SCA_CARD]),
            with_transaction_types(sd_credential("account", "vct:sca-account"), &[SCA_ACCOUNT]),
            sd_credential("pid-1", "vct:pid"),
        ]),
    );

    assert_plan(
        &plan,
        vec![vec![
            vec![
                alt_tx("sca_card", "card", &[0]),
                alt_tx("sca_account", "account", &[1]),
            ],
            vec![alt("pid", "pid-1")],
        ]],
    );
}

#[test]
fn slot_display_order_and_default_follow_first_alternative() {
    let plan = plan_ok(
        object(vec![("credentials", array(vec![sd_query("pid_2", "vct:pid-2"), sd_query("sca_card", "vct:sca-card"), sd_query("pid_1", "vct:pid-1")])), ("credential_sets", array(vec![object(vec![("options", array(vec![array(vec![text("sca_card"), text("pid_1")]), array(vec![text("sca_card"), text("pid_2")]), array(vec![text("sca_card")])]))])])), ("transaction_data", array(vec![object(vec![("type", text(SCA_CARD)), ("credential_ids", array(vec![text("sca_card")]))])]))]),
        package(vec![
            sd_credential("pid-2", "vct:pid-2"),
            with_transaction_types(sd_credential("card", "vct:sca-card"), &[SCA_CARD]),
            sd_credential("pid-1", "vct:pid-1"),
        ]),
    );

    let pid_slot = plan
        .presentation_sets
        .first()
        .expect("one presentation set")
        .iter()
        .find(|slot| {
            slot.alternatives
                .iter()
                .any(|selection| selection.dcql_id == "pid_1" || selection.dcql_id == "pid_2")
        })
        .expect("pid slot");

    let ordered = pid_slot
        .alternatives
        .iter()
        .map(|selection| {
            (
                selection.dcql_id.as_str(),
                selection.credential_id.as_deref(),
            )
        })
        .collect::<Vec<_>>();

    assert_eq!(
        ordered,
        vec![
            ("pid_1", Some("pid-1")),
            ("pid_2", Some("pid-2")),
            ("pid_1", None)
        ]
    );
}
