use dcapi_matcher::base64url::Base64Error;
use dcapi_matcher::c8::C8Text;
use dcapi_matcher::json::{JsonNumber, JsonValue};
use dcapi_matcher::matcher::config::{
    OpenId4VpConfig, PROTOCOL_OPENID4VP, PROTOCOL_OPENID4VP_V1_MULTISIGNED,
    PROTOCOL_OPENID4VP_V1_SIGNED, PROTOCOL_OPENID4VP_V1_UNSIGNED,
};
use dcapi_matcher::matcher::engine::{
    match_dc_api_request, DcApiRequestItem, MatcherOptions, MatcherResponse,
};
use dcapi_matcher::matcher::entries::{
    build_entry, build_metadata, metadata_value, set_id_for_dcql, CredentialEntry,
    SelectedTransactionData,
};
use dcapi_matcher::matcher::envelope::{
    decode_openid4vp_multisigned_envelope, decode_openid4vp_signed_envelope, split_text,
};
use dcapi_matcher::matcher::error::{MatcherError, OpenId4VpError};
use dcapi_matcher::matcher::request::{
    OpenId4VpMultiSignedData, OpenId4VpRequest, OpenId4VpSignature, OpenId4VpSignedData,
    OpenId4VpSignedEnvelope, OpenId4VpSignedFormat, TransactionDataInput,
};
use dcapi_matcher::matcher::store::{
    DcqlSelectionContext, LogLevel, MatcherStore, Ts12PaymentSummary,
};
use dcapi_matcher::matcher::transaction_data::decode_transaction_data;
use dcapi_matcher::models::{
    ClaimValue, ClaimsQuery, CredentialQuery, CredentialQueryCommon, CredentialSetQuery, DcqlQuery,
    IsoMdocMeta, NonEmptyVec, SdJwtMeta, TransactionData, TrustedAuthority,
};
use dcapi_matcher::path::{pointer_from_strings, ClaimsPathPointer, PathElement};
use dcapi_matcher::planner::error::PlanError;
use dcapi_matcher::render::render_json;
use dcapi_matcher::store::{CredentialFormat, CredentialStore, ValueMatch};
use dcapi_matcher::ts12::metadata::{Ts12DataType, Ts12TransactionMetadata};
use serde_json::Value;

const PAY: &str = "urn:eudi:sca:example:pay:1";

struct Card {
    id: &'static str,
    format: CredentialFormat,
    kind: &'static str,
    signs: Vec<&'static str>,
}

struct Wallet {
    cards: Vec<Card>,
    config: OpenId4VpConfig,
    protocols: Vec<&'static str>,
    verifies: bool,
    summarizes: bool,
}

impl CredentialStore for Wallet {
    type CredentialRef = usize;

    fn list_credentials(&self, format: Option<CredentialFormat>) -> Vec<usize> {
        (0..self.cards.len())
            .filter(|at| format.map(|format| self.cards[*at].format == format).unwrap_or(true))
            .collect()
    }

    fn format(&self, cred: &usize) -> CredentialFormat {
        self.cards[*cred].format
    }

    fn has_vct(&self, cred: &usize, vct: &str) -> bool {
        self.cards[*cred].kind == vct
    }

    fn supports_holder_binding(&self, _cred: &usize) -> bool {
        true
    }

    fn has_doctype(&self, cred: &usize, doctype: &str) -> bool {
        self.cards[*cred].kind == doctype
    }

    fn can_sign_transaction_data(&self, cred: &usize, data: &TransactionData) -> bool {
        self.cards[*cred].signs.contains(&data.data_type.as_str())
    }

    fn has_claim_path(&self, _cred: &usize, path: &ClaimsPathPointer) -> bool {
        path.first().is_some_and(|first| matches!(first, PathElement::String(_)))
    }

    fn match_claim_value(
        &self,
        _cred: &usize,
        _path: &ClaimsPathPointer,
        _expected: &[ClaimValue],
    ) -> ValueMatch {
        ValueMatch::NoMatch
    }

    fn matches_trusted_authorities(
        &self,
        _cred: &usize,
        _trusted_authorities: &[TrustedAuthority],
    ) -> bool {
        false
    }
}

fn c8(text: &str) -> C8Text {
    C8Text::from_string(text.to_string()).expect("no NUL")
}

impl MatcherStore for Wallet {
    fn credential_id(&self, cred: &usize) -> C8Text {
        c8(self.cards[*cred].id)
    }

    fn credential_title(&self, cred: &usize) -> C8Text {
        c8(&format!("Title of {}", self.cards[*cred].id))
    }

    fn credential_icon(&self, _cred: &usize) -> Option<Vec<u8>> {
        Some(vec![1, 2])
    }

    fn credential_subtitle(&self, _cred: &usize) -> Option<C8Text> {
        Some(c8("Subtitle"))
    }

    fn credential_disclaimer(&self, _cred: &usize) -> Option<C8Text> {
        Some(c8("Disclaimer"))
    }

    fn credential_warning(&self, _cred: &usize) -> Option<C8Text> {
        Some(c8("Warning"))
    }

    fn get_credential_field_label(&self, _cred: &usize, path: &ClaimsPathPointer) -> Option<C8Text> {
        match path.first() {
            Some(PathElement::String(name)) if name != "unnamed" => Some(c8(name)),
            _ => None,
        }
    }

    fn get_credential_field_value(&self, _cred: &usize, path: &ClaimsPathPointer) -> Option<C8Text> {
        if path.len() > 1 {
            Some(c8("nested"))
        } else {
            None
        }
    }

    fn supports_protocol(&self, _cred: &usize, protocol: &str) -> bool {
        self.protocols.contains(&protocol)
    }

    fn verify_openid4vp_signed_request(
        &self,
        _protocol: &str,
        _request: &OpenId4VpSignedEnvelope,
    ) -> bool {
        self.verifies
    }

    fn openid4vp_config(&self) -> OpenId4VpConfig {
        self.config.clone()
    }

    fn log_level(&self) -> Option<LogLevel> {
        None
    }

    fn ts12_transaction_metadata(
        &self,
        _cred: &usize,
        data: &TransactionData,
    ) -> Option<Ts12TransactionMetadata> {
        Some(Ts12TransactionMetadata {
            data_type: Ts12DataType {
                data_type: data.data_type.clone(),
            },
            claims: Vec::new(),
        })
    }

    fn ts12_payment_summary(
        &self,
        _cred: &usize,
        data: &TransactionData,
        _payload: &JsonValue,
        _metadata: &Ts12TransactionMetadata,
    ) -> Option<Ts12PaymentSummary> {
        if self.summarizes {
            Some(Ts12PaymentSummary {
                merchant_name: c8("Shop"),
                transaction_amount: c8(&data.data_type),
                additional_info: Some(c8("Info")),
            })
        } else {
            None
        }
    }
}

fn all_protocols() -> OpenId4VpConfig {
    let mut config = OpenId4VpConfig::openid4vp1();
    config
        .supported_request_protocols
        .push(PROTOCOL_OPENID4VP_V1_SIGNED.to_string());
    config
        .supported_request_protocols
        .push(PROTOCOL_OPENID4VP_V1_MULTISIGNED.to_string());
    config
}

fn wallet() -> Wallet {
    Wallet {
        cards: vec![
            Card {
                id: "card",
                format: CredentialFormat::DcSdJwt,
                kind: "vct:card",
                signs: vec![PAY],
            },
            Card {
                id: "licence",
                format: CredentialFormat::MsoMdoc,
                kind: "doc:licence",
                signs: vec!["urn:generic:a", "urn:generic:b"],
            },
        ],
        config: all_protocols(),
        protocols: vec![
            PROTOCOL_OPENID4VP_V1_UNSIGNED,
            PROTOCOL_OPENID4VP_V1_SIGNED,
            PROTOCOL_OPENID4VP_V1_MULTISIGNED,
        ],
        verifies: true,
        summarizes: true,
    }
}

fn common(id: &str, claims: Option<Vec<ClaimsQuery>>) -> CredentialQueryCommon {
    CredentialQueryCommon {
        id: id.to_string(),
        multiple: None,
        trusted_authorities: None,
        require_cryptographic_holder_binding: None,
        claims,
        claim_sets: None,
    }
}

fn card_query(id: &str) -> CredentialQuery {
    CredentialQuery::DcSdJwt {
        common: common(id, None),
        meta: SdJwtMeta {
            vct_values: Some(vec!["vct:card".to_string()]),
        },
    }
}

fn licence_query(id: &str, claims: Option<Vec<ClaimsQuery>>) -> CredentialQuery {
    CredentialQuery::MsoMdoc {
        common: common(id, claims),
        meta: IsoMdocMeta {
            doctype_value: "doc:licence".to_string(),
        },
    }
}

fn query(credentials: Vec<CredentialQuery>) -> DcqlQuery {
    DcqlQuery {
        credentials: NonEmptyVec::try_new(credentials, "empty").expect("some queries"),
        credential_sets: None,
    }
}

fn request(dcql_query: DcqlQuery) -> OpenId4VpRequest {
    OpenId4VpRequest {
        response_mode: None,
        response_type: None,
        dcql_query: Some(dcql_query),
        transaction_data: None,
        extra: Vec::new(),
    }
}

fn text(value: &str) -> JsonValue {
    JsonValue::String(value.to_string())
}

fn data(data_type: &str, ids: &[&str], payload: Option<JsonValue>) -> TransactionData {
    TransactionData {
        data_type: data_type.to_string(),
        credential_ids: ids.iter().map(|id| id.to_string()).collect(),
        transaction_data_hashes_alg: None,
        extra: payload
            .map(|payload| vec![("payload".to_string(), payload)])
            .unwrap_or_default(),
    }
}

fn unsigned(request: OpenId4VpRequest) -> DcApiRequestItem {
    DcApiRequestItem::OpenId4VpUnsigned {
        request: Ok(request),
    }
}

fn respond(
    wallet: &Wallet,
    items: Vec<DcApiRequestItem>,
    origin: &str,
) -> Result<MatcherResponse, MatcherError> {
    match_dc_api_request(&items, origin, wallet, &MatcherOptions::default())
}

fn fault(wallet: &Wallet, item: DcApiRequestItem, origin: &str) -> MatcherError {
    match respond(wallet, vec![item], origin) {
        Ok(response) => panic!("expected an error, got {response:?}"),
        Err(error) => error,
    }
}

fn set_ids(response: &MatcherResponse) -> Vec<String> {
    response
        .results
        .iter()
        .map(|set| set.set_id.as_str().to_string())
        .collect()
}

fn metadata_of(entry: &CredentialEntry) -> Value {
    let text = match entry {
        CredentialEntry::StringId(entry) => &entry.metadata,
        CredentialEntry::Payment(entry) => &entry.metadata,
    };
    serde_json::from_str(text.as_str()).expect("a JSON document")
}

fn index_told(entry: &CredentialEntry) -> Option<u64> {
    metadata_of(entry).get("transaction_data")?.get("index")?.as_u64()
}

fn displayed_told(entry: &CredentialEntry) -> Option<bool> {
    metadata_of(entry).get("transaction_data")?.get("displayed")?.as_bool()
}

#[test]
fn every_request_that_can_be_answered_is_exposed_under_its_index() {
    let wallet = wallet();
    let unanswered = DcqlQuery {
        credentials: NonEmptyVec::try_new(
            vec![CredentialQuery::MsoMdoc {
                common: common("x", None),
                meta: IsoMdocMeta {
                    doctype_value: "doc:other".to_string(),
                },
            }],
            "empty",
        )
        .expect("one query"),
        credential_sets: None,
    };
    let response = respond(
        &wallet,
        vec![
            unsigned(request(query(vec![card_query("a")]))),
            DcApiRequestItem::Unknown,
            unsigned(request(unanswered)),
            unsigned(request(query(vec![licence_query("b", None)]))),
        ],
        "",
    )
    .expect("a response");
    assert_eq!(
        set_ids(&response),
        vec![
            "openid4vp-v1-unsigned:0:dcql:0".to_string(),
            "openid4vp-v1-unsigned:3:dcql:0".to_string(),
        ]
    );
}

#[test]
fn the_first_fault_is_reported() {
    let wallet = wallet();
    let error = match respond(
        &wallet,
        vec![
            unsigned(request(query(vec![card_query("a")]))),
            DcApiRequestItem::OpenId4VpUnsigned {
                request: Err("first".to_string()),
            },
            DcApiRequestItem::OpenId4VpUnsigned {
                request: Err("second".to_string()),
            },
        ],
        "",
    ) {
        Ok(_) => panic!("expected an error"),
        Err(error) => error,
    };
    assert!(matches!(
        error,
        MatcherError::InvalidOpenId4Vp(OpenId4VpError::Json { message }) if message == "first"
    ));
}

#[test]
fn entries_of_a_credential_show_what_the_store_says() {
    let wallet = wallet();
    let claims = vec![
        ClaimsQuery {
            id: None,
            path: pointer_from_strings(&["family"]),
            values: None,
            intent_to_retain: None,
        },
        ClaimsQuery {
            id: None,
            path: pointer_from_strings(&["given", "first"]),
            values: None,
            intent_to_retain: None,
        },
        ClaimsQuery {
            id: None,
            path: pointer_from_strings(&["unnamed"]),
            values: None,
            intent_to_retain: None,
        },
        ClaimsQuery {
            id: None,
            path: vec![PathElement::String("all".to_string()), PathElement::Wildcard],
            values: None,
            intent_to_retain: None,
        },
    ];
    let response = respond(
        &wallet,
        vec![unsigned(request(query(vec![licence_query(
            "b",
            Some(claims),
        )])))],
        "",
    )
    .expect("a response");
    let CredentialEntry::StringId(entry) = &response.results[0].slots[0].alternatives[0] else {
        panic!("expected an entry with an id");
    };
    assert_eq!(entry.cred_id.as_str(), "licence");
    assert_eq!(entry.title.as_str(), "Title of licence");
    assert_eq!(entry.icon, Some(vec![1, 2]));
    assert_eq!(entry.subtitle.as_ref().map(C8Text::as_str), Some("Subtitle"));
    assert_eq!(entry.disclaimer.as_ref().map(C8Text::as_str), Some("Disclaimer"));
    assert_eq!(entry.warning.as_ref().map(C8Text::as_str), Some("Warning"));
    let shown: Vec<(&str, Option<&str>)> = entry
        .fields
        .iter()
        .map(|field| {
            (
                field.display_name.as_str(),
                field.display_value.as_ref().map(C8Text::as_str),
            )
        })
        .collect();
    assert_eq!(shown, vec![("family", None), ("given", Some("nested"))]);
    assert_eq!(
        entry.metadata.as_str(),
        r#"{"credential_id":"licence","dcql_id":"b"}"#
    );
}

#[test]
fn unsupported_parts_give_no_match() {
    let base = || request(query(vec![card_query("a")]));
    let found = |change: &dyn Fn(&mut Wallet), asked: OpenId4VpRequest| {
        let mut wallet = wallet();
        change(&mut wallet);
        respond(&wallet, vec![unsigned(asked)], "")
            .expect("a response")
            .results
            .len()
    };
    assert_eq!(found(&|_| {}, base()), 1);
    assert_eq!(found(&|wallet| wallet.config.enabled = false, base()), 0);
    assert_eq!(
        found(
            &|wallet| wallet.config.supported_request_protocols.clear(),
            base()
        ),
        0
    );
    assert_eq!(
        found(&|wallet| wallet.config.supported_response_modes.clear(), base()),
        0
    );
    assert_eq!(
        found(&|wallet| wallet.config.supported_query_methods.clear(), base()),
        0
    );
    let mut asked = base();
    asked.response_mode = Some("fragment".to_string());
    assert_eq!(found(&|_| {}, asked), 0);
    let mut asked = base();
    asked.response_mode = Some("dc_api".to_string());
    assert_eq!(found(&|_| {}, asked), 1);
    let mut asked = base();
    asked.response_type = Some("code".to_string());
    assert_eq!(found(&|_| {}, asked), 0);
    let mut asked = base();
    asked.response_type = Some("vp_token".to_string());
    assert_eq!(found(&|_| {}, asked), 1);
    let mut asked = base();
    asked.dcql_query = None;
    assert_eq!(found(&|_| {}, asked), 0);
    let mut asked = base();
    asked.extra = vec![("unknown".to_string(), text("value"))];
    assert_eq!(found(&|_| {}, asked), 1);
    let with_data = || {
        let mut asked = base();
        asked.transaction_data = Some(vec![TransactionDataInput::Decoded(data(
            PAY,
            &["a"],
            None,
        ))]);
        asked
    };
    assert_eq!(found(&|_| {}, with_data()), 1);
    assert_eq!(
        found(
            &|wallet| wallet.config.supported_request_parameters.clear(),
            with_data()
        ),
        0
    );
}

#[test]
fn credentials_need_to_be_available_for_the_protocol() {
    let mut wallet = wallet();
    let asked = || vec![unsigned(request(query(vec![card_query("a")])))];
    wallet.protocols = vec![PROTOCOL_OPENID4VP];
    let response = respond(&wallet, asked(), "").expect("a response");
    assert_eq!(response.results[0].slots.len(), 1);
    wallet.protocols = Vec::new();
    let response = respond(&wallet, asked(), "").expect("a response");
    assert_eq!(response.results.len(), 1);
    assert!(response.results[0].slots.is_empty());
}

#[test]
fn one_payment_summary_makes_a_payment_entry() {
    let mut wallet = wallet();
    let payload = JsonValue::Object(Vec::new());
    let asked = |inputs: Vec<TransactionDataInput>| {
        let mut asked = request(query(vec![card_query("a")]));
        asked.transaction_data = Some(inputs);
        vec![unsigned(asked)]
    };
    let response = respond(
        &wallet,
        asked(vec![TransactionDataInput::Decoded(data(
            PAY,
            &["a"],
            Some(payload.clone()),
        ))]),
        "",
    )
    .expect("a response");
    let entry = &response.results[0].slots[0].alternatives[0];
    let CredentialEntry::Payment(payment) = entry else {
        panic!("expected a payment");
    };
    assert_eq!(payment.cred_id.as_str(), "card");
    assert_eq!(payment.merchant_name.as_str(), "Shop");
    assert_eq!(payment.transaction_amount.as_str(), PAY);
    assert_eq!(payment.payment_method_name.as_str(), "Title of card");
    assert_eq!(
        payment.additional_info.as_ref().map(C8Text::as_str),
        Some("Info")
    );
    assert_eq!(index_told(entry), Some(0));
    assert_eq!(displayed_told(entry), Some(true));

    wallet.summarizes = false;
    let response = respond(
        &wallet,
        asked(vec![TransactionDataInput::Decoded(data(
            PAY,
            &["a"],
            Some(payload),
        ))]),
        "",
    )
    .expect("a response");
    let entry = &response.results[0].slots[0].alternatives[0];
    assert!(matches!(entry, CredentialEntry::StringId(_)));
    assert_eq!(index_told(entry), Some(0));
    assert_eq!(displayed_told(entry), Some(false));
}

#[test]
fn two_payment_summaries_make_no_payment_entry() {
    let wallet = wallet();
    let payload = JsonValue::Object(Vec::new());
    let mut asked = request(query(vec![licence_query("b", None)]));
    asked.transaction_data = Some(vec![
        TransactionDataInput::Decoded(data("urn:generic:a", &["b"], Some(payload.clone()))),
        TransactionDataInput::Decoded(data("urn:generic:b", &["b"], Some(payload))),
    ]);
    let response = respond(&wallet, vec![unsigned(asked)], "").expect("a response");
    let entry = &response.results[0].slots[0].alternatives[0];
    assert!(matches!(entry, CredentialEntry::StringId(_)));
    assert_eq!(index_told(entry), Some(0));
    assert_eq!(displayed_told(entry), Some(false));
}

#[test]
fn metadata_counts_the_entries_of_the_request() {
    let wallet = wallet();
    let mut asked = request(query(vec![card_query("a")]));
    asked.transaction_data = Some(vec![
        TransactionDataInput::Decoded(data("", &["a"], None)),
        TransactionDataInput::Decoded(data(PAY, &[], None)),
        TransactionDataInput::Decoded(data(PAY, &["a"], Some(text("no object")))),
        TransactionDataInput::Encoded {
            encoded: "%".to_string(),
            parsed: Some(data(PAY, &["a"], None)),
        },
        TransactionDataInput::Encoded {
            encoded: "e30".to_string(),
            parsed: None,
        },
        TransactionDataInput::Encoded {
            encoded: "e30".to_string(),
            parsed: Some(data(PAY, &["a"], None)),
        },
    ]);
    let decoded = decode_transaction_data(&asked.transaction_data).expect("transaction data");
    assert_eq!(decoded.data.len(), 1);
    assert_eq!(decoded.request_indices, vec![5]);
    let response = respond(&wallet, vec![unsigned(asked)], "").expect("a response");
    let entry = &response.results[0].slots[0].alternatives[0];
    assert_eq!(index_told(entry), Some(5));
    assert!(decode_transaction_data(&None).is_none());
}

#[test]
fn optional_slots_offer_to_present_nothing() {
    let wallet = wallet();
    let mut asked = query(vec![card_query("a"), licence_query("b", None)]);
    asked.credential_sets = Some(vec![
        CredentialSetQuery {
            options: vec![vec!["a".to_string()]],
            required: true,
            purpose: None,
        },
        CredentialSetQuery {
            options: vec![vec!["b".to_string()]],
            required: false,
            purpose: None,
        },
    ]);
    let response = respond(&wallet, vec![unsigned(request(asked))], "").expect("a response");
    let slots = &response.results[0].slots;
    assert_eq!(slots.len(), 2);
    let CredentialEntry::StringId(entry) = &slots[1].alternatives[1] else {
        panic!("expected an entry with an id");
    };
    assert_eq!(entry.cred_id.as_str(), "__none__:0:0:1");
    assert_eq!(entry.title.as_str(), "No credential");
    assert_eq!(entry.fields.len(), 1);
    assert_eq!(
        entry.fields[0].display_name.as_str(),
        "No credential will be presented"
    );
    assert_eq!(
        entry.metadata.as_str(),
        r#"{"credential_id":"__none__","dcql_id":"b"}"#
    );
}

#[test]
fn faulty_queries_are_reported() {
    let wallet = wallet();
    let mut asked = query(vec![card_query("a"), card_query("b")]);
    asked.credential_sets = Some(vec![
        CredentialSetQuery {
            options: vec![vec!["a".to_string()]],
            required: true,
            purpose: None,
        },
        CredentialSetQuery {
            options: vec![vec!["b".to_string()]],
            required: true,
            purpose: None,
        },
    ]);
    let mut asked = request(asked);
    asked.transaction_data = Some(vec![TransactionDataInput::Decoded(data(
        PAY,
        &["a", "b"],
        None,
    ))]);
    assert!(matches!(
        fault(&wallet, unsigned(asked), ""),
        MatcherError::Dcql(PlanError::InvalidQuery(message))
            if message == "SCA transaction_data credential ids must appear in the same credential set"
    ));
}

const HEADER: &str = "eyJhbGciOiJFUzI1NiJ9";
const PAYLOAD: &str = "eyJhIjoxfQ";

fn signed(compact: &str, request: Result<OpenId4VpRequest, String>) -> DcApiRequestItem {
    DcApiRequestItem::OpenId4VpSigned {
        data: OpenId4VpSignedData {
            request: compact.to_string(),
        },
        request,
    }
}

fn for_origins(origins: JsonValue) -> OpenId4VpRequest {
    let mut asked = request(query(vec![card_query("a")]));
    asked.extra = vec![("expected_origins".to_string(), origins)];
    asked
}

fn compact() -> String {
    format!("{HEADER}.{PAYLOAD}.c2ln")
}

#[test]
fn signed_requests_for_the_caller_are_matched() {
    let wallet = wallet();
    let origins = JsonValue::Array(vec![text("https://a.example"), text("https://b.example")]);
    let response = respond(
        &wallet,
        vec![signed(&compact(), Ok(for_origins(origins)))],
        "https://b.example",
    )
    .expect("a response");
    assert_eq!(
        set_ids(&response),
        vec!["openid4vp-v1-signed:0:dcql:0".to_string()]
    );
}

#[test]
fn signed_requests_need_three_parts() {
    let wallet = wallet();
    let wrong = [
        String::new(),
        HEADER.to_string(),
        format!("{HEADER}.{PAYLOAD}"),
        format!("{HEADER}.{PAYLOAD}."),
        format!(".{PAYLOAD}.c2ln"),
        format!("{HEADER}..c2ln"),
        format!("{HEADER}.{PAYLOAD}.c2ln.more"),
    ];
    for compact in wrong {
        assert!(matches!(
            fault(&wallet, signed(&compact, Err("unread".to_string())), "https://a.example"),
            MatcherError::InvalidOpenId4Vp(OpenId4VpError::SignedRequestMalformed { protocol })
                if protocol == PROTOCOL_OPENID4VP_V1_SIGNED
        ));
    }
}

#[test]
fn parts_of_signed_requests_have_to_be_base64url_json() {
    let wallet = wallet();
    let unread = || Err("unread".to_string());
    assert!(matches!(
        fault(&wallet, signed(&format!("%.{PAYLOAD}.c2ln"), unread()), "o"),
        MatcherError::InvalidBase64(Base64Error::InvalidByte(0, b'%'))
    ));
    assert!(matches!(
        fault(&wallet, signed(&format!("{HEADER}.e.c2ln"), unread()), "o"),
        MatcherError::InvalidBase64(_)
    ));
    assert!(matches!(
        fault(&wallet, signed(&format!("{HEADER}.eyI.c2ln"), unread()), "o"),
        MatcherError::InvalidOpenId4Vp(OpenId4VpError::SignedPayloadNotSupported {
            protocol,
            ..
        }) if protocol == PROTOCOL_OPENID4VP_V1_SIGNED
    ));
}

#[test]
fn signed_requests_are_refused_in_order() {
    let mut wallet = wallet();
    let good = || for_origins(JsonValue::Array(vec![text("https://a.example")]));
    wallet.verifies = false;
    assert!(matches!(
        fault(&wallet, signed(&compact(), Ok(good())), "https://a.example"),
        MatcherError::InvalidOpenId4Vp(OpenId4VpError::SignedRequestUnverified { protocol })
            if protocol == PROTOCOL_OPENID4VP_V1_SIGNED
    ));
    wallet.verifies = true;
    assert!(matches!(
        fault(&wallet, signed(&compact(), Err("no request".to_string())), "https://a.example"),
        MatcherError::InvalidOpenId4Vp(OpenId4VpError::SignedPayloadNotSupported {
            message,
            ..
        }) if message == "no request"
    ));
    let missing = [
        None,
        Some(text("https://a.example")),
        Some(JsonValue::Array(Vec::new())),
        Some(JsonValue::Array(vec![text("https://a.example"), text("")])),
        Some(JsonValue::Array(vec![text("https://a.example"), JsonValue::Null])),
    ];
    for origins in missing {
        let asked = match origins {
            Some(origins) => for_origins(origins),
            None => request(query(vec![card_query("a")])),
        };
        assert!(matches!(
            fault(&wallet, signed(&compact(), Ok(asked)), "https://a.example"),
            MatcherError::InvalidOpenId4Vp(OpenId4VpError::ExpectedOriginsMissing { .. })
        ));
    }
    assert!(matches!(
        fault(&wallet, signed(&compact(), Ok(good())), ""),
        MatcherError::InvalidOpenId4Vp(OpenId4VpError::OriginMissing { .. })
    ));
    assert!(matches!(
        fault(&wallet, signed(&compact(), Ok(good())), "https://evil.example"),
        MatcherError::InvalidOpenId4Vp(OpenId4VpError::OriginMismatch { origin, .. })
            if origin == "https://evil.example"
    ));
}

fn multisigned(signatures: Vec<(&str, &str)>) -> OpenId4VpMultiSignedData {
    OpenId4VpMultiSignedData {
        payload: PAYLOAD.to_string(),
        signatures: signatures
            .into_iter()
            .map(|(protected, signature)| OpenId4VpSignature {
                protected: protected.to_string(),
                signature: signature.to_string(),
                header: Some(text("header")),
            })
            .collect(),
    }
}

#[test]
fn requests_with_several_signatures_are_matched() {
    let wallet = wallet();
    let asked = for_origins(JsonValue::Array(vec![text("https://a.example")]));
    let response = respond(
        &wallet,
        vec![DcApiRequestItem::OpenId4VpMultiSigned {
            data: multisigned(vec![(HEADER, "c2ln"), (HEADER, "c2ln")]),
            request: Ok(asked),
        }],
        "https://a.example",
    )
    .expect("a response");
    assert_eq!(
        set_ids(&response),
        vec!["openid4vp-v1-multisigned:0:dcql:0".to_string()]
    );
}

#[test]
fn requests_with_several_signatures_need_all_of_their_parts() {
    let wrong = [
        multisigned(Vec::new()),
        multisigned(vec![(HEADER, "c2ln"), ("", "c2ln")]),
        multisigned(vec![(HEADER, "")]),
    ];
    for data in wrong {
        assert!(matches!(
            decode_openid4vp_multisigned_envelope(PROTOCOL_OPENID4VP_V1_MULTISIGNED, &data),
            Err(MatcherError::InvalidOpenId4Vp(
                OpenId4VpError::SignedRequestMalformed { .. }
            ))
        ));
    }
    assert!(matches!(
        decode_openid4vp_multisigned_envelope(
            PROTOCOL_OPENID4VP_V1_MULTISIGNED,
            &multisigned(vec![("%", "c2ln")])
        ),
        Err(MatcherError::InvalidBase64(_))
    ));
}

#[test]
fn envelopes_hold_what_was_signed() {
    let envelope = decode_openid4vp_signed_envelope(
        PROTOCOL_OPENID4VP_V1_SIGNED,
        &OpenId4VpSignedData { request: compact() },
    )
    .expect("an envelope");
    assert_eq!(envelope.format, OpenId4VpSignedFormat::Compact);
    assert_eq!(envelope.payload_b64, PAYLOAD);
    assert_eq!(envelope.payload["a"].as_u64(), Some(1));
    assert_eq!(envelope.signatures.len(), 1);
    assert_eq!(envelope.signatures[0].protected_b64, HEADER);
    assert_eq!(envelope.signatures[0].protected["alg"].as_str(), Some("ES256"));
    assert_eq!(envelope.signatures[0].signature_b64, "c2ln");
    assert!(envelope.signatures[0].header.is_none());

    let envelope = decode_openid4vp_multisigned_envelope(
        PROTOCOL_OPENID4VP_V1_MULTISIGNED,
        &multisigned(vec![(HEADER, "b25l"), (HEADER, "dHdv")]),
    )
    .expect("an envelope");
    assert_eq!(envelope.format, OpenId4VpSignedFormat::Json);
    assert_eq!(envelope.signatures.len(), 2);
    assert_eq!(envelope.signatures[1].signature_b64, "dHdv");
    assert!(envelope.signatures[1].header.is_some());
}

#[test]
fn text_is_split_at_every_separator() {
    let parts = |text: &str| split_text(text, '.');
    assert_eq!(parts(""), vec![""]);
    assert_eq!(parts("a"), vec!["a"]);
    assert_eq!(parts("a.b..c"), vec!["a", "b", "", "c"]);
    assert_eq!(parts("."), vec!["", ""]);
}

#[test]
fn set_ids_tell_protocol_request_and_set() {
    assert_eq!(set_id_for_dcql("p", 12, 3).as_str(), "p:12:dcql:3");
    assert_eq!(set_id_for_dcql("p\0q", 0, 10).as_str(), "pq:0:dcql:10");
}

#[test]
fn metadata_has_no_other_members() {
    let JsonValue::Object(entries) = metadata_value("q", "c", None) else {
        panic!("expected an object");
    };
    let names: Vec<&str> = entries.iter().map(|(name, _)| name.as_str()).collect();
    assert_eq!(names, vec!["dcql_id", "credential_id"]);
    let told = SelectedTransactionData {
        index: 4,
        displayed: true,
    };
    let JsonValue::Object(entries) = metadata_value("q", "c", Some(told)) else {
        panic!("expected an object");
    };
    let names: Vec<&str> = entries.iter().map(|(name, _)| name.as_str()).collect();
    assert_eq!(names, vec!["dcql_id", "credential_id", "transaction_data"]);
    let JsonValue::Object(told) = &entries[2].1 else {
        panic!("expected an object");
    };
    let names: Vec<&str> = told.iter().map(|(name, _)| name.as_str()).collect();
    assert_eq!(names, vec!["index", "displayed"]);
}

#[test]
fn metadata_is_the_text_of_its_document() {
    let told = SelectedTransactionData {
        index: 4,
        displayed: true,
    };
    assert_eq!(
        build_metadata("q", "c", Some(told)).as_str(),
        r#"{"credential_id":"c","dcql_id":"q","transaction_data":{"displayed":true,"index":4}}"#
    );
    assert_eq!(
        build_metadata("a\"b\0", "\n", None).as_str(),
        r#"{"credential_id":"\n","dcql_id":"a\"b\u0000"}"#
    );
}

#[test]
fn documents_are_rendered_as_json_text() {
    let number = |number| JsonValue::Number(number);
    let document = JsonValue::Array(vec![
        JsonValue::Null,
        JsonValue::Bool(false),
        number(JsonNumber::PosInt(u64::MAX)),
        number(JsonNumber::NegInt(i64::MIN)),
        number(JsonNumber::Float("1.5".to_string())),
        number(JsonNumber::Float("no number".to_string())),
        text("t"),
        JsonValue::Object(vec![
            ("b".to_string(), JsonValue::Array(Vec::new())),
            ("a".to_string(), JsonValue::Object(Vec::new())),
        ]),
    ]);
    assert_eq!(
        render_json(&document),
        r#"[null,false,18446744073709551615,-9223372036854775808,1.5,null,"t",{"a":{},"b":[]}]"#
    );
}

#[test]
fn bound_transaction_data_is_told_whether_or_not_its_place_in_the_request_is_known() {
    let wallet = wallet();
    let bound = [data(PAY, &["a"], None)];
    let told = |request_indices: &[usize], indices: &[usize]| {
        let context = DcqlSelectionContext {
            query_id: "a",
            selected_claims: &[],
            transaction_data: &bound,
            request_indices,
            transaction_data_indices: indices,
        };
        index_told(&build_entry(&wallet, &0, &context))
    };
    assert_eq!(told(&[7], &[0]), Some(7));
    assert_eq!(told(&[], &[0]), Some(0));
    assert_eq!(told(&[7], &[3]), Some(3));
    assert_eq!(told(&[7], &[]), None);
}

#[test]
fn capabilities_are_listed() {
    let config = OpenId4VpConfig::openid4vp1();
    assert!(config.enabled);
    assert!(config.supports_request_protocol(PROTOCOL_OPENID4VP_V1_UNSIGNED));
    assert!(config.supports_response_mode("dc_api"));
    assert!(!config.supports_request_protocol(PROTOCOL_OPENID4VP_V1_SIGNED));
    assert!(!config.supports_response_mode("dc_api.jwt"));
    assert!(config.supports_response_type("vp_token"));
    assert!(config.supports_query_method("dcql_query"));
    assert!(config.supports_request_parameter("transaction_data"));
    assert!(!config.supports_request_parameter("other"));
    let config = OpenId4VpConfig::disabled();
    assert!(!config.enabled);
    assert!(!config.supports_response_mode("dc_api"));
}
