use dcapi_matcher::base64url::{decode_base64url, first_decoded, pad_base64url, Base64Error};
use dcapi_matcher::c8::{strip_nul, C8Text};
use dcapi_matcher::idset::IdSet;
use dcapi_matcher::json::{JsonNumber, JsonValue};
use dcapi_matcher::models::{ClaimValue, NonEmptyVec, TransactionData};
use dcapi_matcher::path::{
    path_from_json, path_has_wildcard, path_matches, pointer_from_strings, select_nodes,
    PathElement, PathError,
};
use dcapi_matcher::planner::error::PlanError;
use dcapi_matcher::store::CredentialFormat;
use dcapi_matcher::text::{contains_text, decimal_text, starts_with, text_precedes};
use dcapi_matcher::ts12::metadata::{
    Ts12ClaimMetadata, Ts12DataType, Ts12Error, Ts12TransactionDataShape, Ts12TransactionMetadata,
};
use dcapi_matcher::ts12::values::{
    image_requires_integrity, is_decimal_amount, is_frequency_code, is_iso_currency,
    is_iso_currency_amount, is_iso_date, is_iso_date_time, is_iso_time, is_supported_value_type,
    value_conforms_to_type,
};

fn text(value: &str) -> JsonValue {
    JsonValue::String(value.to_string())
}

fn object(entries: Vec<(&str, JsonValue)>) -> JsonValue {
    JsonValue::Object(
        entries
            .into_iter()
            .map(|(name, value)| (name.to_string(), value))
            .collect(),
    )
}

#[test]
fn base64url_is_decoded_with_and_without_padding_bits() {
    assert_eq!(decode_base64url("aGk"), Ok(b"hi".to_vec()));
    assert_eq!(decode_base64url("-_8"), Ok(vec![0xfb, 0xff]));
    assert_eq!(decode_base64url(""), Ok(Vec::new()));
    assert_eq!(
        decode_base64url("a*"),
        Err(Base64Error::InvalidByte(1, b'*'))
    );
    assert!(decode_base64url("aGk=").is_err());
    assert!(decode_base64url("+/8").is_err());
}

#[test]
fn padding_fills_groups_of_four() {
    assert_eq!(pad_base64url(""), "");
    assert_eq!(pad_base64url("abcd"), "abcd");
    assert_eq!(pad_base64url("a"), "a===");
    assert_eq!(pad_base64url("ab"), "ab==");
    assert_eq!(pad_base64url("abcde"), "abcde===");
    assert_eq!(pad_base64url("abc"), "abc=");
    assert_eq!(pad_base64url("\u{e9}"), "\u{e9}==");
}

#[test]
fn the_second_decoding_counts_where_the_first_fails() {
    let failed = Err(Base64Error::InvalidPadding);
    assert_eq!(first_decoded(Ok(vec![1]), Ok(vec![2])), Ok(vec![1]));
    assert_eq!(first_decoded(failed.clone(), Ok(vec![2])), Ok(vec![2]));
    assert_eq!(
        first_decoded(failed, Err(Base64Error::InvalidLength(1))),
        Err(Base64Error::InvalidLength(1))
    );
}

#[test]
fn host_text_holds_no_nul() {
    let accepted = C8Text::from_string("plain".to_string()).expect("no NUL");
    assert_eq!(accepted.as_str(), "plain");
    assert_eq!(accepted.clone().as_str(), "plain");
    assert!(C8Text::from_string("a\0b".to_string()).is_none());
    assert_eq!(C8Text::empty().as_str(), "");
    assert_eq!(strip_nul("\0a\0b\0"), "ab");
}

#[test]
fn texts_are_ordered_by_their_characters() {
    assert!(text_precedes("", "a"));
    assert!(text_precedes("a", "b"));
    assert!(text_precedes("a", "aa"));
    assert!(!text_precedes("b", "aa"));
    assert!(!text_precedes("a", "a"));
    assert!(starts_with("abc", "ab"));
    assert!(!starts_with("ab", "abc"));
    assert!(contains_text(&["x".to_string()], "x"));
    assert!(!contains_text(&["x".to_string()], "y"));
}

#[test]
fn numbers_are_rendered_in_decimal() {
    assert_eq!(decimal_text(0), "0");
    assert_eq!(decimal_text(1234567890), "1234567890");
    assert_eq!(decimal_text(u64::MAX), "18446744073709551615");
    assert_eq!(JsonNumber::NegInt(i64::MIN).text(), "-9223372036854775808");
    assert_eq!(JsonNumber::Float("1.5".to_string()).text(), "1.5");
    assert_eq!(JsonNumber::PosInt(7).as_i64(), Some(7));
    assert_eq!(JsonNumber::PosInt(u64::MAX).as_i64(), None);
    assert_eq!(JsonNumber::NegInt(-7).as_i64(), Some(-7));
    assert_eq!(JsonNumber::Float("7.0".to_string()).as_i64(), None);
}

#[test]
fn sets_of_ids_are_listed_in_order() {
    let ids = ["b", "a", "b", "c"].map(ToString::to_string);
    let set = IdSet::collect(&ids);
    assert_eq!(set.ids().to_vec(), vec!["a", "b", "c"]);
    assert!(set.contains("b"));
    assert!(!set.contains("d"));
    assert!(IdSet::new().is_subset(&set));
    assert!(!set.is_subset(&IdSet::new()));
}

#[test]
fn lists_that_may_not_be_empty_are_checked() {
    let wrapped = NonEmptyVec::try_new(vec![1, 2], "empty").expect("two values");
    assert_eq!(wrapped.as_slice(), &[1, 2]);
    assert!(matches!(
        NonEmptyVec::<u8>::try_new(Vec::new(), "nothing here"),
        Err(message) if message == "nothing here"
    ));
}

#[test]
fn claim_values_are_json_values() {
    assert!(matches!(
        ClaimValue::Integer(-3).to_json_value(),
        JsonValue::Number(JsonNumber::NegInt(-3))
    ));
    assert!(matches!(
        ClaimValue::Integer(3).to_json_value(),
        JsonValue::Number(JsonNumber::PosInt(3))
    ));
    assert!(matches!(
        ClaimValue::Boolean(true).to_json_value(),
        JsonValue::Bool(true)
    ));
    assert_eq!(
        ClaimValue::String("x".to_string()).to_json_value().as_str(),
        Some("x")
    );
}

#[test]
fn formats_are_known_by_name() {
    assert_eq!(
        CredentialFormat::from_name("mso_mdoc"),
        CredentialFormat::MsoMdoc
    );
    assert_eq!(
        CredentialFormat::from_name("dc+sd-jwt"),
        CredentialFormat::DcSdJwt
    );
    assert_eq!(
        CredentialFormat::from_name("ldp_vc"),
        CredentialFormat::Unknown
    );
}

#[test]
fn plan_errors_say_what_is_wrong() {
    assert_eq!(
        PlanError::InvalidQuery("reason".to_string()).message(),
        "invalid dcql query: reason"
    );
    assert_eq!(
        PlanError::Unsatisfied.message(),
        "unsatisfied dcql query: no credential combination satisfies all credential and transaction_data constraints"
    );
}

#[test]
fn paths_select_members_elements_and_all_elements() {
    let document = object(vec![
        ("list", JsonValue::Array(vec![text("x"), text("y")])),
        ("name", text("n")),
    ]);
    let found = |path: Vec<PathElement>| {
        select_nodes(&document, &path).map(|nodes| {
            nodes
                .into_iter()
                .map(|node| node.as_str().unwrap_or("?").to_string())
                .collect::<Vec<_>>()
        })
    };
    let name = |name: &str| PathElement::String(name.to_string());
    assert_eq!(found(vec![name("name")]), Ok(vec!["n".to_string()]));
    assert_eq!(
        found(vec![name("list"), PathElement::Index(1)]),
        Ok(vec!["y".to_string()])
    );
    assert_eq!(
        found(vec![name("list"), PathElement::Wildcard]),
        Ok(vec!["x".to_string(), "y".to_string()])
    );
    assert_eq!(found(Vec::new()).map(|nodes| nodes.len()), Ok(1));
    assert!(found(vec![name("missing")]).is_err());
    assert!(found(vec![name("list"), PathElement::Index(2)]).is_err());
    assert!(found(vec![name("list"), name("x")]).is_err());
    assert!(found(vec![name("name"), PathElement::Wildcard]).is_err());
    let wrong: Result<Vec<&JsonValue>, PathError> =
        select_nodes(&document, &pointer_from_strings(&["name", "deeper"]));
    assert!(wrong.is_err());
}

#[test]
fn patterns_cover_paths_of_the_same_length() {
    let name = |name: &str| PathElement::String(name.to_string());
    let pattern = vec![name("a"), PathElement::Wildcard];
    assert!(path_matches(&pattern, &vec![name("a"), PathElement::Index(3)]));
    assert!(!path_matches(&pattern, &vec![name("b"), PathElement::Index(3)]));
    assert!(!path_matches(&pattern, &vec![name("a")]));
    assert!(path_matches(
        &pointer_from_strings(&["a", "b"]),
        &pointer_from_strings(&["a", "b"])
    ));
    assert!(path_has_wildcard(&pattern));
    assert!(!path_has_wildcard(&pointer_from_strings(&["a"])));
}

#[test]
fn paths_are_read_from_json() {
    let path = path_from_json(&JsonValue::Array(vec![
        text("a"),
        JsonValue::Null,
        JsonValue::Number(JsonNumber::PosInt(2)),
    ]))
    .expect("a path");
    assert!(matches!(&path[0], PathElement::String(name) if name == "a"));
    assert!(matches!(path[1], PathElement::Wildcard));
    assert!(matches!(path[2], PathElement::Index(2)));
    assert!(path_from_json(&text("a")).is_none());
    assert!(path_from_json(&JsonValue::Array(vec![JsonValue::Bool(true)])).is_none());
}

#[test]
fn amounts_are_digits_around_one_point() {
    assert!(is_decimal_amount("0"));
    assert!(is_decimal_amount("42.50"));
    assert!(!is_decimal_amount(""));
    assert!(!is_decimal_amount("."));
    assert!(!is_decimal_amount("1."));
    assert!(!is_decimal_amount(".5"));
    assert!(!is_decimal_amount("1.2.3"));
    assert!(!is_decimal_amount("-1"));
    assert!(is_iso_currency("EUR"));
    assert!(!is_iso_currency("EU"));
    assert!(!is_iso_currency("EUr"));
    assert!(is_iso_currency_amount("42.50 EUR"));
    assert!(!is_iso_currency_amount("42.50EUR"));
    assert!(!is_iso_currency_amount(" EUR"));
    assert!(!is_iso_currency_amount("42 50 EUR"));
}

#[test]
fn dates_and_times_have_their_form() {
    assert!(is_iso_date("2024-02-29"));
    assert!(is_iso_date("9999-99-99"));
    assert!(!is_iso_date("2024-2-29"));
    assert!(!is_iso_date("2024/02/29"));
    assert!(!is_iso_date("2024-02-291"));
    assert!(is_iso_time("12:34"));
    assert!(is_iso_time("12:34:56Z"));
    assert!(!is_iso_time("1:23:4"));
    assert!(!is_iso_time("12-34"));
    assert!(is_iso_date_time("2024-02-29T12:34"));
    assert!(!is_iso_date_time("2024-02-29 12:34"));
    assert!(!is_iso_date_time("2024-02-29T1234"));
}

#[test]
fn value_types_are_told_apart() {
    for code in [
        "INDA", "DAIL", "WEEK", "TOWK", "TWMN", "MNTH", "TOMN", "QUTR", "FOMN", "SEMI", "YEAR",
        "TYEA",
    ] {
        assert!(is_frequency_code(code));
    }
    assert!(!is_frequency_code("NEVR"));
    for name in [
        "boolean",
        "frequency",
        "image",
        "iso_date",
        "iso_time",
        "iso_date_time",
        "iso_currency",
        "iso_currency_amount",
        "label_only",
        "mini_markdown",
        "url",
    ] {
        assert!(is_supported_value_type(name));
    }
    assert!(!is_supported_value_type("html"));
    assert!(value_conforms_to_type(&JsonValue::Bool(false), "boolean"));
    assert!(!value_conforms_to_type(&text("false"), "boolean"));
    assert!(value_conforms_to_type(&JsonValue::Null, "label_only"));
    assert!(value_conforms_to_type(&text("anything"), "url"));
    assert!(!value_conforms_to_type(&JsonValue::Null, "url"));
    assert!(value_conforms_to_type(&text("2024-02-29"), "iso_date"));
    assert!(!value_conforms_to_type(&text("soon"), "iso_date"));
    assert!(value_conforms_to_type(&text("MNTH"), "frequency"));
    assert!(!value_conforms_to_type(&text("x"), "html"));
    assert!(image_requires_integrity(&text("https://example.com/a.png")));
    assert!(!image_requires_integrity(&text("data:image/png;base64,AA")));
    assert!(!image_requires_integrity(&text("")));
    assert!(!image_requires_integrity(&JsonValue::Null));
}

fn claim(path: &[&str], mandatory: bool, value_type: Option<&str>, displayable: bool) -> Ts12ClaimMetadata {
    Ts12ClaimMetadata {
        path: pointer_from_strings(path),
        mandatory,
        value_type: value_type.map(ToString::to_string),
        displayable,
    }
}

fn fits(claims: Vec<Ts12ClaimMetadata>, payload: &JsonValue) -> bool {
    Ts12TransactionMetadata {
        data_type: Ts12DataType {
            data_type: "type".to_string(),
        },
        claims,
    }
    .is_payload_compatible(payload)
}

#[test]
fn payloads_hold_what_the_metadata_describes() {
    let payload = object(vec![("amount", text("1.00 EUR"))]);
    assert!(fits(vec![claim(&["amount"], true, None, true)], &payload));
    assert!(fits(
        vec![claim(&["amount"], true, Some("iso_currency_amount"), true)],
        &payload
    ));
    assert!(!fits(
        vec![claim(&["amount"], true, Some("iso_date"), true)],
        &payload
    ));
    assert!(!fits(
        vec![claim(&["amount"], true, Some("html"), true)],
        &payload
    ));
    assert!(!fits(vec![claim(&["amount"], true, Some("url"), false)], &payload));
    assert!(!fits(vec![claim(&["other"], false, None, false)], &payload));
    assert!(!fits(
        vec![
            claim(&["amount"], true, None, true),
            claim(&["payee"], true, None, true)
        ],
        &payload
    ));
    assert!(fits(
        vec![
            claim(&["amount"], true, None, true),
            claim(&["payee"], false, None, true)
        ],
        &payload
    ));
    assert!(!fits(
        vec![claim(&["amount"], true, Some("label_only"), true)],
        &payload
    ));
    assert!(!fits(Vec::new(), &text("no object")));
    assert!(fits(Vec::new(), &object(Vec::new())));
}

#[test]
fn images_elsewhere_need_an_integrity_claim() {
    let image = ("logo", text("https://example.com/a.png"));
    let claims = || {
        vec![
            claim(&["logo"], true, Some("image"), true),
            claim(&["logo#integrity"], false, None, false),
        ]
    };
    assert!(!fits(claims(), &object(vec![image.clone()])));
    assert!(fits(
        claims(),
        &object(vec![image.clone(), ("logo#integrity", text("sha256-x"))])
    ));
    assert!(!fits(
        claims(),
        &object(vec![image, ("logo#integrity", text(""))])
    ));
    assert!(fits(
        claims(),
        &object(vec![("logo", text("data:image/png;base64,AA"))])
    ));
}

#[test]
fn payloads_have_to_be_objects() {
    let data = |payload: JsonValue| TransactionData {
        data_type: "type".to_string(),
        credential_ids: vec!["a".to_string()],
        transaction_data_hashes_alg: None,
        extra: vec![("payload".to_string(), payload)],
    };
    assert!(Ts12TransactionDataShape::build(3, &data(object(Vec::new()))).is_ok());
    assert!(matches!(
        Ts12TransactionDataShape::build(3, &data(text("x"))),
        Err(Ts12Error::PayloadNotObject { index: 3 })
    ));
    let mut without = data(JsonValue::Null);
    without.extra.clear();
    assert!(Ts12TransactionDataShape::build(3, &without).is_ok());
}
