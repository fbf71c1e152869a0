use dcapi_matcher::idset::IdSet;
use dcapi_matcher::json::JsonValue;
use dcapi_matcher::models::{
    ClaimValue, ClaimsQuery, CredentialQuery, CredentialQueryCommon, CredentialSetQuery, DcqlQuery,
    IsoMdocMeta, NonEmptyVec, TransactionData, TrustedAuthority,
};
use dcapi_matcher::path::{pointer_from_strings, ClaimsPathPointer, PathElement};
use dcapi_matcher::planner::configs::{
    cartesian_union, expand_optional_prefer_absent, expand_optional_prefer_present,
    include_optional_only, normalize_configs,
};
use dcapi_matcher::planner::error::PlanError;
use dcapi_matcher::planner::matching::{
    dedupe_claims_by_path, match_claim_selection, match_claims,
};
use dcapi_matcher::planner::options::{
    CredentialSetOptionMode, OptionalCredentialSetsMode, PlanOptions,
};
use dcapi_matcher::planner::plan::plan_selection;
use dcapi_matcher::planner::presentation::DcqlOutput;
use dcapi_matcher::planner::slots::decompose_slots;
use dcapi_matcher::store::{CredentialFormat, CredentialStore, ValueMatch};

const SCA: &str = "urn:eudi:sca:example:1";

struct Card {
    doctype: &'static str,
    claims: Vec<&'static str>,
    signs: Vec<&'static str>,
}

struct Cards(Vec<Card>);

impl CredentialStore for Cards {
    type CredentialRef = usize;

    fn list_credentials(&self, format: Option<CredentialFormat>) -> Vec<usize> {
        if format.is_some() && format != Some(CredentialFormat::MsoMdoc) {
            return Vec::new();
        }
        (0..self.0.len()).collect()
    }

    fn format(&self, _cred: &usize) -> CredentialFormat {
        CredentialFormat::MsoMdoc
    }

    fn has_vct(&self, _cred: &usize, _vct: &str) -> bool {
        false
    }

    fn supports_holder_binding(&self, _cred: &usize) -> bool {
        false
    }

    fn has_doctype(&self, cred: &usize, doctype: &str) -> bool {
        self.0[*cred].doctype == doctype
    }

    fn can_sign_transaction_data(&self, cred: &usize, data: &TransactionData) -> bool {
        self.0[*cred].signs.contains(&data.data_type.as_str())
    }

    fn has_claim_path(&self, cred: &usize, path: &ClaimsPathPointer) -> bool {
        self.0[*cred]
            .claims
            .iter()
            .any(|name| dcapi_matcher::path::same_path(&pointer_from_strings(&[*name]), path))
    }

    fn match_claim_value(
        &self,
        _cred: &usize,
        _path: &ClaimsPathPointer,
        _expected: &[ClaimValue],
    ) -> ValueMatch {
        ValueMatch::NoMatch
    }

    fn matches_trusted_authorities(&self, _cred: &usize, _known: &[TrustedAuthority]) -> bool {
        false
    }
}

fn card(doctype: &'static str, claims: &[&'static str], signs: &[&'static str]) -> Card {
    Card {
        doctype,
        claims: claims.to_vec(),
        signs: signs.to_vec(),
    }
}

fn claims_query(id: &str) -> ClaimsQuery {
    ClaimsQuery {
        id: Some(id.to_string()),
        path: pointer_from_strings(&[id]),
        values: None,
        intent_to_retain: None,
    }
}

fn asking(id: &str, doctype: &str, claims: &[&str], sets: &[&[&str]]) -> CredentialQuery {
    CredentialQuery::MsoMdoc {
        common: CredentialQueryCommon {
            id: id.to_string(),
            multiple: None,
            trusted_authorities: None,
            require_cryptographic_holder_binding: None,
            claims: if claims.is_empty() {
                None
            } else {
                Some(claims.iter().map(|id| claims_query(id)).collect())
            },
            claim_sets: if sets.is_empty() {
                None
            } else {
                Some(sets.iter().map(|set| strings(set)).collect())
            },
        },
        meta: IsoMdocMeta {
            doctype_value: doctype.to_string(),
        },
    }
}

fn strings(ids: &[&str]) -> Vec<String> {
    ids.iter().map(|id| id.to_string()).collect()
}

fn ids(of: &[&str]) -> IdSet {
    IdSet::collect(&strings(of))
}

fn set(options: &[&[&str]], required: bool) -> CredentialSetQuery {
    CredentialSetQuery {
        options: options.iter().map(|option| strings(option)).collect(),
        required,
        purpose: None,
    }
}

fn query(credentials: Vec<CredentialQuery>, sets: Option<Vec<CredentialSetQuery>>) -> DcqlQuery {
    DcqlQuery {
        credentials: NonEmptyVec::try_new(credentials, "empty").expect("some queries"),
        credential_sets: sets,
    }
}

fn data(data_type: &str, of: &[&str]) -> TransactionData {
    TransactionData {
        data_type: data_type.to_string(),
        credential_ids: strings(of),
        transaction_data_hashes_alg: None,
        extra: Vec::new(),
    }
}

fn planned(
    query: &DcqlQuery,
    data: &[TransactionData],
    store: &Cards,
) -> Result<DcqlOutput<usize>, PlanError> {
    plan_selection(query, Some(data), store, &PlanOptions::default())
}

type Shown = Vec<Vec<Vec<(String, Option<usize>, Vec<usize>)>>>;

fn shown(output: &DcqlOutput<usize>) -> Shown {
    output
        .presentation_sets
        .iter()
        .map(|set| {
            set.iter()
                .map(|slot| {
                    slot.alternatives
                        .iter()
                        .map(|selection| {
                            (
                                selection.dcql_id.clone(),
                                selection.credential_id,
                                selection.transaction_data_ids.clone(),
                            )
                        })
                        .collect()
                })
                .collect()
        })
        .collect()
}

fn pick(id: &str, credential: usize, data: &[usize]) -> (String, Option<usize>, Vec<usize>) {
    (id.to_string(), Some(credential), data.to_vec())
}

fn listed(sets: &[IdSet]) -> Vec<Vec<String>> {
    sets.iter().map(|set| set.ids().to_vec()).collect()
}

#[test]
fn combinations_join_one_option_of_every_list() {
    let lists = vec![vec![ids(&["a"]), ids(&["b"])], vec![ids(&["c"]), ids(&["a", "d"])]];
    assert_eq!(
        listed(&cartesian_union(&lists)),
        vec![
            strings(&["a", "c"]),
            strings(&["a", "d"]),
            strings(&["b", "c"]),
            strings(&["a", "b", "d"]),
        ]
    );
    assert_eq!(
        listed(&cartesian_union(&Vec::new())),
        vec![Vec::<String>::new()]
    );
}

#[test]
fn optional_sets_are_added_in_the_order_of_preference() {
    let bases = vec![ids(&["a"])];
    let options = vec![ids(&["b"]), ids(&["a"])];
    assert_eq!(
        listed(&expand_optional_prefer_present(&bases, &options)),
        vec![strings(&["a", "b"]), strings(&["a"])]
    );
    assert_eq!(
        listed(&expand_optional_prefer_absent(&bases, &options)),
        vec![strings(&["a"]), strings(&["a", "b"])]
    );
    assert_eq!(
        listed(&include_optional_only(&bases, &options)),
        vec![strings(&["a", "b"]), strings(&["a"])]
    );
    assert_eq!(
        listed(&normalize_configs(&vec![ids(&["a"]), ids(&["b"]), ids(&["a"])])),
        vec![strings(&["a"]), strings(&["b"])]
    );
}

#[test]
fn slots_are_found_exactly_when_choices_are_independent() {
    let order = strings(&["a", "b", "c", "d"]);
    let independent = vec![
        ids(&["a", "c"]),
        ids(&["a", "d"]),
        ids(&["b", "c"]),
        ids(&["b", "d"]),
    ];
    let slots = decompose_slots(&independent, &order).expect("slots");
    let found: Vec<(Vec<String>, bool)> = slots
        .into_iter()
        .map(|slot| (slot.ids, slot.optional))
        .collect();
    assert_eq!(
        found,
        vec![
            (strings(&["a", "b"]), false),
            (strings(&["c", "d"]), false)
        ]
    );
    let dependent = vec![ids(&["a", "c"]), ids(&["b", "d"])];
    assert!(decompose_slots(&dependent, &order).is_none());
    let optional = vec![ids(&["a"]), ids(&["a", "b"])];
    let slots = decompose_slots(&optional, &order).expect("slots");
    assert_eq!(slots.len(), 2);
    assert!(!slots[0].optional);
    assert!(slots[1].optional);
    assert!(decompose_slots(&Vec::new(), &order).expect("slots").is_empty());
}

#[test]
fn dependent_combinations_are_presented_one_by_one() {
    let store = Cards(vec![
        card("A", &[], &[]),
        card("B", &[], &[]),
        card("C", &[], &[]),
        card("D", &[], &[]),
    ]);
    let asked = query(
        vec![
            asking("a", "A", &[], &[]),
            asking("b", "B", &[], &[]),
            asking("c", "C", &[], &[]),
            asking("d", "D", &[], &[]),
        ],
        Some(vec![set(&[&["a", "c"], &["b", "d"]], true)]),
    );
    let output = planned(&asked, &[], &store).expect("a plan");
    assert_eq!(
        shown(&output),
        vec![
            vec![vec![pick("a", 0, &[])], vec![pick("c", 2, &[])]],
            vec![vec![pick("b", 1, &[])], vec![pick("d", 3, &[])]],
        ]
    );
}

#[test]
fn generic_transaction_data_is_bound_to_credentials_that_can_authorize_it() {
    let store = Cards(vec![
        card("A", &[], &["t"]),
        card("A", &[], &[]),
        card("B", &[], &[]),
    ]);
    let asked = query(
        vec![asking("a", "A", &[], &[]), asking("b", "B", &[], &[])],
        None,
    );
    let output = planned(&asked, &[data("t", &["a"])], &store).expect("a plan");
    assert_eq!(
        shown(&output),
        vec![vec![vec![pick("a", 0, &[0])], vec![pick("b", 2, &[])]]]
    );
    assert!(matches!(
        planned(&asked, &[data("t", &["b"])], &store),
        Err(PlanError::Unsatisfied)
    ));
    let output = planned(&asked, &[data("t", &["nobody"])], &store).expect("a plan");
    assert_eq!(
        shown(&output),
        vec![vec![
            vec![pick("a", 0, &[]), pick("a", 1, &[])],
            vec![pick("b", 2, &[])]
        ]]
    );
}

#[test]
fn sca_transaction_data_is_authorized_once_by_each_credential_that_is_named() {
    let store = Cards(vec![card("A", &[], &[SCA]), card("A", &[], &[])]);
    let asked = query(vec![asking("a", "A", &[], &[])], None);
    let output =
        planned(&asked, &[data(SCA, &["a"]), data(SCA, &["a"])], &store).expect("a plan");
    assert_eq!(shown(&output), vec![vec![vec![pick("a", 0, &[0])]]]);
}

#[test]
fn claim_sets_are_chosen_for_the_candidates_together() {
    let store = Cards(vec![card("A", &["x"], &[]), card("A", &["x", "y"], &[])]);
    let asked = asking("a", "A", &["x", "y"], &[&["y"], &["x"]]);
    let (claims, left) = match_claim_selection(&store, &asked, vec![0, 1]);
    assert_eq!(claims.len(), 1);
    assert_eq!(claims[0].id.as_deref(), Some("y"));
    assert_eq!(left, vec![1]);
    let (claims, left) = match_claim_selection(&store, &asked, vec![0]);
    assert_eq!(claims[0].id.as_deref(), Some("x"));
    assert_eq!(left, vec![0]);
    let alone = match_claims(&store, &0, &asked).expect("claims");
    assert_eq!(alone[0].id.as_deref(), Some("x"));
    assert!(match_claims(&store, &0, &asking("a", "A", &["x", "y"], &[])).is_none());
}

#[test]
fn the_first_claim_of_every_path_is_kept() {
    let claim = |id: &str, path: ClaimsPathPointer| ClaimsQuery {
        id: Some(id.to_string()),
        path,
        values: None,
        intent_to_retain: None,
    };
    let name = |name: &str| PathElement::String(name.to_string());
    let claims = [
        claim("empty", Vec::new()),
        claim("name", vec![name("a"), name("1")]),
        claim("index", vec![name("a"), PathElement::Index(1)]),
        claim("wildcard", vec![name("a"), PathElement::Wildcard]),
        claim("prefix", vec![name("a")]),
        claim("name again", vec![name("a"), name("1")]),
        claim("index again", vec![name("a"), PathElement::Index(1)]),
        claim("wildcard again", vec![name("a"), PathElement::Wildcard]),
        claim("blank", vec![name("a"), name("")]),
    ];
    let kept = dedupe_claims_by_path(&claims);
    let ids: Vec<&str> = kept.iter().filter_map(|claim| claim.id.as_deref()).collect();
    assert_eq!(ids, vec!["name", "index", "wildcard", "prefix", "blank"]);
}

#[test]
fn the_first_option_can_be_the_only_one() {
    let store = Cards(vec![card("A", &[], &[]), card("B", &[], &[])]);
    let asked = query(
        vec![asking("a", "A", &[], &[]), asking("b", "B", &[], &[])],
        Some(vec![set(&[&["b"], &["a"]], true)]),
    );
    let options = PlanOptions {
        credential_set_option_mode: CredentialSetOptionMode::FirstSatisfiableOnly,
        optional_credential_sets_mode: OptionalCredentialSetsMode::AlwaysPresentIfSatisfiable,
        ts12_prefixes: Vec::new(),
    };
    let output = plan_selection(&asked, None, &store, &options).expect("a plan");
    assert_eq!(shown(&output), vec![vec![vec![pick("b", 1, &[])]]]);
    let output = planned(&asked, &[], &store).expect("a plan");
    assert_eq!(
        shown(&output),
        vec![vec![vec![pick("b", 1, &[]), pick("a", 0, &[])]]]
    );
}

#[test]
fn queries_without_a_match_leave_the_plan_unsatisfied() {
    let store = Cards(vec![card("A", &[], &[])]);
    let asked = query(
        vec![asking("a", "A", &[], &[]), asking("b", "B", &[], &[])],
        None,
    );
    assert!(matches!(
        planned(&asked, &[], &store),
        Err(PlanError::Unsatisfied)
    ));
    let purposes = CredentialSetQuery {
        options: vec![strings(&["a"])],
        required: true,
        purpose: Some(JsonValue::Null),
    };
    let asked = query(
        vec![asking("a", "A", &[], &[]), asking("b", "B", &[], &[])],
        Some(vec![purposes]),
    );
    assert!(planned(&asked, &[], &store).is_ok());
}

#[test]
fn repeated_and_unknown_queries_do_not_matter() {
    let store = Cards(vec![card("A", &[], &[]), card("B", &[], &[])]);
    let plain = query(vec![asking("a", "A", &[], &[])], None);
    let noisy = query(
        vec![
            asking("a", "A", &[], &[]),
            CredentialQuery::Unknown,
            asking("a", "B", &[], &[]),
        ],
        None,
    );
    assert_eq!(
        shown(&planned(&plain, &[], &store).expect("a plan")),
        shown(&planned(&noisy, &[], &store).expect("a plan"))
    );
}

#[test]
fn transaction_data_that_several_queries_can_authorize_is_authorized_once() {
    let store = Cards(vec![card("A", &[], &["t"]), card("B", &[], &["t"])]);
    let asked = query(
        vec![asking("a", "A", &[], &[]), asking("b", "B", &[], &[])],
        None,
    );
    let output = planned(&asked, &[data("t", &["a", "b"])], &store).expect("a plan");
    assert_eq!(
        shown(&output),
        vec![
            vec![vec![pick("a", 0, &[0])], vec![pick("b", 1, &[])]],
            vec![vec![pick("a", 0, &[])], vec![pick("b", 1, &[0])]],
        ]
    );
}

#[test]
fn two_transactions_of_two_queries_are_bound_in_four_ways() {
    let store = Cards(vec![card("A", &[], &["t"]), card("B", &[], &["t"])]);
    let asked = query(
        vec![asking("a", "A", &[], &[]), asking("b", "B", &[], &[])],
        None,
    );
    let bound = [data("t", &["a", "b"]), data("t", &["a", "b"])];
    let output = planned(&asked, &bound, &store).expect("a plan");
    assert_eq!(
        shown(&output),
        vec![
            vec![vec![pick("a", 0, &[0, 1])], vec![pick("b", 1, &[])]],
            vec![vec![pick("a", 0, &[0])], vec![pick("b", 1, &[1])]],
            vec![vec![pick("a", 0, &[1])], vec![pick("b", 1, &[0])]],
            vec![vec![pick("a", 0, &[])], vec![pick("b", 1, &[0, 1])]],
        ]
    );
}

#[test]
fn each_way_to_bind_keeps_the_slots_that_it_leaves_free() {
    let store = Cards(vec![
        card("A", &[], &["t"]),
        card("B", &[], &["t"]),
        card("C", &[], &[]),
        card("D", &[], &[]),
    ]);
    let asked = query(
        vec![
            asking("a", "A", &[], &[]),
            asking("b", "B", &[], &[]),
            asking("c", "C", &[], &[]),
            asking("d", "D", &[], &[]),
        ],
        Some(vec![
            set(&[&["a"]], true),
            set(&[&["b"]], true),
            set(&[&["c"], &["d"]], true),
        ]),
    );
    let output = planned(&asked, &[data("t", &["a", "b"])], &store).expect("a plan");
    assert_eq!(
        shown(&output),
        vec![
            vec![
                vec![pick("a", 0, &[0])],
                vec![pick("b", 1, &[])],
                vec![pick("c", 2, &[]), pick("d", 3, &[])],
            ],
            vec![
                vec![pick("a", 0, &[])],
                vec![pick("b", 1, &[0])],
                vec![pick("c", 2, &[]), pick("d", 3, &[])],
            ],
        ]
    );
}

#[test]
fn queries_that_exclude_each_other_share_a_slot_with_their_transaction_data() {
    let store = Cards(vec![card("A", &[], &["t"]), card("B", &[], &["t"])]);
    let asked = query(
        vec![asking("a", "A", &[], &[]), asking("b", "B", &[], &[])],
        Some(vec![set(&[&["a"], &["b"]], true)]),
    );
    let output = planned(&asked, &[data("t", &["a", "b"])], &store).expect("a plan");
    assert_eq!(
        shown(&output),
        vec![vec![vec![pick("a", 0, &[0]), pick("b", 1, &[0])]]]
    );
}

#[test]
fn optional_sets_that_are_preferred_absent_start_with_the_empty_choice() {
    let store = Cards(vec![card("SCA", &[], &[]), card("PID", &[], &[])]);
    let asked = query(
        vec![asking("sca", "SCA", &[], &[]), asking("pid", "PID", &[], &[])],
        Some(vec![set(&[&["sca"]], true), set(&[&["pid"]], false)]),
    );
    let options = PlanOptions {
        optional_credential_sets_mode: OptionalCredentialSetsMode::PreferAbsent,
        ..PlanOptions::default()
    };
    let output = plan_selection(&asked, None, &store, &options).expect("a plan");
    assert_eq!(
        shown(&output),
        vec![vec![
            vec![pick("sca", 0, &[])],
            vec![("pid".to_string(), None, Vec::new()), pick("pid", 1, &[])],
        ]]
    );
    let output = planned(&asked, &[], &store).expect("a plan");
    assert_eq!(
        shown(&output),
        vec![vec![
            vec![pick("sca", 0, &[])],
            vec![pick("pid", 1, &[]), ("pid".to_string(), None, Vec::new())],
        ]]
    );
}

#[test]
fn satisfiable_optional_sets_can_be_made_to_be_always_present() {
    let store = Cards(vec![card("A", &[], &[]), card("B", &[], &[])]);
    let asked = query(
        vec![
            asking("a", "A", &[], &[]),
            asking("b", "B", &[], &[]),
            asking("c", "C", &[], &[]),
        ],
        Some(vec![
            set(&[&["a"]], true),
            set(&[&["b"]], false),
            set(&[&["c"]], false),
        ]),
    );
    let options = PlanOptions {
        credential_set_option_mode: CredentialSetOptionMode::AllSatisfiable,
        optional_credential_sets_mode: OptionalCredentialSetsMode::AlwaysPresentIfSatisfiable,
        ts12_prefixes: Vec::new(),
    };
    let output = plan_selection(&asked, None, &store, &options).expect("a plan");
    assert_eq!(
        shown(&output),
        vec![vec![vec![pick("a", 0, &[])], vec![pick("b", 1, &[])]]]
    );
}

#[test]
fn without_prefixes_sca_transaction_data_is_generic() {
    let store = Cards(vec![card("A", &[], &[SCA]), card("B", &[], &[])]);
    let asked = query(
        vec![asking("a", "A", &[], &[]), asking("b", "B", &[], &[])],
        Some(vec![set(&[&["a"]], true), set(&[&["b"]], true)]),
    );
    let named = [data(SCA, &["a", "b"])];
    assert!(matches!(
        planned(&asked, &named, &store),
        Err(PlanError::InvalidQuery(_))
    ));
    let options = PlanOptions {
        credential_set_option_mode: CredentialSetOptionMode::AllSatisfiable,
        optional_credential_sets_mode: OptionalCredentialSetsMode::PreferPresent,
        ts12_prefixes: Vec::new(),
    };
    let output = plan_selection(&asked, Some(&named), &store, &options).expect("a plan");
    assert_eq!(
        shown(&output),
        vec![vec![vec![pick("a", 0, &[0])], vec![pick("b", 1, &[])]]]
    );
}
