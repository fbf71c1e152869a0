//! A package as a credential store.

use crate::c8::C8Text;
use crate::json::{JsonModel, JsonValue};
use crate::matcher::config::{OpenId4VpConfig, OpenId4VpConfigModel};
use crate::matcher::engine::{match_dc_api_request, response, DcApiRequestItem, MatcherOptions};
use crate::matcher::engine::MatcherResponse;
use crate::matcher::error::MatcherError;
use crate::matcher::request::{EnvelopeModel, OpenId4VpSignedEnvelope};
use crate::matcher::store::{LogLevel, MatcherStore, SummaryModel, Ts12PaymentSummary};
use crate::models::{ClaimValue, ClaimValueModel, TransactionData, TransactionDataModel};
use crate::models::{TrustedAuthority, TrustedAuthorityModel};
use crate::package::config::{has_usable_id, is_blank_str, is_blank_text, resolve_credential};
use crate::package::config::{resolved_all, CredentialConfigModel};
use crate::package::config::{CredentialFieldConfig, FieldConfigModel, PackageConfig};
use crate::package::config::{PaymentScaTypeConfig, ResolvedCredential};
use crate::package::config::ResolvedModel;
use crate::package::display::{claim_display_name_from_metadata, metadata_name, text_at};
use crate::package::display::value_from_claims;
use crate::package::payment::{host_text, payment_sca_summary, payment_summary};
use crate::path::{has_wildcard, path_covers, path_has_wildcard, path_matches, select_nodes};
use crate::path::{lemma_selected_not_empty, selected, ClaimsPathPointer, PathModel};
use crate::planner::matching::result_view;
use crate::planner::options::PlanOptions;
use crate::seqs::{first_where, indices_where, lemma_filter_contains, lemma_filter_no_duplicates};
use crate::seqs::{lemma_first_where, lemma_first_where_is, lemma_take_all};
use crate::store::{lawful_refs, CredentialFormat, CredentialStore, ValueMatch};
use crate::text::{contains_text, same_text, Text};
use crate::ts12::metadata::{compatible, transaction_data_payload, Ts12MetadataModel};
use crate::ts12::metadata::Ts12TransactionMetadata;
use vstd::prelude::*;

verus! {

broadcast use vstd::string::group_string_axioms;

/// The credentials of a package. A credential is known by its position.
#[derive(Debug)]
pub struct PackageStore {
    /// The credentials.
    pub credentials: Vec<ResolvedCredential>,
    /// Supported OpenID4VP capabilities.
    pub openid4vp: OpenId4VpConfig,
    /// Where transaction data tells of payments.
    pub payment_sca: Vec<PaymentScaTypeConfig>,
    /// Logging level.
    pub log_level: Option<LogLevel>,
    /// Planner configuration.
    pub dcql: PlanOptions,
}

impl PackageConfig {
    /// The prefix of ids that are made up.
    pub open spec fn prefix(&self) -> Option<Text> {
        self.default_id_prefix.deep_view()
    }

    /// Whether every credential that counts can have an id.
    pub open spec fn has_usable_ids(&self) -> bool {
        forall|i: int|
            0 <= i < self.credentials.len() ==> is_blank_text(
                (#[trigger] self.credentials@[i]).deep_view().format,
            ) || has_usable_id(self.credentials@[i].deep_view(), self.prefix())
    }

    /// Whether every credential that counts can have an id.
    pub fn ids_are_usable(&self) -> (are: bool)
        ensures
            are == self.has_usable_ids(),
    {
        let mut i: usize = 0;
        while i < self.credentials.len()
            invariant
                i <= self.credentials.len(),
                forall|j: int|
                    0 <= j < i ==> is_blank_text(
                        (#[trigger] self.credentials@[j]).deep_view().format,
                    ) || has_usable_id(self.credentials@[j].deep_view(), self.prefix()),
            decreases self.credentials.len() - i,
        {
            let credential = &self.credentials[i];
            if credential.id.is_none() && !is_blank_str(credential.format.as_str()) {
                let prefix = match &self.default_id_prefix {
                    Some(prefix) => prefix.clone(),
                    None => credential.format.clone(),
                };
                if C8Text::from_string(prefix).is_none() {
                    return false;
                }
            }
            i = i + 1;
        }
        true
    }
}

/// Whether a value is one that a query accepts.
pub open spec fn is_expected(node: JsonModel, expected: ClaimValueModel) -> bool {
    match (expected, node) {
        (ClaimValueModel::String(text), JsonModel::String(own)) => text == own,
        (ClaimValueModel::Integer(value), JsonModel::Number(number)) => number.as_i64() == Some(
            value,
        ),
        (ClaimValueModel::Boolean(value), JsonModel::Bool(own)) => value == own,
        _ => false,
    }
}

/// Whether one of the values is one that a query accepts.
pub open spec fn any_expected(nodes: Seq<JsonModel>, expected: Seq<ClaimValueModel>) -> bool {
    exists|i: int, j: int|
        0 <= i < nodes.len() && 0 <= j < expected.len() && #[trigger] is_expected(
            nodes[i],
            expected[j],
        )
}

/// Tells metadata of a transaction data type from others.
pub open spec fn metadata_of(data_type: Text) -> spec_fn(Ts12MetadataModel) -> bool {
    |metadata: Ts12MetadataModel| metadata.data_type.data_type == data_type
}

/// Tells fields of the claim at a path from others.
pub open spec fn field_of(path: PathModel) -> spec_fn(FieldConfigModel) -> bool {
    |field: FieldConfigModel| path_covers(field.path, path)
}

impl ResolvedModel {
    /// The metadata that the credential has for transaction data: the first of its type.
    pub open spec fn metadata_for(self, data: TransactionDataModel) -> Option<Ts12MetadataModel> {
        match first_where(self.ts12_metadata, metadata_of(data.data_type)) {
            Some(k) => Some(self.ts12_metadata[k]),
            None => None,
        }
    }

    /// The field that the credential has for the claim at a path: the first whose path covers it.
    pub open spec fn field_for(self, path: PathModel) -> Option<FieldConfigModel> {
        match first_where(self.fields, field_of(path)) {
            Some(k) => Some(self.fields[k]),
            None => None,
        }
    }

    /// Whether the credential can authorize a transaction: its payload has to fit the metadata
    /// that the credential has for its type.
    pub open spec fn signs(self, data: TransactionDataModel) -> bool {
        match (self.metadata_for(data), data.payload()) {
            (Some(metadata), Some(payload)) => compatible(metadata, payload),
            _ => false,
        }
    }

    /// The name of the claim at a path: from the credential metadata, else from the fields.
    pub open spec fn label(self, path: PathModel) -> Option<Text> {
        let named = match self.metadata {
            Some(metadata) => metadata_name(metadata, path),
            None => None,
        };
        match named {
            Some(name) => host_text(Some(name)),
            None => match self.field_for(path) {
                Some(field) => Some(field.display_name),
                None => None,
            },
        }
    }

    /// The value of the claim at a path, as it is displayed: from the fields, else the claim.
    pub open spec fn value(self, path: PathModel) -> Option<Text> {
        let shown = match self.field_for(path) {
            Some(field) => field.display_value,
            None => None,
        };
        match shown {
            Some(value) => Some(value),
            None => host_text(text_at(self.claims, path)),
        }
    }
}

impl ResolvedCredential {
    /// The metadata for `data`.
    fn find_metadata(&self, data: &TransactionData) -> (found: Option<&Ts12TransactionMetadata>)
        ensures
            found.deep_view() == self.deep_view().metadata_for(data.deep_view()),
    {
        let ghost models = self.deep_view().ts12_metadata;
        let ghost wanted = metadata_of(data.deep_view().data_type);
        let mut i: usize = 0;
        while i < self.ts12_metadata.len()
            invariant
                i <= self.ts12_metadata.len(),
                models == self.deep_view().ts12_metadata,
                wanted == metadata_of(data.deep_view().data_type),
                forall|j: int| 0 <= j < i ==> !wanted(#[trigger] models[j]),
            decreases self.ts12_metadata.len() - i,
        {
            let metadata = &self.ts12_metadata[i];
            assert(models[i as int] == metadata.deep_view());
            if same_text(metadata.data_type.data_type.as_str(), data.data_type.as_str()) {
                proof {
                    lemma_first_where_is(models, wanted, i as int);
                }
                return Some(metadata);
            }
            i = i + 1;
        }
        proof {
            lemma_first_where(models, wanted);
        }
        None
    }

    /// The field for the claim at `path`.
    fn find_field(&self, path: &ClaimsPathPointer) -> (found: Option<&CredentialFieldConfig>)
        ensures
            found.deep_view() == self.deep_view().field_for(path.deep_view()),
    {
        let ghost models = self.deep_view().fields;
        let ghost wanted = field_of(path.deep_view());
        let mut i: usize = 0;
        while i < self.fields.len()
            invariant
                i <= self.fields.len(),
                models == self.deep_view().fields,
                wanted == field_of(path.deep_view()),
                forall|j: int| 0 <= j < i ==> !wanted(#[trigger] models[j]),
            decreases self.fields.len() - i,
        {
            let field = &self.fields[i];
            assert(models[i as int] == field.deep_view());
            if path_matches(&field.path, path) {
                proof {
                    lemma_first_where_is(models, wanted, i as int);
                }
                return Some(field);
            }
            i = i + 1;
        }
        proof {
            lemma_first_where(models, wanted);
        }
        None
    }

    /// Whether the credential can authorize `data`.
    fn can_sign_data(&self, data: &TransactionData) -> (can: bool)
        ensures
            can == self.deep_view().signs(data.deep_view()),
    {
        let metadata = match self.find_metadata(data) {
            Some(metadata) => metadata,
            None => return false,
        };
        match transaction_data_payload(data) {
            Some(payload) => metadata.is_payload_compatible(payload),
            None => false,
        }
    }

    /// The name of the claim at `path`.
    fn find_label(&self, path: &ClaimsPathPointer) -> (label: Option<C8Text>)
        ensures
            label.deep_view() == self.deep_view().label(path.deep_view()),
    {
        if let Some(metadata) = &self.metadata {
            if let Some(name) = claim_display_name_from_metadata(metadata, path) {
                return C8Text::from_string(name.to_owned());
            }
        }
        match self.find_field(path) {
            Some(field) => Some(field.display_name.clone()),
            None => None,
        }
    }

    /// The value of the claim at `path`, as it is displayed.
    fn find_value(&self, path: &ClaimsPathPointer) -> (value: Option<C8Text>)
        ensures
            value.deep_view() == self.deep_view().value(path.deep_view()),
    {
        if let Some(field) = self.find_field(path) {
            if let Some(value) = &field.display_value {
                return Some(value.clone());
            }
        }
        match value_from_claims(&self.claims, path) {
            Some(text) => C8Text::from_string(text.to_owned()),
            None => None,
        }
    }
}

/// Whether `node` is the value `expected`.
fn matches_expected(node: &JsonValue, expected: &ClaimValue) -> (matches: bool)
    ensures
        matches == is_expected(node.deep_view(), expected.deep_view()),
{
    match (expected, node) {
        (ClaimValue::String(text), JsonValue::String(own)) => same_text(
            text.as_str(),
            own.as_str(),
        ),
        (ClaimValue::Integer(value), JsonValue::Number(number)) => match number.as_i64() {
            Some(own) => own == *value,
            None => false,
        },
        (ClaimValue::Boolean(value), JsonValue::Bool(own)) => *value == *own,
        _ => false,
    }
}

/// Whether one of `nodes` is one of the values `expected`.
fn any_matches(nodes: &Vec<&JsonValue>, expected: &[ClaimValue]) -> (found: bool)
    ensures
        found == any_expected(nodes.deep_view(), expected.deep_view()),
{
    let ghost models = nodes.deep_view();
    let ghost wanted = expected.deep_view();
    let mut i: usize = 0;
    while i < nodes.len()
        invariant
            i <= nodes.len(),
            models == nodes.deep_view(),
            wanted == expected.deep_view(),
            forall|a: int, b: int|
                0 <= a < i && 0 <= b < wanted.len() ==> !#[trigger] is_expected(
                    models[a],
                    wanted[b],
                ),
        decreases nodes.len() - i,
    {
        assert(models[i as int] == nodes@[i as int].deep_view());
        let mut j: usize = 0;
        while j < expected.len()
            invariant
                i < nodes.len(),
                j <= expected@.len(),
                models == nodes.deep_view(),
                wanted == expected.deep_view(),
                models[i as int] == nodes@[i as int].deep_view(),
                forall|b: int|
                    0 <= b < j ==> !#[trigger] is_expected(models[i as int], wanted[b]),
            decreases expected@.len() - j,
        {
            assert(wanted[j as int] == expected@[j as int].deep_view());
            if matches_expected(nodes[i], &expected[j]) {
                assert(is_expected(models[i as int], wanted[j as int]));
                return true;
            }
            j = j + 1;
        }
        i = i + 1;
    }
    false
}

impl PackageStore {
    /// The credential at a position.
    pub open spec fn at(&self, position: usize) -> Option<ResolvedModel> {
        if position < self.credentials.len() {
            Some(self.credentials@[position as int].deep_view())
        } else {
            None
        }
    }

    /// Tells positions of credentials of the format that is asked for from others.
    pub open spec fn in_format(&self, format: Option<CredentialFormat>) -> spec_fn(int) -> bool {
        |i: int|
            match format {
                Some(format) => self.credentials@[i].format == format,
                None => true,
            }
    }

    /// Takes a configuration as a store. Credentials that do not resolve are left out.
    pub fn from_config(config: PackageConfig) -> (store: PackageStore)
        requires
            config.has_usable_ids(),
        ensures
            store.credentials.deep_view() == resolved_all(
                config.credentials.deep_view(),
                config.prefix(),
            ),
            store.openid4vp == config.openid4vp,
            store.payment_sca == config.payment_sca,
            store.log_level == config.log_level,
            store.dcql == config.dcql,
    {
        let PackageConfig {
            default_id_prefix,
            openid4vp,
            dcql,
            payment_sca,
            log_level,
            credentials: configs,
        } = config;
        let ghost all = configs.deep_view();
        let ghost prefix = default_id_prefix.deep_view();
        let ghost items = configs@;
        let count: usize = configs.len();
        let mut credentials: Vec<ResolvedCredential> = Vec::new();
        let mut index: usize = 0;
        proof {
            assert(all.take(0) =~= Seq::<CredentialConfigModel>::empty());
            assert(credentials.deep_view() =~= resolved_all(all.take(0), prefix));
            assert forall|k: int| 0 <= k < all.len() implies is_blank_text(
                (#[trigger] all[k]).format,
            ) || has_usable_id(all[k], prefix) by {
                assert(all[k] == config.credentials@[k].deep_view());
            }
        }
        for credential in it: configs
            invariant
                it.seq() == items,
                index == it.index(),
                items.len() == count,
                all.len() == items.len(),
                forall|k: int|
                    0 <= k < items.len() ==> all[k] == (#[trigger] items[k]).deep_view(),
                prefix == default_id_prefix.deep_view(),
                forall|k: int|
                    0 <= k < all.len() ==> is_blank_text((#[trigger] all[k]).format)
                        || has_usable_id(all[k], prefix),
                credentials.deep_view() == resolved_all(all.take(index as int), prefix),
        {
            let ghost earlier = credentials.deep_view();
            proof {
                assert(credential == items[index as int]);
                assert(all[index as int] == credential.deep_view());
                assert(all.take(index + 1).drop_last() =~= all.take(index as int));
                assert(all.take(index + 1).last() == all[index as int]);
            }
            match resolve_credential(credential, index, &default_id_prefix) {
                Ok(found) => {
                    let ghost model = found.deep_view();
                    credentials.push(found);
                    assert(credentials.deep_view() =~= earlier.push(model));
                },
                Err(_) => {},
            }
            index = index + 1;
        }
        proof {
            lemma_take_all(all);
        }
        PackageStore { credentials, openid4vp, payment_sca, log_level, dcql }
    }

    /// The credential at a position.
    pub fn get(&self, position: usize) -> (credential: Option<&ResolvedCredential>)
        ensures
            credential.deep_view() == self.at(position),
    {
        if position < self.credentials.len() {
            Some(&self.credentials[position])
        } else {
            None
        }
    }

    /// Matches the requests of a Digital Credentials API call under the planner configuration of
    /// the package. `origin` is the origin of the caller, empty if there is none.
    pub fn match_requests(&self, requests: &Vec<DcApiRequestItem>, origin: &str) -> (matched: Result<
        MatcherResponse,
        MatcherError,
    >)
        ensures
            result_view(matched) == response(
                *self,
                self.dcql.deep_view(),
                origin@,
                requests.deep_view(),
            ),
    {
        proof {
            lemma_positions_are_lawful();
        }
        let options = MatcherOptions { dcql: self.dcql_options() };
        match_dc_api_request(requests, origin, self, &options)
    }

    /// The planner configuration of the package.
    pub fn dcql_options(&self) -> (options: PlanOptions)
        ensures
            options.deep_view() == self.dcql.deep_view(),
    {
        self.dcql.clone()
    }
}

/// Positions are compared and copied as what they are.
pub proof fn lemma_positions_are_lawful()
    ensures
        lawful_refs::<usize>(),
{
}

/// A package lists exactly the credentials of the format that is asked for, each once.
pub proof fn lemma_listed_credentials(
    store: PackageStore,
    format: CredentialFormat,
    position: usize,
)
    ensures
        store.listed(Some(format)).contains(position) <==> position < store.credentials.len()
            && store.format_of(position) == format,
        store.listed(Some(format)).no_duplicates(),
{
    let bound = store.credentials@.len();
    let all = Seq::new(bound, |i: int| i);
    let wanted = store.in_format(Some(format));
    let found = indices_where(bound, wanted);
    let positions = store.listed(Some(format));
    lemma_filter_contains(all, wanted);
    lemma_filter_no_duplicates(all, wanted);
    assert forall|k: int| 0 <= k < found.len() implies 0 <= #[trigger] found[k] < bound && wanted(
        found[k],
    ) by {
        assert(found.contains(found[k]));
        assert(all.contains(found[k]));
    }
    if position < bound && wanted(position as int) {
        assert(all[position as int] == position);
        assert(found.contains(position as int));
        let k = choose|k: int| 0 <= k < found.len() && found[k] == position;
        assert(positions[k] == position);
    }
    if positions.contains(position) {
        let k = choose|k: int| 0 <= k < positions.len() && positions[k] == position;
        assert(found[k] == position);
    }
    assert forall|i: int, j: int|
        0 <= i < positions.len() && 0 <= j < positions.len() && i != j implies positions[i]
        != positions[j] by {
        assert(found[i] != found[j]);
    }
}

impl CredentialStore for PackageStore {
    type CredentialRef = usize;

    open spec fn listed(&self, format: Option<CredentialFormat>) -> Seq<usize> {
        indices_where(self.credentials@.len(), self.in_format(format)).map_values(
            |i: int| i as usize,
        )
    }

    open spec fn format_of(&self, cred: usize) -> CredentialFormat {
        match self.at(cred) {
            Some(credential) => credential.format,
            None => CredentialFormat::Unknown,
        }
    }

    open spec fn is_vct(&self, cred: usize, vct: Text) -> bool {
        match self.at(cred) {
            Some(credential) => credential.vcts.contains(vct),
            None => false,
        }
    }

    open spec fn is_holder_bound(&self, cred: usize) -> bool {
        match self.at(cred) {
            Some(credential) => credential.holder_binding,
            None => false,
        }
    }

    open spec fn is_doctype(&self, cred: usize, doctype: Text) -> bool {
        match self.at(cred) {
            Some(credential) => credential.doctype == Some(doctype),
            None => false,
        }
    }

    open spec fn can_sign(&self, cred: usize, data: TransactionDataModel) -> bool {
        match self.at(cred) {
            Some(credential) => credential.signs(data),
            None => false,
        }
    }

    open spec fn has_path(&self, cred: usize, path: PathModel) -> bool {
        match self.at(cred) {
            Some(credential) => selected(credential.claims, path) is Ok,
            None => false,
        }
    }

    open spec fn value_match(
        &self,
        cred: usize,
        path: PathModel,
        expected: Seq<ClaimValueModel>,
    ) -> ValueMatch {
        match self.at(cred) {
            Some(credential) => match selected(credential.claims, path) {
                Ok(nodes) => if any_expected(nodes, expected) {
                    ValueMatch::Match
                } else {
                    ValueMatch::NoMatch
                },
                Err(_) => ValueMatch::NoMatch,
            },
            None => ValueMatch::NoMatch,
        }
    }

    /// A package knows nothing of authorities.
    open spec fn is_trusted(&self, cred: usize, authorities: Seq<TrustedAuthorityModel>) -> bool {
        false
    }

    fn list_credentials(&self, format: Option<CredentialFormat>) -> (refs: Vec<usize>) {
        let ghost wanted = self.in_format(format);
        let ghost image = |i: int| i as usize;
        let mut refs: Vec<usize> = Vec::new();
        let mut i: usize = 0;
        proof {
            reveal(Seq::filter);
            assert(refs@ =~= indices_where(0, wanted).map_values(image));
        }
        while i < self.credentials.len()
            invariant
                i <= self.credentials.len(),
                wanted == self.in_format(format),
                image == (|i: int| i as usize),
                refs@ == indices_where(i as nat, wanted).map_values(image),
            decreases self.credentials.len() - i,
        {
            proof {
                crate::planner::constraints::lemma_indices_step(
                    self.credentials@.len(),
                    wanted,
                    i as int,
                );
            }
            let ghost earlier = indices_where(i as nat, wanted);
            let keep = match format {
                Some(format) => self.credentials[i].format == format,
                None => true,
            };
            if keep {
                refs.push(i);
                assert(earlier.push(i as int).map_values(image) =~= earlier.map_values(image).push(
                    i,
                ));
            }
            i = i + 1;
        }
        assert(refs.deep_view() =~= refs@);
        refs
    }

    fn format(&self, cred: &usize) -> (format: CredentialFormat) {
        match self.get(*cred) {
            Some(credential) => credential.format,
            None => CredentialFormat::Unknown,
        }
    }

    fn has_vct(&self, cred: &usize, vct: &str) -> (has: bool) {
        match self.get(*cred) {
            Some(credential) => {
                let listed = credential.vcts.as_slice();
                assert(listed.deep_view() =~= credential.vcts.deep_view());
                contains_text(listed, vct)
            },
            None => false,
        }
    }

    fn supports_holder_binding(&self, cred: &usize) -> (supports: bool) {
        match self.get(*cred) {
            Some(credential) => credential.holder_binding,
            None => false,
        }
    }

    fn has_doctype(&self, cred: &usize, doctype: &str) -> (has: bool) {
        match self.get(*cred) {
            Some(credential) => match &credential.doctype {
                Some(own) => same_text(own.as_str(), doctype),
                None => false,
            },
            None => false,
        }
    }

    fn can_sign_transaction_data(
        &self,
        cred: &usize,
        transaction_data: &TransactionData,
    ) -> (can: bool) {
        match self.get(*cred) {
            Some(credential) => credential.can_sign_data(transaction_data),
            None => false,
        }
    }

    fn has_claim_path(&self, cred: &usize, path: &ClaimsPathPointer) -> (has: bool) {
        match self.get(*cred) {
            Some(credential) => {
                proof {
                    lemma_selected_not_empty(
                        seq![credential.claims.deep_view()],
                        path.deep_view(),
                    );
                }
                match select_nodes(&credential.claims, path) {
                    Ok(nodes) => {
                        assert(nodes.deep_view().len() == nodes.len());
                        !nodes.is_empty()
                    },
                    Err(_) => false,
                }
            },
            None => false,
        }
    }

    fn match_claim_value(
        &self,
        cred: &usize,
        path: &ClaimsPathPointer,
        expected_values: &[ClaimValue],
    ) -> (outcome: ValueMatch) {
        let credential = match self.get(*cred) {
            Some(credential) => credential,
            None => return ValueMatch::NoMatch,
        };
        let nodes = match select_nodes(&credential.claims, path) {
            Ok(nodes) => nodes,
            Err(_) => return ValueMatch::NoMatch,
        };
        if any_matches(&nodes, expected_values) {
            ValueMatch::Match
        } else {
            ValueMatch::NoMatch
        }
    }

    fn matches_trusted_authorities(
        &self,
        cred: &usize,
        trusted_authorities: &[TrustedAuthority],
    ) -> (matches: bool) {
        false
    }
}

impl MatcherStore for PackageStore {
    open spec fn id_of(&self, cred: usize) -> Text {
        match self.at(cred) {
            Some(credential) => credential.id,
            None => Seq::empty(),
        }
    }

    open spec fn title_of(&self, cred: usize) -> Text {
        match self.at(cred) {
            Some(credential) => credential.title,
            None => Seq::empty(),
        }
    }

    open spec fn icon_of(&self, cred: usize) -> Option<Seq<u8>> {
        match self.at(cred) {
            Some(credential) => credential.icon,
            None => None,
        }
    }

    open spec fn subtitle_of(&self, cred: usize) -> Option<Text> {
        match self.at(cred) {
            Some(credential) => credential.subtitle,
            None => None,
        }
    }

    open spec fn disclaimer_of(&self, cred: usize) -> Option<Text> {
        match self.at(cred) {
            Some(credential) => credential.disclaimer,
            None => None,
        }
    }

    open spec fn warning_of(&self, cred: usize) -> Option<Text> {
        match self.at(cred) {
            Some(credential) => credential.warning,
            None => None,
        }
    }

    open spec fn label_of(&self, cred: usize, path: PathModel) -> Option<Text> {
        match self.at(cred) {
            Some(credential) => if has_wildcard(path) {
                None
            } else {
                credential.label(path)
            },
            None => None,
        }
    }

    open spec fn value_of(&self, cred: usize, path: PathModel) -> Option<Text> {
        match self.at(cred) {
            Some(credential) => if has_wildcard(path) {
                None
            } else {
                credential.value(path)
            },
            None => None,
        }
    }

    open spec fn is_available(&self, cred: usize, protocol: Text) -> bool {
        true
    }

    open spec fn is_verified(&self, protocol: Text, request: EnvelopeModel) -> bool {
        true
    }

    open spec fn capabilities(&self) -> OpenId4VpConfigModel {
        self.openid4vp.deep_view()
    }

    open spec fn log_level_of(&self) -> Option<LogLevel> {
        self.log_level
    }

    open spec fn ts12_metadata_of(
        &self,
        cred: usize,
        data: TransactionDataModel,
    ) -> Option<Ts12MetadataModel> {
        match self.at(cred) {
            Some(credential) => credential.metadata_for(data),
            None => None,
        }
    }

    open spec fn ts12_summary_of(
        &self,
        cred: usize,
        data: TransactionDataModel,
        payload: JsonModel,
        metadata: Ts12MetadataModel,
    ) -> Option<SummaryModel> {
        payment_summary(self.payment_sca.deep_view(), data)
    }

    fn credential_id(&self, cred: &usize) -> (id: C8Text) {
        match self.get(*cred) {
            Some(credential) => credential.id.clone(),
            None => C8Text::empty(),
        }
    }

    fn credential_title(&self, cred: &usize) -> (title: C8Text) {
        match self.get(*cred) {
            Some(credential) => credential.title.clone(),
            None => C8Text::empty(),
        }
    }

    fn credential_icon(&self, cred: &usize) -> (icon: Option<Vec<u8>>) {
        match self.get(*cred) {
            Some(credential) => match &credential.icon {
                Some(bytes) => {
                    let copy = bytes.clone();
                    assert(copy.deep_view() =~= bytes.deep_view());
                    Some(copy)
                },
                None => None,
            },
            None => None,
        }
    }

    fn credential_subtitle(&self, cred: &usize) -> (subtitle: Option<C8Text>) {
        match self.get(*cred) {
            Some(credential) => clone_optional(&credential.subtitle),
            None => None,
        }
    }

    fn credential_disclaimer(&self, cred: &usize) -> (disclaimer: Option<C8Text>) {
        match self.get(*cred) {
            Some(credential) => clone_optional(&credential.disclaimer),
            None => None,
        }
    }

    fn credential_warning(&self, cred: &usize) -> (warning: Option<C8Text>) {
        match self.get(*cred) {
            Some(credential) => clone_optional(&credential.warning),
            None => None,
        }
    }

    fn get_credential_field_label(
        &self,
        cred: &usize,
        path: &ClaimsPathPointer,
    ) -> (label: Option<C8Text>) {
        if path_has_wildcard(path) {
            return None;
        }
        match self.get(*cred) {
            Some(credential) => credential.find_label(path),
            None => None,
        }
    }

    fn get_credential_field_value(
        &self,
        cred: &usize,
        path: &ClaimsPathPointer,
    ) -> (value: Option<C8Text>) {
        if path_has_wildcard(path) {
            return None;
        }
        match self.get(*cred) {
            Some(credential) => credential.find_value(path),
            None => None,
        }
    }

    fn supports_protocol(&self, cred: &usize, protocol: &str) -> (supports: bool) {
        true
    }

    fn verify_openid4vp_signed_request(
        &self,
        protocol: &str,
        request: &OpenId4VpSignedEnvelope,
    ) -> (verified: bool) {
        true
    }

    fn openid4vp_config(&self) -> (config: OpenId4VpConfig) {
        self.openid4vp.clone()
    }

    fn log_level(&self) -> (level: Option<LogLevel>) {
        self.log_level
    }

    fn ts12_transaction_metadata(
        &self,
        cred: &usize,
        transaction_data: &TransactionData,
    ) -> (metadata: Option<Ts12TransactionMetadata>) {
        match self.get(*cred) {
            Some(credential) => match credential.find_metadata(transaction_data) {
                Some(metadata) => Some(metadata.clone()),
                None => None,
            },
            None => None,
        }
    }

    fn ts12_payment_summary(
        &self,
        cred: &usize,
        transaction_data: &TransactionData,
        payload: &JsonValue,
        metadata: &Ts12TransactionMetadata,
    ) -> (summary: Option<Ts12PaymentSummary>) {
        payment_sca_summary(&self.payment_sca, transaction_data)
    }
}

/// Copies optional text.
fn clone_optional(text: &Option<C8Text>) -> (copy: Option<C8Text>)
    ensures
        copy.deep_view() == text.deep_view(),
{
    match text {
        Some(text) => Some(text.clone()),
        None => None,
    }
}

} // verus!
