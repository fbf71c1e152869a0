//! Parsed DCQL queries.

use crate::json::{clone_entries, JsonModel, JsonNumber, JsonValue, NumberModel};
use crate::path::{clone_path, same_path, ClaimsPathPointer, PathModel};
use crate::store::CredentialFormat;
use crate::text::{same_text, Text};
use vstd::prelude::*;

verus! {

broadcast use vstd::string::group_string_axioms;

/// Message for a query without credential queries.
pub const NO_CREDENTIAL_QUERIES: &'static str =
    "dcql_query.credentials must contain at least one credential query";

/// Vec wrapper that can only be built with at least one item.
#[derive(Debug)]
pub struct NonEmptyVec<T>(Vec<T>);

impl<T> View for NonEmptyVec<T> {
    type V = Seq<T>;

    closed spec fn view(&self) -> Seq<T> {
        self.0@
    }
}

impl<T: DeepView> DeepView for NonEmptyVec<T> {
    type V = Seq<T::V>;

    open spec fn deep_view(&self) -> Seq<T::V> {
        Seq::new(self@.len(), |i: int| self@[i].deep_view())
    }
}

impl<T> NonEmptyVec<T> {
    #[verifier::type_invariant]
    closed spec fn not_empty(&self) -> bool {
        self.0@.len() > 0
    }

    /// Wraps `values`, or hands back `empty_error` when there are none.
    pub fn try_new(values: Vec<T>, empty_error: &'static str) -> (wrapped: Result<Self, String>)
        ensures
            match wrapped {
                Ok(items) => values@.len() > 0 && items@ == values@,
                Err(message) => values@.len() == 0 && message@ == empty_error@,
            },
    {
        if values.is_empty() {
            return Err(empty_error.to_owned());
        }
        Ok(NonEmptyVec(values))
    }

    /// The items, of which there is at least one.
    pub fn as_slice(&self) -> (items: &[T])
        ensures
            items@ == self@,
            items@.len() > 0,
    {
        proof {
            use_type_invariant(self);
        }
        self.0.as_slice()
    }
}

impl<T> core::ops::Deref for NonEmptyVec<T> {
    type Target = [T];

    fn deref(&self) -> (items: &[T])
        ensures
            items@ == self@,
    {
        self.as_slice()
    }
}

/// `meta` members for `mso_mdoc`.
#[derive(Debug, PartialEq, Eq)]
pub struct IsoMdocMeta {
    /// Requested document type.
    pub doctype_value: String,
}

/// Model of [`IsoMdocMeta`].
pub struct IsoMdocMetaModel {
    pub doctype_value: Text,
}

impl DeepView for IsoMdocMeta {
    type V = IsoMdocMetaModel;

    open spec fn deep_view(&self) -> IsoMdocMetaModel {
        IsoMdocMetaModel {
            doctype_value: self.doctype_value.deep_view(),
        }
    }
}

impl Clone for IsoMdocMeta {
    fn clone(&self) -> (copy: IsoMdocMeta)
        ensures
            copy.deep_view() == self.deep_view(),
    {
        let copy = IsoMdocMeta {
            doctype_value: self.doctype_value.clone(),
        };
        copy
    }
}

/// `meta` members for `dc+sd-jwt`.
#[derive(Debug, PartialEq, Eq)]
pub struct SdJwtMeta {
    /// Accepted credential types; any type is accepted when absent.
    pub vct_values: Option<Vec<String>>,
}

/// Model of [`SdJwtMeta`].
pub struct SdJwtMetaModel {
    pub vct_values: Option<Seq<Text>>,
}

impl DeepView for SdJwtMeta {
    type V = SdJwtMetaModel;

    open spec fn deep_view(&self) -> SdJwtMetaModel {
        SdJwtMetaModel {
            vct_values: self.vct_values.deep_view(),
        }
    }
}

impl Clone for SdJwtMeta {
    fn clone(&self) -> (copy: SdJwtMeta)
        ensures
            copy.deep_view() == self.deep_view(),
    {
        let copy = SdJwtMeta {
            vct_values: self.vct_values.clone(),
        };
        assert(copy.vct_values.deep_view() == self.vct_values.deep_view()) by {
            if let Some(list) = self.vct_values {
                assert(copy.vct_values->0.deep_view() =~= list.deep_view());
            }
        }
        copy
    }
}

/// Typed `meta` object of a credential query.
#[derive(Debug, PartialEq, Eq)]
pub enum Meta {
    IsoMdoc(IsoMdocMeta),
    SdJwtVc(SdJwtMeta),
}

/// Model of [`Meta`].
pub enum MetaModel {
    IsoMdoc(IsoMdocMetaModel),
    SdJwtVc(SdJwtMetaModel),
}

impl DeepView for Meta {
    type V = MetaModel;

    open spec fn deep_view(&self) -> MetaModel {
        match *self {
            Meta::IsoMdoc(meta) => MetaModel::IsoMdoc(meta.deep_view()),
            Meta::SdJwtVc(meta) => MetaModel::SdJwtVc(meta.deep_view()),
        }
    }
}

/// Trusted authority constraint from DCQL.
#[derive(Debug)]
pub struct TrustedAuthority {
    /// Trusted authority type identifier.
    pub authority_type: String,
    /// Values interpreted according to the type.
    pub values: Vec<String>,
}

/// Model of [`TrustedAuthority`].
pub struct TrustedAuthorityModel {
    pub authority_type: Text,
    pub values: Seq<Text>,
}

impl DeepView for TrustedAuthority {
    type V = TrustedAuthorityModel;

    open spec fn deep_view(&self) -> TrustedAuthorityModel {
        TrustedAuthorityModel {
            authority_type: self.authority_type.deep_view(),
            values: self.values.deep_view(),
        }
    }
}

impl Clone for TrustedAuthority {
    fn clone(&self) -> (copy: TrustedAuthority)
        ensures
            copy.deep_view() == self.deep_view(),
    {
        let copy = TrustedAuthority {
            authority_type: self.authority_type.clone(),
            values: self.values.clone(),
        };
        assert(copy.values.deep_view() =~= self.values.deep_view());
        copy
    }
}

/// Allowed value constraint primitive types for claims.
#[derive(Debug, PartialEq, Eq)]
pub enum ClaimValue {
    String(String),
    Integer(i64),
    Boolean(bool),
}

/// Model of [`ClaimValue`].
pub enum ClaimValueModel {
    String(Text),
    Integer(i64),
    Boolean(bool),
}

impl DeepView for ClaimValue {
    type V = ClaimValueModel;

    open spec fn deep_view(&self) -> ClaimValueModel {
        match *self {
            ClaimValue::String(text) => ClaimValueModel::String(text@),
            ClaimValue::Integer(value) => ClaimValueModel::Integer(value),
            ClaimValue::Boolean(value) => ClaimValueModel::Boolean(value),
        }
    }
}

impl Clone for ClaimValue {
    fn clone(&self) -> (copy: ClaimValue)
        ensures
            copy.deep_view() == self.deep_view(),
    {
        match self {
            ClaimValue::String(text) => ClaimValue::String(text.clone()),
            ClaimValue::Integer(value) => ClaimValue::Integer(*value),
            ClaimValue::Boolean(value) => ClaimValue::Boolean(*value),
        }
    }
}

/// The JSON form of a claim value.
pub open spec fn claim_value_json(value: ClaimValueModel) -> JsonModel {
    match value {
        ClaimValueModel::String(text) => JsonModel::String(text),
        ClaimValueModel::Integer(number) => JsonModel::Number(
            if number >= 0 {
                NumberModel::PosInt(number as u64)
            } else {
                NumberModel::NegInt(number)
            },
        ),
        ClaimValueModel::Boolean(flag) => JsonModel::Bool(flag),
    }
}

impl ClaimValue {
    /// The JSON form, for stores that hold JSON.
    pub fn to_json_value(&self) -> (json: JsonValue)
        ensures
            json.deep_view() == claim_value_json(self.deep_view()),
    {
        match self {
            ClaimValue::String(text) => JsonValue::String(text.clone()),
            ClaimValue::Integer(number) => if *number >= 0 {
                JsonValue::Number(JsonNumber::PosInt(*number as u64))
            } else {
                JsonValue::Number(JsonNumber::NegInt(*number))
            },
            ClaimValue::Boolean(flag) => JsonValue::Bool(*flag),
        }
    }

    /// Whether two claim values are the same.
    pub fn same(&self, other: &ClaimValue) -> (same: bool)
        ensures
            same == (self.deep_view() == other.deep_view()),
    {
        match (self, other) {
            (ClaimValue::String(a), ClaimValue::String(b)) => same_text(a.as_str(), b.as_str()),
            (ClaimValue::Integer(a), ClaimValue::Integer(b)) => *a == *b,
            (ClaimValue::Boolean(a), ClaimValue::Boolean(b)) => *a == *b,
            _ => false,
        }
    }
}

/// One requested claim constraint.
#[derive(Debug)]
pub struct ClaimsQuery {
    /// Claim id, required only when `claim_sets` is present.
    pub id: Option<String>,
    /// Claims path pointer selecting claim(s) in the credential payload.
    pub path: ClaimsPathPointer,
    /// Optional accepted values. If present, at least one must match exactly.
    pub values: Option<Vec<ClaimValue>>,
    /// Optional mdoc-specific hint carried through to callers.
    pub intent_to_retain: Option<bool>,
}

/// Model of [`ClaimsQuery`].
pub struct ClaimModel {
    pub id: Option<Text>,
    pub path: PathModel,
    pub values: Option<Seq<ClaimValueModel>>,
    pub intent_to_retain: Option<bool>,
}

impl DeepView for ClaimsQuery {
    type V = ClaimModel;

    open spec fn deep_view(&self) -> ClaimModel {
        ClaimModel {
            id: self.id.deep_view(),
            path: self.path.deep_view(),
            values: self.values.deep_view(),
            intent_to_retain: self.intent_to_retain.deep_view(),
        }
    }
}

impl Clone for ClaimsQuery {
    fn clone(&self) -> (copy: ClaimsQuery)
        ensures
            copy.deep_view() == self.deep_view(),
    {
        let copy = ClaimsQuery {
            id: self.id.clone(),
            path: clone_path(&self.path),
            values: self.values.clone(),
            intent_to_retain: self.intent_to_retain,
        };
        assert(copy.values.deep_view() == self.values.deep_view()) by {
            if let Some(list) = self.values {
                assert(copy.values->0.deep_view() =~= list.deep_view());
            }
        }
        copy
    }
}

/// Whether two optional strings are the same.
pub fn same_optional_text(left: &Option<String>, right: &Option<String>) -> (same: bool)
    ensures
        same == (left.deep_view() == right.deep_view()),
{
    match (left, right) {
        (Some(a), Some(b)) => same_text(a.as_str(), b.as_str()),
        (None, None) => true,
        _ => false,
    }
}

/// Whether two lists of claim values are the same.
fn same_values(left: &Vec<ClaimValue>, right: &Vec<ClaimValue>) -> (same: bool)
    ensures
        same == (left.deep_view() == right.deep_view()),
{
    if left.len() != right.len() {
        assert(left.deep_view().len() != right.deep_view().len());
        return false;
    }
    let mut i: usize = 0;
    while i < left.len()
        invariant
            i <= left.len() == right.len(),
            forall|j: int| 0 <= j < i ==> left.deep_view()[j] == right.deep_view()[j],
        decreases left.len() - i,
    {
        if !left[i].same(&right[i]) {
            assert(left.deep_view()[i as int] != right.deep_view()[i as int]);
            return false;
        }
        i = i + 1;
    }
    assert(left.deep_view() =~= right.deep_view());
    true
}

impl ClaimsQuery {
    /// Optional claim id.
    pub fn id(&self) -> (id: Option<&str>)
        ensures
            id.deep_view() == self.deep_view().id,
    {
        match &self.id {
            Some(id) => Some(id.as_str()),
            None => None,
        }
    }

    /// Whether two constraints are the same.
    pub fn same(&self, other: &ClaimsQuery) -> (same: bool)
        ensures
            same == (self.deep_view() == other.deep_view()),
    {
        let values = match (&self.values, &other.values) {
            (Some(a), Some(b)) => same_values(a, b),
            (None, None) => true,
            _ => false,
        };
        let retain = match (self.intent_to_retain, other.intent_to_retain) {
            (Some(a), Some(b)) => a == b,
            (None, None) => true,
            _ => false,
        };
        same_optional_text(&self.id, &other.id) && same_path(&self.path, &other.path) && values
            && retain
    }
}

/// Format-agnostic credential query members.
#[derive(Debug)]
pub struct CredentialQueryCommon {
    /// Id that the rest of the query refers to.
    pub id: String,
    /// Whether several presentations may be returned.
    pub multiple: Option<bool>,
    /// Trusted authority constraints.
    pub trusted_authorities: Option<Vec<TrustedAuthority>>,
    /// Holder-binding requirement; binding is required when absent.
    pub require_cryptographic_holder_binding: Option<bool>,
    /// Requested claim constraints.
    pub claims: Option<Vec<ClaimsQuery>>,
    /// Requested alternatives of claim ids.
    pub claim_sets: Option<Vec<Vec<String>>>,
}

/// Model of [`CredentialQueryCommon`].
pub struct CredentialQueryCommonModel {
    pub id: Text,
    pub multiple: Option<bool>,
    pub trusted_authorities: Option<Seq<TrustedAuthorityModel>>,
    pub require_cryptographic_holder_binding: Option<bool>,
    pub claims: Option<Seq<ClaimModel>>,
    pub claim_sets: Option<Seq<Seq<Text>>>,
}

impl DeepView for CredentialQueryCommon {
    type V = CredentialQueryCommonModel;

    open spec fn deep_view(&self) -> CredentialQueryCommonModel {
        CredentialQueryCommonModel {
            id: self.id.deep_view(),
            multiple: self.multiple.deep_view(),
            trusted_authorities: self.trusted_authorities.deep_view(),
            require_cryptographic_holder_binding: self.require_cryptographic_holder_binding.deep_view(),
            claims: self.claims.deep_view(),
            claim_sets: self.claim_sets.deep_view(),
        }
    }
}

impl Clone for CredentialQueryCommon {
    fn clone(&self) -> (copy: CredentialQueryCommon)
        ensures
            copy.deep_view() == self.deep_view(),
    {
        let copy = CredentialQueryCommon {
            id: self.id.clone(),
            multiple: self.multiple,
            trusted_authorities: self.trusted_authorities.clone(),
            require_cryptographic_holder_binding: self.require_cryptographic_holder_binding,
            claims: self.claims.clone(),
            claim_sets: self.claim_sets.clone(),
        };
        assert(copy.trusted_authorities.deep_view() == self.trusted_authorities.deep_view()) by {
            if let Some(list) = self.trusted_authorities {
                assert(copy.trusted_authorities->0.deep_view() =~= list.deep_view());
            }
        }
        assert(copy.claims.deep_view() == self.claims.deep_view()) by {
            if let Some(list) = self.claims {
                assert(copy.claims->0.deep_view() =~= list.deep_view());
            }
        }
        assert(copy.claim_sets.deep_view() == self.claim_sets.deep_view()) by {
            if let Some(list) = self.claim_sets {
                assert forall|i: int| 0 <= i < list@.len() implies list@[i].deep_view() == (
                    #[trigger] copy.claim_sets->0@[i]).deep_view() by {
                    assert(list@[i].deep_view() =~= copy.claim_sets->0@[i].deep_view());
                }
                assert(copy.claim_sets->0.deep_view() =~= list.deep_view());
            }
        }
        copy
    }
}

/// One credential request entry, by credential format.
///
/// Unknown formats are kept so that unsupported parts of a query can be pruned.
#[allow(inconsistent_fields)]
#[derive(Debug)]
pub enum CredentialQuery {
    /// ISO mdoc credential query.
    MsoMdoc { common: CredentialQueryCommon, meta: IsoMdocMeta },
    /// SD-JWT VC credential query.
    DcSdJwt { common: CredentialQueryCommon, meta: SdJwtMeta },
    /// Unknown format value.
    Unknown,
}

/// Model of [`CredentialQuery`].
#[allow(inconsistent_fields)]
pub enum CredentialQueryModel {
    MsoMdoc { common: CredentialQueryCommonModel, meta: IsoMdocMetaModel },
    DcSdJwt { common: CredentialQueryCommonModel, meta: SdJwtMetaModel },
    Unknown,
}

impl DeepView for CredentialQuery {
    type V = CredentialQueryModel;

    open spec fn deep_view(&self) -> CredentialQueryModel {
        match *self {
            CredentialQuery::MsoMdoc { common, meta } => CredentialQueryModel::MsoMdoc {
                common: common.deep_view(),
                meta: meta.deep_view(),
            },
            CredentialQuery::DcSdJwt { common, meta } => CredentialQueryModel::DcSdJwt {
                common: common.deep_view(),
                meta: meta.deep_view(),
            },
            CredentialQuery::Unknown => CredentialQueryModel::Unknown,
        }
    }
}

impl CredentialQueryModel {
    /// The format-agnostic members of a supported query.
    pub open spec fn common(self) -> Option<CredentialQueryCommonModel> {
        match self {
            CredentialQueryModel::MsoMdoc { common, .. } => Some(common),
            CredentialQueryModel::DcSdJwt { common, .. } => Some(common),
            CredentialQueryModel::Unknown => None,
        }
    }

    /// The id of a supported query.
    pub open spec fn id(self) -> Option<Text> {
        match self.common() {
            Some(common) => Some(common.id),
            None => None,
        }
    }

    /// The requested format.
    pub open spec fn format(self) -> CredentialFormat {
        match self {
            CredentialQueryModel::MsoMdoc { .. } => CredentialFormat::MsoMdoc,
            CredentialQueryModel::DcSdJwt { .. } => CredentialFormat::DcSdJwt,
            CredentialQueryModel::Unknown => CredentialFormat::Unknown,
        }
    }

    /// The typed `meta` object of a supported query.
    pub open spec fn meta(self) -> Option<MetaModel> {
        match self {
            CredentialQueryModel::MsoMdoc { meta, .. } => Some(MetaModel::IsoMdoc(meta)),
            CredentialQueryModel::DcSdJwt { meta, .. } => Some(MetaModel::SdJwtVc(meta)),
            CredentialQueryModel::Unknown => None,
        }
    }

    /// The trusted authority constraints.
    pub open spec fn trusted_authorities(self) -> Option<Seq<TrustedAuthorityModel>> {
        match self.common() {
            Some(common) => common.trusted_authorities,
            None => None,
        }
    }

    /// The holder-binding requirement as it is written.
    pub open spec fn holder_binding(self) -> Option<bool> {
        match self.common() {
            Some(common) => common.require_cryptographic_holder_binding,
            None => None,
        }
    }

    /// The requested claim constraints.
    pub open spec fn claims(self) -> Option<Seq<ClaimModel>> {
        match self.common() {
            Some(common) => common.claims,
            None => None,
        }
    }

    /// The requested alternatives of claim ids.
    pub open spec fn claim_sets(self) -> Option<Seq<Seq<Text>>> {
        match self.common() {
            Some(common) => common.claim_sets,
            None => None,
        }
    }
}

impl CredentialQuery {
    /// Format-agnostic members, for supported formats.
    pub fn common(&self) -> (common: Option<&CredentialQueryCommon>)
        ensures
            common.deep_view() == self.deep_view().common(),
    {
        match self {
            CredentialQuery::MsoMdoc { common, .. } => Some(common),
            CredentialQuery::DcSdJwt { common, .. } => Some(common),
            CredentialQuery::Unknown => None,
        }
    }

    /// Credential query id, for supported formats.
    pub fn id(&self) -> (id: Option<&str>)
        ensures
            id.deep_view() == self.deep_view().id(),
    {
        match self.common() {
            Some(common) => Some(common.id.as_str()),
            None => None,
        }
    }

    /// Requested credential format.
    pub fn format(&self) -> (format: CredentialFormat)
        ensures
            format == self.deep_view().format(),
    {
        match self {
            CredentialQuery::MsoMdoc { .. } => CredentialFormat::MsoMdoc,
            CredentialQuery::DcSdJwt { .. } => CredentialFormat::DcSdJwt,
            CredentialQuery::Unknown => CredentialFormat::Unknown,
        }
    }

    /// Typed meta object for supported formats.
    pub fn meta(&self) -> (meta: Option<Meta>)
        ensures
            meta.deep_view() == self.deep_view().meta(),
    {
        match self {
            CredentialQuery::MsoMdoc { meta, .. } => Some(Meta::IsoMdoc(meta.clone())),
            CredentialQuery::DcSdJwt { meta, .. } => Some(Meta::SdJwtVc(meta.clone())),
            CredentialQuery::Unknown => None,
        }
    }

    /// Trusted authority constraints.
    pub fn trusted_authorities(&self) -> (authorities: Option<&[TrustedAuthority]>)
        ensures
            authorities.deep_view() == self.deep_view().trusted_authorities(),
    {
        match self.common() {
            Some(common) => match &common.trusted_authorities {
                Some(authorities) => Some(authorities.as_slice()),
                None => None,
            },
            None => None,
        }
    }

    /// Holder-binding requirement.
    pub fn require_cryptographic_holder_binding(&self) -> (required: Option<bool>)
        ensures
            required == self.deep_view().holder_binding(),
    {
        match self.common() {
            Some(common) => common.require_cryptographic_holder_binding,
            None => None,
        }
    }

    /// Requested claim constraints.
    pub fn claims(&self) -> (claims: Option<&[ClaimsQuery]>)
        ensures
            claims.deep_view() == self.deep_view().claims(),
    {
        match self.common() {
            Some(common) => match &common.claims {
                Some(claims) => Some(claims.as_slice()),
                None => None,
            },
            None => None,
        }
    }

    /// Requested alternatives of claim ids.
    pub fn claim_sets(&self) -> (claim_sets: Option<&[Vec<String>]>)
        ensures
            claim_sets.deep_view() == self.deep_view().claim_sets(),
    {
        match self.common() {
            Some(common) => match &common.claim_sets {
                Some(claim_sets) => Some(claim_sets.as_slice()),
                None => None,
            },
            None => None,
        }
    }
}

/// Credential set constraint.
#[derive(Debug)]
pub struct CredentialSetQuery {
    /// Alternative required-id combinations.
    pub options: Vec<Vec<String>>,
    /// Whether this set is mandatory.
    pub required: bool,
    /// Optional verifier purpose, carried as it is.
    pub purpose: Option<JsonValue>,
}

/// Model of [`CredentialSetQuery`].
pub struct CredentialSetModel {
    pub options: Seq<Seq<Text>>,
    pub required: bool,
    pub purpose: Option<JsonModel>,
}

impl DeepView for CredentialSetQuery {
    type V = CredentialSetModel;

    open spec fn deep_view(&self) -> CredentialSetModel {
        CredentialSetModel {
            options: self.options.deep_view(),
            required: self.required,
            purpose: self.purpose.deep_view(),
        }
    }
}

/// Default value of [`CredentialSetQuery::required`].
pub fn default_required() -> (required: bool)
    ensures
        required,
{
    true
}

/// A DCQL query: which credentials are asked for, and which combinations of them will do.
#[derive(Debug)]
pub struct DcqlQuery {
    /// Requested credential queries.
    pub credentials: NonEmptyVec<CredentialQuery>,
    /// Optional combinations constraining which credential query ids can be returned together.
    pub credential_sets: Option<Vec<CredentialSetQuery>>,
}

/// Model of [`DcqlQuery`].
pub struct DcqlQueryModel {
    pub credentials: Seq<CredentialQueryModel>,
    pub credential_sets: Option<Seq<CredentialSetModel>>,
}

impl DeepView for DcqlQuery {
    type V = DcqlQueryModel;

    open spec fn deep_view(&self) -> DcqlQueryModel {
        DcqlQueryModel {
            credentials: self.credentials.deep_view(),
            credential_sets: self.credential_sets.deep_view(),
        }
    }
}

/// Transaction data type discriminator.
#[derive(Debug, PartialEq, Eq, Hash)]
pub struct TransactionDataType {
    /// Transaction data type identifier.
    pub data_type: String,
}

/// Model of [`TransactionDataType`].
pub struct TransactionDataTypeModel {
    pub data_type: Text,
}

impl DeepView for TransactionDataType {
    type V = TransactionDataTypeModel;

    open spec fn deep_view(&self) -> TransactionDataTypeModel {
        TransactionDataTypeModel {
            data_type: self.data_type.deep_view(),
        }
    }
}

impl Clone for TransactionDataType {
    fn clone(&self) -> (copy: TransactionDataType)
        ensures
            copy.deep_view() == self.deep_view(),
    {
        let copy = TransactionDataType {
            data_type: self.data_type.clone(),
        };
        copy
    }
}

/// Decoded transaction data object used for planning.
#[derive(Debug)]
pub struct TransactionData {
    /// Transaction data type identifier.
    pub data_type: String,
    /// Referenced credential query ids that can authorize this transaction.
    pub credential_ids: Vec<String>,
    /// Optional hash algorithm identifier.
    pub transaction_data_hashes_alg: Option<String>,
    /// Further members, in the order of the object.
    pub extra: Vec<(String, JsonValue)>,
}

/// Model of [`TransactionData`].
pub struct TransactionDataModel {
    pub data_type: Text,
    pub credential_ids: Seq<Text>,
    pub transaction_data_hashes_alg: Option<Text>,
    pub extra: Seq<(Text, JsonModel)>,
}

impl DeepView for TransactionData {
    type V = TransactionDataModel;

    open spec fn deep_view(&self) -> TransactionDataModel {
        TransactionDataModel {
            data_type: self.data_type.deep_view(),
            credential_ids: self.credential_ids.deep_view(),
            transaction_data_hashes_alg: self.transaction_data_hashes_alg.deep_view(),
            extra: self.extra.deep_view(),
        }
    }
}

impl Clone for TransactionData {
    fn clone(&self) -> (copy: TransactionData)
        ensures
            copy.deep_view() == self.deep_view(),
    {
        let copy = TransactionData {
            data_type: self.data_type.clone(),
            credential_ids: self.credential_ids.clone(),
            transaction_data_hashes_alg: self.transaction_data_hashes_alg.clone(),
            extra: clone_entries(&self.extra),
        };
        assert(copy.credential_ids.deep_view() =~= self.credential_ids.deep_view());
        copy
    }
}

} // verus!
