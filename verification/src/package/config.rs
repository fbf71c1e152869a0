//! Package configuration, and what it resolves to.

use crate::base64url::{decode_standard, decode_url_safe_no_pad, decoding, first_decoded};
use crate::base64url::{first_success, standard, url_safe_no_pad, Base64Error};
use crate::c8::{lemma_decimal_nul_free, lemma_nul_free_add, nul_free, C8Text};
use crate::json::{JsonModel, JsonValue};
use crate::matcher::config::OpenId4VpConfig;
use crate::matcher::store::LogLevel;
use crate::path::{clone_path, ClaimsPathPointer, PathModel};
use crate::planner::matching::result_view;
use crate::planner::options::PlanOptions;
use crate::store::{format_named, CredentialFormat};
use crate::text::{chars_of, decimal, decimal_text, Text};
use crate::ts12::metadata::{Ts12ClaimMetadata, Ts12ClaimModel, Ts12DataType, Ts12DataTypeModel};
use crate::ts12::metadata::{Ts12MetadataModel, Ts12TransactionMetadata};
use vstd::prelude::*;
use vstd::string::StringExecFns;

verus! {

broadcast use vstd::string::group_string_axioms;

/// Where transaction data of a type tells of a payment.
#[derive(Debug)]
pub struct PaymentScaTypeConfig {
    /// Transaction data type identifier.
    pub data_type: String,
    /// Path of the payee.
    pub payee: ClaimsPathPointer,
    /// Path of the amount.
    pub amount: ClaimsPathPointer,
    /// Path of further information.
    pub additional_info: Option<ClaimsPathPointer>,
}

/// Model of [`PaymentScaTypeConfig`].
pub struct PaymentScaModel {
    pub data_type: Text,
    pub payee: PathModel,
    pub amount: PathModel,
    pub additional_info: Option<PathModel>,
}

impl DeepView for PaymentScaTypeConfig {
    type V = PaymentScaModel;

    open spec fn deep_view(&self) -> PaymentScaModel {
        PaymentScaModel {
            data_type: self.data_type@,
            payee: self.payee.deep_view(),
            amount: self.amount.deep_view(),
            additional_info: self.additional_info.deep_view(),
        }
    }
}

/// How a claim of a credential is displayed.
#[derive(Debug)]
pub struct CredentialFieldConfig {
    /// Path of the claim.
    pub path: ClaimsPathPointer,
    /// Name of the claim.
    pub display_name: C8Text,
    /// What to display in place of the value of the claim.
    pub display_value: Option<C8Text>,
}

/// Model of [`CredentialFieldConfig`].
pub struct FieldConfigModel {
    pub path: PathModel,
    pub display_name: Text,
    pub display_value: Option<Text>,
}

impl DeepView for CredentialFieldConfig {
    type V = FieldConfigModel;

    open spec fn deep_view(&self) -> FieldConfigModel {
        FieldConfigModel {
            path: self.path.deep_view(),
            display_name: self.display_name@,
            display_value: self.display_value.deep_view(),
        }
    }
}

/// A claim of a transaction payload.
#[derive(Debug)]
pub struct Ts12ClaimConfig {
    /// Path of the claim (relative to `payload`).
    pub path: ClaimsPathPointer,
    /// Whether the claim has to be present.
    pub mandatory: bool,
    /// Value type of a displayed claim.
    pub value_type: Option<String>,
    /// Whether the claim is displayed.
    pub displayable: bool,
}

impl DeepView for Ts12ClaimConfig {
    type V = Ts12ClaimModel;

    open spec fn deep_view(&self) -> Ts12ClaimModel {
        Ts12ClaimModel {
            path: self.path.deep_view(),
            mandatory: self.mandatory,
            value_type: self.value_type.deep_view(),
            displayable: self.displayable,
        }
    }
}

/// The payload of transaction data of a type.
#[derive(Debug)]
pub struct Ts12MetadataConfig {
    /// Transaction data type identifier.
    pub data_type: String,
    /// Claims of the payload.
    pub claims: Vec<Ts12ClaimConfig>,
}

impl DeepView for Ts12MetadataConfig {
    type V = Ts12MetadataModel;

    open spec fn deep_view(&self) -> Ts12MetadataModel {
        Ts12MetadataModel {
            data_type: Ts12DataTypeModel { data_type: self.data_type@ },
            claims: self.claims.deep_view(),
        }
    }
}

/// The icon of a credential.
#[derive(Debug)]
pub enum IconConfig {
    /// The bytes of the icon.
    Bytes(Vec<u8>),
    /// The bytes of the icon, in base64.
    Base64(String),
}

/// Model of [`IconConfig`].
pub enum IconModel {
    Bytes(Seq<u8>),
    Base64(Text),
}

impl DeepView for IconConfig {
    type V = IconModel;

    open spec fn deep_view(&self) -> IconModel {
        match *self {
            IconConfig::Bytes(bytes) => IconModel::Bytes(bytes@),
            IconConfig::Base64(text) => IconModel::Base64(text@),
        }
    }
}

/// A credential, as a configuration lists it.
#[derive(Debug)]
pub struct CredentialConfig {
    /// Id of the credential.
    pub id: Option<C8Text>,
    /// Format identifier.
    pub format: String,
    /// Title.
    pub title: Option<C8Text>,
    /// Subtitle.
    pub subtitle: Option<C8Text>,
    /// Disclaimer.
    pub disclaimer: Option<C8Text>,
    /// Warning.
    pub warning: Option<C8Text>,
    /// How claims are displayed.
    pub fields: Vec<CredentialFieldConfig>,
    /// Metadata of the credential, a JSON document.
    pub metadata: Option<JsonValue>,
    /// Icon.
    pub icon: Option<IconConfig>,
    /// Credential types.
    pub vcts: Vec<String>,
    /// Document type.
    pub doctype: Option<String>,
    /// Whether the credential is bound to its holder. It is, unless this says otherwise.
    pub holder_binding: Option<bool>,
    /// Claims of the credential, a JSON document.
    pub claims: Option<JsonValue>,
    /// Transaction data that the credential can authorize.
    pub transaction_data_types: Vec<Ts12MetadataConfig>,
}

/// Model of [`CredentialConfig`].
pub struct CredentialConfigModel {
    pub id: Option<Text>,
    pub format: Text,
    pub title: Option<Text>,
    pub subtitle: Option<Text>,
    pub disclaimer: Option<Text>,
    pub warning: Option<Text>,
    pub fields: Seq<FieldConfigModel>,
    pub metadata: Option<JsonModel>,
    pub icon: Option<IconModel>,
    pub vcts: Seq<Text>,
    pub doctype: Option<Text>,
    pub holder_binding: Option<bool>,
    pub claims: Option<JsonModel>,
    pub transaction_data_types: Seq<Ts12MetadataModel>,
}

impl DeepView for CredentialConfig {
    type V = CredentialConfigModel;

    open spec fn deep_view(&self) -> CredentialConfigModel {
        CredentialConfigModel {
            id: self.id.deep_view(),
            format: self.format@,
            title: self.title.deep_view(),
            subtitle: self.subtitle.deep_view(),
            disclaimer: self.disclaimer.deep_view(),
            warning: self.warning.deep_view(),
            fields: self.fields.deep_view(),
            metadata: self.metadata.deep_view(),
            icon: self.icon.deep_view(),
            vcts: self.vcts.deep_view(),
            doctype: self.doctype.deep_view(),
            holder_binding: self.holder_binding,
            claims: self.claims.deep_view(),
            transaction_data_types: self.transaction_data_types.deep_view(),
        }
    }
}

/// A package configuration.
#[derive(Debug)]
pub struct PackageConfig {
    /// What the ids of credentials without one begin with, in place of their format.
    pub default_id_prefix: Option<String>,
    /// Supported OpenID4VP capabilities.
    pub openid4vp: OpenId4VpConfig,
    /// Planner configuration.
    pub dcql: PlanOptions,
    /// Where transaction data tells of payments.
    pub payment_sca: Vec<PaymentScaTypeConfig>,
    /// Logging level.
    pub log_level: Option<LogLevel>,
    /// The credentials.
    pub credentials: Vec<CredentialConfig>,
}

/// A credential of a package.
#[derive(Debug)]
pub struct ResolvedCredential {
    /// Id of the credential.
    pub id: C8Text,
    /// Format.
    pub format: CredentialFormat,
    /// Title.
    pub title: C8Text,
    /// Subtitle.
    pub subtitle: Option<C8Text>,
    /// Disclaimer.
    pub disclaimer: Option<C8Text>,
    /// Warning.
    pub warning: Option<C8Text>,
    /// How claims are displayed.
    pub fields: Vec<CredentialFieldConfig>,
    /// Metadata of the credential, a JSON document.
    pub metadata: Option<JsonValue>,
    /// Icon bytes.
    pub icon: Option<Vec<u8>>,
    /// Credential types.
    pub vcts: Vec<String>,
    /// Document type.
    pub doctype: Option<String>,
    /// Whether the credential is bound to its holder.
    pub holder_binding: bool,
    /// Claims of the credential, a JSON document.
    pub claims: JsonValue,
    /// Transaction data that the credential can authorize.
    pub ts12_metadata: Vec<Ts12TransactionMetadata>,
}

/// Model of [`ResolvedCredential`].
pub struct ResolvedModel {
    pub id: Text,
    pub format: CredentialFormat,
    pub title: Text,
    pub subtitle: Option<Text>,
    pub disclaimer: Option<Text>,
    pub warning: Option<Text>,
    pub fields: Seq<FieldConfigModel>,
    pub metadata: Option<JsonModel>,
    pub icon: Option<Seq<u8>>,
    pub vcts: Seq<Text>,
    pub doctype: Option<Text>,
    pub holder_binding: bool,
    pub claims: JsonModel,
    pub ts12_metadata: Seq<Ts12MetadataModel>,
}

impl DeepView for ResolvedCredential {
    type V = ResolvedModel;

    open spec fn deep_view(&self) -> ResolvedModel {
        ResolvedModel {
            id: self.id@,
            format: self.format,
            title: self.title@,
            subtitle: self.subtitle.deep_view(),
            disclaimer: self.disclaimer.deep_view(),
            warning: self.warning.deep_view(),
            fields: self.fields.deep_view(),
            metadata: self.metadata.deep_view(),
            icon: self.icon.deep_view(),
            vcts: self.vcts.deep_view(),
            doctype: self.doctype.deep_view(),
            holder_binding: self.holder_binding,
            claims: self.claims.deep_view(),
            ts12_metadata: self.ts12_metadata.deep_view(),
        }
    }
}

/// Whether a character is white space, as Unicode defines it.
pub open spec fn is_blank(c: char) -> bool {
    ||| '\u{9}' <= c <= '\u{d}'
    ||| c == ' '
    ||| c == '\u{85}'
    ||| c == '\u{a0}'
    ||| c == '\u{1680}'
    ||| '\u{2000}' <= c <= '\u{200a}'
    ||| '\u{2028}' <= c <= '\u{2029}'
    ||| c == '\u{202f}'
    ||| c == '\u{205f}'
    ||| c == '\u{3000}'
}

/// Whether a text holds nothing but white space.
pub open spec fn is_blank_text(text: Text) -> bool {
    forall|i: int| 0 <= i < text.len() ==> is_blank(#[trigger] text[i])
}

/// Message for a credential without a format.
pub const NO_FORMAT: &'static str = "credential format must be non-empty";

/// Message for an icon that is not base64.
pub const INVALID_ICON: &'static str = "invalid icon base64";

/// Bytes that are an icon, unless there are none.
pub open spec fn icon_bytes(bytes: Seq<u8>) -> Option<Seq<u8>> {
    if bytes.len() == 0 {
        None
    } else {
        Some(bytes)
    }
}

/// The icon that decoded text stands for.
pub open spec fn decoded_icon(bytes: Result<Seq<u8>, Base64Error>) -> Result<
    Option<Seq<u8>>,
    Text,
> {
    match bytes {
        Ok(bytes) => Ok(icon_bytes(bytes)),
        Err(_) => Err(INVALID_ICON@),
    }
}

/// The bytes of an icon: base64 text is read in the standard alphabet, and if that fails in the
/// URL-safe one without padding.
pub open spec fn resolved_icon(icon: Option<IconModel>) -> Result<Option<Seq<u8>>, Text> {
    match icon {
        None => Ok(None),
        Some(IconModel::Bytes(bytes)) => Ok(icon_bytes(bytes)),
        Some(IconModel::Base64(text)) => if text.len() == 0 {
            Ok(None)
        } else {
            decoded_icon(first_success(standard(text), url_safe_no_pad(text)))
        },
    }
}

/// What the id of a credential begins with if it has none.
pub open spec fn id_prefix(credential: CredentialConfigModel, default_prefix: Option<Text>) -> Text {
    match default_prefix {
        Some(prefix) => prefix,
        None => credential.format,
    }
}

/// The id of a credential.
pub open spec fn resolved_id(
    credential: CredentialConfigModel,
    index: nat,
    default_prefix: Option<Text>,
) -> Text {
    match credential.id {
        Some(id) => id,
        None => id_prefix(credential, default_prefix) + seq!['-'] + decimal(index),
    }
}

/// Whether a credential can have an id: one that is made up must not hold a NUL.
pub open spec fn has_usable_id(
    credential: CredentialConfigModel,
    default_prefix: Option<Text>,
) -> bool {
    credential.id is Some || nul_free(id_prefix(credential, default_prefix))
}

/// What a credential of a configuration resolves to.
pub open spec fn resolved(
    credential: CredentialConfigModel,
    index: nat,
    default_prefix: Option<Text>,
) -> Result<ResolvedModel, Text> {
    if is_blank_text(credential.format) {
        Err(NO_FORMAT@)
    } else {
        let id = resolved_id(credential, index, default_prefix);
        match resolved_icon(credential.icon) {
            Err(message) => Err(message),
            Ok(icon) => Ok(
                ResolvedModel {
                    id,
                    format: format_named(credential.format),
                    title: match credential.title {
                        Some(title) => title,
                        None => id,
                    },
                    subtitle: credential.subtitle,
                    disclaimer: credential.disclaimer,
                    warning: credential.warning,
                    fields: credential.fields,
                    metadata: credential.metadata,
                    icon,
                    vcts: credential.vcts,
                    doctype: credential.doctype,
                    holder_binding: credential.holder_binding != Some(false),
                    claims: match credential.claims {
                        Some(claims) => claims,
                        None => JsonModel::Object(Seq::empty()),
                    },
                    ts12_metadata: credential.transaction_data_types,
                },
            ),
        }
    }
}

/// The credentials of a configuration. Those that do not resolve are left out.
pub open spec fn resolved_all(
    credentials: Seq<CredentialConfigModel>,
    default_prefix: Option<Text>,
) -> Seq<ResolvedModel>
    decreases credentials.len(),
{
    if credentials.len() == 0 {
        Seq::empty()
    } else {
        let earlier = resolved_all(credentials.drop_last(), default_prefix);
        match resolved(credentials.last(), (credentials.len() - 1) as nat, default_prefix) {
            Ok(credential) => earlier.push(credential),
            Err(_) => earlier,
        }
    }
}

fn blank(c: char) -> (is: bool)
    ensures
        is == is_blank(c),
{
    ('\u{9}' <= c && c <= '\u{d}') || c == ' ' || c == '\u{85}' || c == '\u{a0}' || c == '\u{1680}'
        || ('\u{2000}' <= c && c <= '\u{200a}') || ('\u{2028}' <= c && c <= '\u{2029}') || c
        == '\u{202f}' || c == '\u{205f}' || c == '\u{3000}'
}

/// Whether `text` holds nothing but white space.
pub fn is_blank_str(text: &str) -> (is: bool)
    ensures
        is == is_blank_text(text@),
{
    let chars = chars_of(text);
    let mut i: usize = 0;
    while i < chars.len()
        invariant
            i <= chars.len(),
            chars@ == text@,
            forall|j: int| 0 <= j < i ==> is_blank(#[trigger] chars@[j]),
        decreases chars.len() - i,
    {
        if !blank(chars[i]) {
            assert(!is_blank(text@[i as int]));
            return false;
        }
        i = i + 1;
    }
    true
}

/// The result of decoding an icon.
pub open spec fn icon_view(icon: Result<Option<Vec<u8>>, String>) -> Result<
    Option<Seq<u8>>,
    Text,
> {
    match icon {
        Ok(Some(bytes)) => Ok(Some(bytes@)),
        Ok(None) => Ok(None),
        Err(message) => Err(message@),
    }
}

/// The icon that decoded text stands for.
pub fn icon_from_decoding(
    bytes: Result<Vec<u8>, Base64Error>,
) -> (icon: Result<Option<Vec<u8>>, String>)
    ensures
        icon_view(icon) == decoded_icon(decoding(bytes)),
{
    match bytes {
        Ok(bytes) => if bytes.is_empty() {
            Ok(None)
        } else {
            Ok(Some(bytes))
        },
        Err(_) => Err(INVALID_ICON.to_owned()),
    }
}

/// The bytes of an icon.
pub fn decode_icon(icon: Option<IconConfig>) -> (bytes: Result<Option<Vec<u8>>, String>)
    ensures
        icon_view(bytes) == resolved_icon(icon.deep_view()),
{
    match icon {
        None => Ok(None),
        Some(IconConfig::Bytes(bytes)) => if bytes.is_empty() {
            Ok(None)
        } else {
            Ok(Some(bytes))
        },
        Some(IconConfig::Base64(text)) => {
            if text.as_str().is_empty() {
                return Ok(None);
            }
            let first = decode_standard(text.as_str());
            let second = decode_url_safe_no_pad(text.as_str());
            icon_from_decoding(first_decoded(first, second))
        },
    }
}

/// Takes a description of a transaction payload as metadata.
pub fn resolve_ts12_metadata(config: &Ts12MetadataConfig) -> (metadata: Ts12TransactionMetadata)
    ensures
        metadata.deep_view() == config.deep_view(),
{
    let mut claims: Vec<Ts12ClaimMetadata> = Vec::new();
    let mut i: usize = 0;
    while i < config.claims.len()
        invariant
            i <= config.claims.len(),
            claims.len() == i,
            forall|k: int|
                0 <= k < i ==> (#[trigger] claims@[k]).deep_view() == config.claims@[k].deep_view(),
        decreases config.claims.len() - i,
    {
        let claim = &config.claims[i];
        claims.push(
            Ts12ClaimMetadata {
                path: clone_path(&claim.path),
                mandatory: claim.mandatory,
                value_type: claim.value_type.clone(),
                displayable: claim.displayable,
            },
        );
        i = i + 1;
    }
    assert(claims.deep_view() =~= config.claims.deep_view());
    Ts12TransactionMetadata {
        data_type: Ts12DataType { data_type: config.data_type.clone() },
        claims,
    }
}

/// Makes up an id.
fn made_up_id(prefix: &str, index: usize) -> (id: C8Text)
    requires
        nul_free(prefix@),
    ensures
        id@ == prefix@ + seq!['-'] + decimal(index as nat),
{
    let mut id = prefix.to_owned();
    id.push('-');
    id.append(decimal_text(index as u64).as_str());
    proof {
        assert(id@ =~= prefix@ + seq!['-'] + decimal(index as nat));
        lemma_decimal_nul_free(index as nat);
        lemma_nul_free_add(prefix@, seq!['-']);
        lemma_nul_free_add(prefix@ + seq!['-'], decimal(index as nat));
    }
    C8Text::of(id.as_str())
}

/// Resolves the descriptions of transaction payloads.
fn resolve_all_ts12_metadata(
    configs: &Vec<Ts12MetadataConfig>,
) -> (metadata: Vec<Ts12TransactionMetadata>)
    ensures
        metadata.deep_view() == configs.deep_view(),
{
    let mut metadata: Vec<Ts12TransactionMetadata> = Vec::new();
    let mut i: usize = 0;
    while i < configs.len()
        invariant
            i <= configs.len(),
            metadata.len() == i,
            forall|k: int|
                0 <= k < i ==> (#[trigger] metadata@[k]).deep_view() == configs@[k].deep_view(),
        decreases configs.len() - i,
    {
        metadata.push(resolve_ts12_metadata(&configs[i]));
        i = i + 1;
    }
    assert(metadata.deep_view() =~= configs.deep_view());
    metadata
}

/// Resolves the credential at `index` of a configuration.
pub fn resolve_credential(
    credential: CredentialConfig,
    index: usize,
    default_id_prefix: &Option<String>,
) -> (result: Result<ResolvedCredential, String>)
    requires
        !is_blank_text(credential.deep_view().format) ==> has_usable_id(
            credential.deep_view(),
            default_id_prefix.deep_view(),
        ),
    ensures
        result_view(result) == resolved(
            credential.deep_view(),
            index as nat,
            default_id_prefix.deep_view(),
        ),
{
    if is_blank_str(credential.format.as_str()) {
        return Err(NO_FORMAT.to_owned());
    }
    let id = match credential.id {
        Some(id) => id,
        None => {
            let prefix = match default_id_prefix {
                Some(prefix) => prefix.as_str(),
                None => credential.format.as_str(),
            };
            made_up_id(prefix, index)
        },
    };
    let format = CredentialFormat::from_name(credential.format.as_str());
    let title = match credential.title {
        Some(title) => title,
        None => id.clone(),
    };
    let claims = match credential.claims {
        Some(claims) => claims,
        None => {
            let empty: Vec<(String, JsonValue)> = Vec::new();
            assert(crate::json::entry_models(empty@) =~= Seq::<(Text, JsonModel)>::empty());
            JsonValue::Object(empty)
        },
    };
    let icon = match decode_icon(credential.icon) {
        Ok(icon) => icon,
        Err(message) => return Err(message),
    };
    proof {
        if icon is Some {
            assert(icon->0.deep_view() =~= icon->0@);
        }
    }
    let holder_binding = match credential.holder_binding {
        Some(bound) => bound,
        None => true,
    };
    let ts12_metadata = resolve_all_ts12_metadata(&credential.transaction_data_types);
    Ok(
        ResolvedCredential {
            id,
            format,
            title,
            subtitle: credential.subtitle,
            disclaimer: credential.disclaimer,
            warning: credential.warning,
            fields: credential.fields,
            metadata: credential.metadata,
            icon,
            vcts: credential.vcts,
            doctype: credential.doctype,
            holder_binding,
            claims,
            ts12_metadata,
        },
    )
}

} // verus!
