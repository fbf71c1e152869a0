//! The contract between the planner and a credential store.

use crate::models::{ClaimValue, ClaimValueModel, TransactionData, TransactionDataModel};
use crate::models::{TrustedAuthority, TrustedAuthorityModel};
use crate::path::{ClaimsPathPointer, PathModel};
use crate::text::{same_text, Text};
use vstd::prelude::*;

verus! {

/// Credential formats that a query can ask for.
#[derive(Debug, Clone, Copy, PartialEq, Eq, Structural)]
pub enum CredentialFormat {
    /// ISO mdoc.
    MsoMdoc,
    /// SD-JWT VC.
    DcSdJwt,
    /// Any other format.
    Unknown,
}

/// The format that a format identifier names.
pub open spec fn format_named(name: Text) -> CredentialFormat {
    if name == "mso_mdoc"@ {
        CredentialFormat::MsoMdoc
    } else if name == "dc+sd-jwt"@ {
        CredentialFormat::DcSdJwt
    } else {
        CredentialFormat::Unknown
    }
}

impl CredentialFormat {
    /// Reads a format identifier.
    pub fn from_name(name: &str) -> (format: CredentialFormat)
        ensures
            format == format_named(name@),
    {
        if same_text(name, "mso_mdoc") {
            CredentialFormat::MsoMdoc
        } else if same_text(name, "dc+sd-jwt") {
            CredentialFormat::DcSdJwt
        } else {
            CredentialFormat::Unknown
        }
    }
}

/// Outcome of comparing a claim with the values that a query accepts.
#[derive(Debug, Clone, Copy, PartialEq, Eq, Structural)]
pub enum ValueMatch {
    /// One of the accepted values is present.
    Match,
    /// None of the accepted values is present.
    NoMatch,
}

/// Whether a type of credential references keeps what `Clone` and `Eq` are for: a clone stands
/// for the same credential, and `==` tells whether two references do.
pub open spec fn lawful_refs<C: DeepView + Clone + PartialEq>() -> bool {
    &&& forall|a: C, b: C| #[trigger]
        call_ensures(C::clone, (&a,), b) ==> a.deep_view() == b.deep_view()
    &&& forall|a: C, b: C, equal: bool| #[trigger]
        call_ensures(C::eq, (&a, &b), equal) ==> equal == (a.deep_view() == b.deep_view())
}

/// What a credential reference stands for.
pub type RefModel<S> = <<S as CredentialStore>::CredentialRef as DeepView>::V;

/// Access to the credentials of a wallet.
///
/// A store is read only while a request is matched: every answer depends on nothing but the store
/// and the question, and the specification functions name these answers. An implementation that
/// leaves a specification function out says nothing of that answer.
pub trait CredentialStore: Sized {
    /// Cheap handle to one credential.
    type CredentialRef: DeepView + Clone + Eq;

    /// The answer of [`CredentialStore::list_credentials`].
    closed spec fn listed(&self, format: Option<CredentialFormat>) -> Seq<RefModel<Self>> {
        arbitrary()
    }

    /// The answer of [`CredentialStore::format`].
    closed spec fn format_of(&self, cred: RefModel<Self>) -> CredentialFormat {
        arbitrary()
    }

    /// The answer of [`CredentialStore::has_vct`].
    closed spec fn is_vct(&self, cred: RefModel<Self>, vct: Text) -> bool {
        arbitrary()
    }

    /// The answer of [`CredentialStore::supports_holder_binding`].
    closed spec fn is_holder_bound(&self, cred: RefModel<Self>) -> bool {
        arbitrary()
    }

    /// The answer of [`CredentialStore::has_doctype`].
    closed spec fn is_doctype(&self, cred: RefModel<Self>, doctype: Text) -> bool {
        arbitrary()
    }

    /// The answer of [`CredentialStore::can_sign_transaction_data`].
    closed spec fn can_sign(&self, cred: RefModel<Self>, data: TransactionDataModel) -> bool {
        arbitrary()
    }

    /// The answer of [`CredentialStore::has_claim_path`].
    closed spec fn has_path(&self, cred: RefModel<Self>, path: PathModel) -> bool {
        arbitrary()
    }

    /// The answer of [`CredentialStore::match_claim_value`].
    closed spec fn value_match(
        &self,
        cred: RefModel<Self>,
        path: PathModel,
        expected: Seq<ClaimValueModel>,
    ) -> ValueMatch {
        arbitrary()
    }

    /// The answer of [`CredentialStore::matches_trusted_authorities`].
    closed spec fn is_trusted(
        &self,
        cred: RefModel<Self>,
        authorities: Seq<TrustedAuthorityModel>,
    ) -> bool {
        arbitrary()
    }

    /// The credentials of one format, or all of them.
    fn list_credentials(&self, format: Option<CredentialFormat>) -> (refs: Vec<Self::CredentialRef>)
        ensures
            refs.deep_view() == self.listed(format),
    ;

    /// The format of a credential.
    fn format(&self, cred: &Self::CredentialRef) -> (format: CredentialFormat)
        ensures
            format == self.format_of(cred.deep_view()),
    ;

    /// Whether a credential is of the credential type `vct`.
    fn has_vct(&self, cred: &Self::CredentialRef, vct: &str) -> (has: bool)
        ensures
            has == self.is_vct(cred.deep_view(), vct@),
    ;

    /// Whether a credential supports cryptographic holder binding.
    fn supports_holder_binding(&self, cred: &Self::CredentialRef) -> (supports: bool)
        ensures
            supports == self.is_holder_bound(cred.deep_view()),
    ;

    /// Whether a credential is of the document type `doctype`.
    fn has_doctype(&self, cred: &Self::CredentialRef, doctype: &str) -> (has: bool)
        ensures
            has == self.is_doctype(cred.deep_view(), doctype@),
    ;

    /// Whether a credential can authorize a transaction.
    fn can_sign_transaction_data(
        &self,
        cred: &Self::CredentialRef,
        transaction_data: &TransactionData,
    ) -> (can: bool)
        ensures
            can == self.can_sign(cred.deep_view(), transaction_data.deep_view()),
    ;

    /// Whether a credential holds a claim at `path`.
    fn has_claim_path(&self, cred: &Self::CredentialRef, path: &ClaimsPathPointer) -> (has: bool)
        ensures
            has == self.has_path(cred.deep_view(), path.deep_view()),
    ;

    /// Compares the claim at `path` with the accepted values.
    fn match_claim_value(
        &self,
        cred: &Self::CredentialRef,
        path: &ClaimsPathPointer,
        expected_values: &[ClaimValue],
    ) -> (outcome: ValueMatch)
        ensures
            outcome == self.value_match(
                cred.deep_view(),
                path.deep_view(),
                expected_values.deep_view(),
            ),
    ;

    /// Whether a credential meets trusted authority constraints.
    fn matches_trusted_authorities(
        &self,
        cred: &Self::CredentialRef,
        trusted_authorities: &[TrustedAuthority],
    ) -> (matches: bool)
        ensures
            matches == self.is_trusted(cred.deep_view(), trusted_authorities.deep_view()),
    ;
}

} // verus!
