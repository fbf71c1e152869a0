//! What holds of the credentials of a package.

use crate::base64url::{standard, url_safe_no_pad};
use crate::json::{member, JsonModel, NumberModel};
use crate::laws::documents::lemma_numbers_as_integers;
use crate::laws::listings::{ascends, lemma_filtering_keeps_the_order};
use crate::matcher::request::EnvelopeModel;
use crate::matcher::store::MatcherStore;
use crate::models::{ClaimValueModel, TransactionDataModel, TrustedAuthorityModel};
use crate::package::config::{has_usable_id, is_blank, is_blank_text, resolved, resolved_all};
use crate::package::config::{resolved_icon, CredentialConfig, CredentialConfigModel, IconModel};
use crate::package::config::{PackageConfig, ResolvedCredential, ResolvedModel};
use crate::package::store::{any_expected, is_expected, metadata_of, PackageStore};
use crate::path::{selected, PathModel};
use crate::seqs::{first_where, indices_where, lemma_first_where, lemma_push_contains};
use crate::store::{format_named, CredentialFormat, CredentialStore, ValueMatch};
use crate::text::{decimal, Text};
use crate::ts12::metadata::{compatible, Ts12MetadataModel};
use vstd::prelude::*;

verus! {

/// A format identifier names a format exactly where it is the identifier of that format.
pub proof fn lemma_format_identifiers(name: Text)
    ensures
        format_named(name) == CredentialFormat::MsoMdoc <==> name == "mso_mdoc"@,
        format_named(name) == CredentialFormat::DcSdJwt <==> name == "dc+sd-jwt"@,
        format_named(name) == CredentialFormat::Unknown <==> name != "mso_mdoc"@ && name
            != "dc+sd-jwt"@,
{
    reveal_strlit("mso_mdoc");
    reveal_strlit("dc+sd-jwt");
    assert("mso_mdoc"@.len() == 8 && "dc+sd-jwt"@.len() == 9);
}

/// A text with a visible ASCII character is not blank. A text of blanks, tabs and line ends is.
pub proof fn lemma_blank_text(text: Text)
    ensures
        (exists|i: int| 0 <= i < text.len() && '!' <= #[trigger] text[i] <= '~') ==> !is_blank_text(
            text,
        ),
        (forall|i: int|
            0 <= i < text.len() ==> #[trigger] text[i] == ' ' || text[i] == '\t' || text[i] == '\n'
                || text[i] == '\r') ==> is_blank_text(text),
{
    if exists|i: int| 0 <= i < text.len() && '!' <= #[trigger] text[i] <= '~' {
        let i = choose|i: int| 0 <= i < text.len() && '!' <= #[trigger] text[i] <= '~';
        assert(!is_blank(text[i]));
    }
    if forall|i: int|
        0 <= i < text.len() ==> #[trigger] text[i] == ' ' || text[i] == '\t' || text[i] == '\n'
            || text[i] == '\r' {
        assert forall|i: int| 0 <= i < text.len() implies is_blank(#[trigger] text[i]) by {
            let c = text[i];
        }
    }
}

/// Whether these are the bytes that were read, or none where none were.
pub open spec fn are_bytes(own: Seq<u8>, bytes: Option<Seq<u8>>) -> bool {
    match bytes {
        Some(bytes) => bytes == own && own.len() > 0,
        None => own.len() == 0,
    }
}

/// Whether these are the bytes of an icon. No bytes are no icon. Text that is not empty is read in
/// the standard alphabet, and in the URL-safe one without padding only where that fails.
pub open spec fn is_icon(icon: Option<IconModel>, bytes: Option<Seq<u8>>) -> bool {
    match icon {
        None => bytes is None,
        Some(IconModel::Bytes(own)) => are_bytes(own, bytes),
        Some(IconModel::Base64(text)) => if text.len() == 0 {
            bytes is None
        } else {
            match (standard(text), url_safe_no_pad(text)) {
                (Ok(own), _) => are_bytes(own, bytes),
                (Err(_), Ok(own)) => are_bytes(own, bytes),
                _ => false,
            }
        },
    }
}

/// Whether an icon cannot be read: it is text that is not empty, and base64 in neither alphabet.
pub open spec fn is_unreadable(icon: Option<IconModel>) -> bool {
    icon matches Some(IconModel::Base64(text)) && text.len() > 0 && standard(text) is Err
        && url_safe_no_pad(text) is Err
}

/// An icon is read unless it is unreadable, and what is read are its bytes.
pub proof fn lemma_icons_are_read(icon: Option<IconModel>)
    ensures
        resolved_icon(icon) is Err <==> is_unreadable(icon),
        resolved_icon(icon) matches Ok(bytes) ==> is_icon(icon, bytes),
{
}

/// Whether a resolved credential is what its configuration says: every member that is shown or
/// asked for is the member of the same name. A credential without an id has one that is made of the
/// prefix, or its format, and its index. One without a title has its id for a title. It is bound to
/// its holder unless the configuration says that it is not, and has no claims where none are given.
pub open spec fn repeats(
    credential: CredentialConfig,
    index: nat,
    prefix: Option<Text>,
    found: ResolvedCredential,
) -> bool {
    &&& match credential.id {
        Some(id) => found.id@ == id@,
        None => found.id@ == match prefix {
            Some(prefix) => prefix,
            None => credential.format@,
        } + "-"@ + decimal(index),
    }
    &&& match credential.title {
        Some(title) => found.title@ == title@,
        None => found.title@ == found.id@,
    }
    &&& match credential.subtitle {
        Some(text) => found.subtitle matches Some(own) && own@ == text@,
        None => found.subtitle is None,
    }
    &&& match credential.disclaimer {
        Some(text) => found.disclaimer matches Some(own) && own@ == text@,
        None => found.disclaimer is None,
    }
    &&& match credential.warning {
        Some(text) => found.warning matches Some(own) && own@ == text@,
        None => found.warning is None,
    }
    &&& match credential.doctype {
        Some(text) => found.doctype matches Some(own) && own@ == text@,
        None => found.doctype is None,
    }
    &&& match credential.metadata {
        Some(document) => found.metadata matches Some(own) && own.deep_view()
            == document.deep_view(),
        None => found.metadata is None,
    }
    &&& match credential.claims {
        Some(document) => found.claims.deep_view() == document.deep_view(),
        None => found.claims.deep_view() matches JsonModel::Object(entries) && entries.len() == 0,
    }
    &&& found.vcts.len() == credential.vcts.len()
    &&& forall|j: int|
        0 <= j < credential.vcts.len() ==> (#[trigger] found.vcts@[j])@ == credential.vcts@[j]@
    &&& found.fields.len() == credential.fields.len()
    &&& forall|j: int|
        0 <= j < credential.fields.len() ==> {
            &&& (#[trigger] found.fields@[j]).path.deep_view()
                == credential.fields@[j].path.deep_view()
            &&& found.fields@[j].display_name@ == credential.fields@[j].display_name@
            &&& found.fields@[j].display_value.deep_view()
                == credential.fields@[j].display_value.deep_view()
        }
    &&& found.ts12_metadata.len() == credential.transaction_data_types.len()
    &&& forall|j: int|
        0 <= j < credential.transaction_data_types.len() ==> (#[trigger] found.ts12_metadata@[
            j
        ]).data_type.data_type@ == credential.transaction_data_types@[j].data_type@
            && found.ts12_metadata@[j].claims.len()
            == credential.transaction_data_types@[j].claims.len()
    &&& forall|j: int, k: int|
        0 <= j < credential.transaction_data_types.len() && 0 <= k
            < credential.transaction_data_types@[j].claims.len() ==> {
            let claim = credential.transaction_data_types@[j].claims@[k];
            let own = #[trigger] found.ts12_metadata@[j].claims@[k];
            &&& own.path.deep_view() == claim.path.deep_view()
            &&& own.mandatory == claim.mandatory
            &&& own.displayable == claim.displayable
            &&& own.value_type.deep_view() == claim.value_type.deep_view()
        }
    &&& found.holder_binding == !(credential.holder_binding == Some(false))
    &&& found.format == if credential.format@ == "mso_mdoc"@ {
        CredentialFormat::MsoMdoc
    } else if credential.format@ == "dc+sd-jwt"@ {
        CredentialFormat::DcSdJwt
    } else {
        CredentialFormat::Unknown
    }
    &&& is_icon(
        credential.icon.deep_view(),
        match found.icon {
            Some(bytes) => Some(bytes@),
            None => None,
        },
    )
}

/// A credential of a configuration resolves unless its format is blank or its icon cannot be read,
/// and what it resolves to is what the configuration says.
pub proof fn lemma_resolved_credentials_repeat_their_configuration(
    credential: CredentialConfig,
    index: nat,
    prefix: Option<Text>,
    found: ResolvedCredential,
)
    ensures
        resolved(credential.deep_view(), index, prefix) is Err <==> is_blank_text(credential.format@)
            || is_unreadable(credential.icon.deep_view()),
        resolved(credential.deep_view(), index, prefix) == Ok::<ResolvedModel, Text>(
            found.deep_view(),
        ) ==> repeats(credential, index, prefix, found),
{
    let model = credential.deep_view();
    lemma_icons_are_read(model.icon);
    if resolved(model, index, prefix) == Ok::<ResolvedModel, Text>(found.deep_view()) {
        reveal_strlit("-");
        assert("-"@ =~= seq!['-']);
        let own = found.deep_view();
        assert(own.vcts == model.vcts);
        assert(own.vcts.len() == found.vcts.len() && model.vcts.len() == credential.vcts.len());
        assert forall|j: int| 0 <= j < credential.vcts.len() implies (#[trigger] found.vcts@[j])@
            == credential.vcts@[j]@ by {
            assert(own.vcts[j] == model.vcts[j]);
        }
        assert(own.fields.len() == model.fields.len());
        assert forall|j: int| 0 <= j < credential.fields.len() implies (
        #[trigger] found.fields@[j]).path.deep_view() == credential.fields@[j].path.deep_view()
            && found.fields@[j].display_name@ == credential.fields@[j].display_name@
            && found.fields@[j].display_value.deep_view()
            == credential.fields@[j].display_value.deep_view() by {
            assert(own.fields[j] == model.fields[j]);
        }
        assert(own.ts12_metadata.len() == model.transaction_data_types.len());
        assert forall|j: int| 0 <= j < credential.transaction_data_types.len() implies (
        #[trigger] found.ts12_metadata@[j]).data_type.data_type@
            == credential.transaction_data_types@[j].data_type@ && found.ts12_metadata@[
            j
        ].claims.len() == credential.transaction_data_types@[j].claims.len() by {
            assert(own.ts12_metadata[j] == model.transaction_data_types[j]);
            assert(own.ts12_metadata[j].claims.len() == found.ts12_metadata@[j].claims.len());
            assert(model.transaction_data_types[j].claims.len()
                == credential.transaction_data_types@[j].claims.len());
        }
        assert forall|j: int, k: int|
            0 <= j < credential.transaction_data_types.len() && 0 <= k
                < credential.transaction_data_types@[j].claims.len() implies ({
            let claim = credential.transaction_data_types@[j].claims@[k];
            let own = #[trigger] found.ts12_metadata@[j].claims@[k];
            &&& own.path.deep_view() == claim.path.deep_view()
            &&& own.mandatory == claim.mandatory
            &&& own.displayable == claim.displayable
            &&& own.value_type.deep_view() == claim.value_type.deep_view()
        }) by {
            assert(own.ts12_metadata[j] == model.transaction_data_types[j]);
            assert(own.ts12_metadata[j].claims[k] == model.transaction_data_types[j].claims[k]);
        }
        if found.icon is Some {
            assert(found.icon->0.deep_view() =~= found.icon->0@);
        }
    }
}

/// The credentials of a package are those of its configuration that resolve, in order: each repeats
/// the credential of the configuration that it comes from, and none is left out but those with a
/// blank format or an icon that cannot be read.
pub proof fn lemma_packages_hold_their_credentials(config: PackageConfig, store: PackageStore) -> (
    at: Seq<int>)
    requires
        store.credentials.deep_view() == resolved_all(
            config.credentials.deep_view(),
            config.prefix(),
        ),
    ensures
        at.len() == store.credentials.len(),
        ascends(at, config.credentials@.len()),
        forall|k: int|
            0 <= k < at.len() ==> repeats(
                config.credentials@[#[trigger] at[k]],
                at[k] as nat,
                config.default_id_prefix.deep_view(),
                store.credentials@[k],
            ),
        forall|i: int|
            0 <= i < config.credentials.len() ==> (#[trigger] at.contains(i) <==> !is_blank_text(
                config.credentials@[i].format@,
            ) && !is_unreadable(config.credentials@[i].icon.deep_view())),
{
    let models = config.credentials.deep_view();
    let prefix = config.prefix();
    let all = resolved_all(models, prefix);
    let at = lemma_resolved_positions(models, prefix);
    assert(all.len() == store.credentials.deep_view().len());
    assert forall|k: int| 0 <= k < at.len() implies repeats(
        config.credentials@[#[trigger] at[k]],
        at[k] as nat,
        config.default_id_prefix.deep_view(),
        store.credentials@[k],
    ) by {
        assert(all[k] == store.credentials.deep_view()[k]);
        assert(models[at[k]] == config.credentials@[at[k]].deep_view());
        lemma_resolved_credentials_repeat_their_configuration(
            config.credentials@[at[k]],
            at[k] as nat,
            prefix,
            store.credentials@[k],
        );
    }
    assert forall|i: int| 0 <= i < config.credentials.len() implies (#[trigger] at.contains(i)
        <==> !is_blank_text(config.credentials@[i].format@) && !is_unreadable(
        config.credentials@[i].icon.deep_view(),
    )) by {
        assert(models[i] == config.credentials@[i].deep_view());
        lemma_resolved_credentials_repeat_their_configuration(
            config.credentials@[i],
            i as nat,
            prefix,
            arbitrary(),
        );
    }
    at
}

proof fn lemma_resolved_positions(
    models: Seq<CredentialConfigModel>,
    prefix: Option<Text>,
) -> (at: Seq<int>)
    ensures
        at.len() == resolved_all(models, prefix).len(),
        ascends(at, models.len()),
        forall|k: int|
            0 <= k < at.len() ==> resolved(models[#[trigger] at[k]], at[k] as nat, prefix) == Ok::<
                ResolvedModel,
                Text,
            >(resolved_all(models, prefix)[k]),
        forall|i: int|
            0 <= i < models.len() ==> (#[trigger] at.contains(i) <==> resolved(
                models[i],
                i as nat,
                prefix,
            ) is Ok),
    decreases models.len(),
{
    if models.len() == 0 {
        Seq::empty()
    } else {
        let rest = models.drop_last();
        let n = models.len() - 1;
        let before = lemma_resolved_positions(rest, prefix);
        let at = if resolved(models[n], n as nat, prefix) is Ok {
            before.push(n)
        } else {
            before
        };
        assert forall|k: int| 0 <= k < at.len() implies resolved(
            models[#[trigger] at[k]],
            at[k] as nat,
            prefix,
        ) == Ok::<ResolvedModel, Text>(resolved_all(models, prefix)[k]) by {
            if k < before.len() {
                assert(before[k] == at[k]);
                assert(rest[before[k]] == models[at[k]]);
            }
        }
        assert forall|i: int| 0 <= i < models.len() implies (#[trigger] at.contains(i)
            <==> resolved(models[i], i as nat, prefix) is Ok) by {
            lemma_push_contains(before, n, i);
            if i < n {
                assert(rest[i] == models[i]);
                assert(before.contains(i) <==> resolved(rest[i], i as nat, prefix) is Ok);
            } else if before.contains(i) {
                let k = choose|k: int| 0 <= k < before.len() && before[k] == i;
                assert(0 <= before[k] < rest.len());
            }
        }
        at
    }
}

/// A credential of a package is of every credential type that is listed for it, and of no other.
pub proof fn lemma_every_listed_type_counts(store: PackageStore, position: usize, vct: Text)
    ensures
        position < store.credentials.len() ==> forall|j: int|
            0 <= j < store.credentials@[position as int].vcts.len() ==> store.is_vct(
                position,
                (#[trigger] store.credentials@[position as int].vcts@[j])@,
            ),
        store.is_vct(position, vct) ==> position < store.credentials.len() && exists|j: int|
            0 <= j < store.credentials@[position as int].vcts.len() && (
            #[trigger] store.credentials@[position as int].vcts@[j])@ == vct,
{
    if position < store.credentials.len() {
        let own = store.credentials@[position as int];
        let vcts = own.deep_view().vcts;
        assert(store.at(position) == Some(own.deep_view()));
        assert forall|j: int| 0 <= j < own.vcts.len() implies store.is_vct(
            position,
            (#[trigger] own.vcts@[j])@,
        ) by {
            assert(vcts[j] == own.vcts@[j]@);
        }
        if store.is_vct(position, vct) {
            let j = choose|j: int| 0 <= j < vcts.len() && vcts[j] == vct;
            assert(own.vcts@[j]@ == vct);
        }
    }
}

/// A credential of a package is of the document type and the format that its entry says, and bound
/// to its holder where its entry says so. There are no other credentials, and no authority is
/// known.
pub proof fn lemma_types_of_credentials(
    store: PackageStore,
    position: usize,
    doctype: Text,
    authorities: Seq<TrustedAuthorityModel>,
)
    ensures
        position < store.credentials.len() ==> {
            let own = store.credentials@[position as int];
            &&& store.is_doctype(position, doctype) <==> (own.doctype matches Some(text) && text@
                == doctype)
            &&& store.is_holder_bound(position) == own.holder_binding
            &&& store.format_of(position) == own.format
        },
        position >= store.credentials.len() ==> !store.is_doctype(position, doctype)
            && !store.is_holder_bound(position) && store.format_of(position)
            == CredentialFormat::Unknown,
        !store.is_trusted(position, authorities),
{
}

/// A package lists the positions of its credentials in order: all of them where no format is asked
/// for, and else those of credentials of that format.
pub proof fn lemma_listings_are_complete(store: PackageStore, format: Option<CredentialFormat>) -> (
    at: Seq<int>)
    requires
        store.credentials.len() <= usize::MAX,
    ensures
        at.len() == store.listed(format).len(),
        ascends(at, store.credentials@.len()),
        forall|k: int| 0 <= k < at.len() ==> #[trigger] store.listed(format)[k] as int == at[k],
        forall|i: int|
            0 <= i < store.credentials.len() ==> (#[trigger] at.contains(i) <==> match format {
                Some(format) => store.credentials@[i].format == format,
                None => true,
            }),
{
    let bound = store.credentials@.len();
    let all = Seq::new(bound, |i: int| i);
    let wanted = store.in_format(format);
    let found = indices_where(bound, wanted);
    let at = lemma_filtering_keeps_the_order(all, wanted);
    assert(found == all.filter(wanted));
    assert forall|k: int| 0 <= k < at.len() implies #[trigger] store.listed(format)[k] as int
        == at[k] by {
        assert(found[k] == all[at[k]]);
    }
    assert forall|i: int| 0 <= i < store.credentials.len() implies (#[trigger] at.contains(i)
        <==> match format {
        Some(format) => store.credentials@[i].format == format,
        None => true,
    }) by {
        assert(at.contains(i) <==> wanted(all[i]));
    }
    at
}

/// Whether a value is the one that a query expects: the same text, the same integer or the same
/// truth value.
pub open spec fn is_same_value(node: JsonModel, expected: ClaimValueModel) -> bool {
    match expected {
        ClaimValueModel::String(text) => node == JsonModel::String(text),
        ClaimValueModel::Integer(value) => match node {
            JsonModel::Number(NumberModel::PosInt(own)) => own as int == value as int,
            JsonModel::Number(NumberModel::NegInt(own)) => own as int == value as int,
            _ => false,
        },
        ClaimValueModel::Boolean(flag) => node == JsonModel::Bool(flag),
    }
}

/// A credential of a package has a claim exactly where the path of the claim leads somewhere in its
/// claims, and the claim matches exactly where one of the values there is one that is expected.
pub proof fn lemma_claims_of_credentials(
    store: PackageStore,
    position: usize,
    path: PathModel,
    expected: Seq<ClaimValueModel>,
)
    ensures
        store.has_path(position, path) <==> position < store.credentials.len() && selected(
            store.credentials@[position as int].claims.deep_view(),
            path,
        ) is Ok,
        store.value_match(position, path, expected) == ValueMatch::Match <==> position
            < store.credentials.len() && (selected(
            store.credentials@[position as int].claims.deep_view(),
            path,
        ) matches Ok(nodes) && exists|i: int, j: int|
            0 <= i < nodes.len() && 0 <= j < expected.len() && is_same_value(
                #[trigger] nodes[i],
                #[trigger] expected[j],
            )),
{
    if position < store.credentials.len() {
        let document = store.credentials@[position as int].claims.deep_view();
        if let Ok(nodes) = selected(document, path) {
            assert forall|i: int, j: int|
                0 <= i < nodes.len() && 0 <= j < expected.len() implies (is_same_value(
                #[trigger] nodes[i],
                #[trigger] expected[j],
            ) <==> is_expected(nodes[i], expected[j])) by {
                let node = nodes[i];
                if let JsonModel::Number(number) = node {
                    if let ClaimValueModel::Integer(value) = expected[j] {
                        lemma_numbers_as_integers(number, value);
                    }
                }
            }
            if any_expected(nodes, expected) {
                let (i, j) = choose|i: int, j: int|
                    0 <= i < nodes.len() && 0 <= j < expected.len() && #[trigger] is_expected(
                        nodes[i],
                        expected[j],
                    );
                assert(is_same_value(nodes[i], expected[j]));
            }
            if exists|i: int, j: int|
                0 <= i < nodes.len() && 0 <= j < expected.len() && is_same_value(
                    #[trigger] nodes[i],
                    #[trigger] expected[j],
                ) {
                let (i, j) = choose|i: int, j: int|
                    0 <= i < nodes.len() && 0 <= j < expected.len() && is_same_value(
                        #[trigger] nodes[i],
                        #[trigger] expected[j],
                    );
                assert(is_expected(nodes[i], expected[j]));
            }
        }
    }
}

/// Whether an entry is the first of these that describes transaction data of this type.
pub open spec fn is_first_of_type(
    all: Seq<Ts12MetadataModel>,
    m: int,
    data_type: Text,
) -> bool {
    &&& 0 <= m < all.len()
    &&& all[m].data_type.data_type == data_type
    &&& forall|j: int| 0 <= j < m ==> (#[trigger] all[j]).data_type.data_type != data_type
}

/// A credential of a package can authorize transaction data exactly where it has metadata for the
/// type of the data and the data has a payload that fits the first such metadata.
pub proof fn lemma_transactions_of_credentials(
    store: PackageStore,
    position: usize,
    data: TransactionDataModel,
)
    ensures
        store.can_sign(position, data) <==> position < store.credentials.len() && (
        member(data.extra, "payload"@) matches Some(payload) && exists|m: int|
            #[trigger] is_first_of_type(
                store.credentials@[position as int].ts12_metadata.deep_view(),
                m,
                data.data_type,
            ) && compatible(
                store.credentials@[position as int].ts12_metadata.deep_view()[m],
                payload,
            )),
        store.ts12_metadata_of(position, data) matches Some(metadata) ==> position
            < store.credentials.len() && exists|m: int| #[trigger]
            is_first_of_type(
                store.credentials@[position as int].ts12_metadata.deep_view(),
                m,
                data.data_type,
            ) && metadata == store.credentials@[position as int].ts12_metadata.deep_view()[m],
        position < store.credentials.len() && store.ts12_metadata_of(position, data) is None
            ==> forall|j: int|
            0 <= j < store.credentials@[position as int].ts12_metadata.len() ==> (
            #[trigger] store.credentials@[position as int].ts12_metadata@[
                j
            ]).data_type.data_type@ != data.data_type,
{
    if position < store.credentials.len() {
        let own = store.credentials@[position as int];
        let all = own.ts12_metadata.deep_view();
        let wanted = metadata_of(data.data_type);
        assert(store.at(position) == Some(own.deep_view()));
        lemma_first_where(all, wanted);
        match first_where(all, wanted) {
            Some(k) => {
                assert(is_first_of_type(all, k, data.data_type));
                assert forall|m: int| #[trigger]
                    is_first_of_type(all, m, data.data_type) implies m == k by {
                    if m < k {
                        assert(!wanted(all[m]));
                    }
                }
            },
            None => {
                assert forall|j: int| 0 <= j < own.ts12_metadata.len() implies (
                #[trigger] own.ts12_metadata@[j]).data_type.data_type@ != data.data_type by {
                    assert(!wanted(all[j]));
                }
                assert forall|m: int| #[trigger]
                    is_first_of_type(all, m, data.data_type) implies false by {
                    assert(!wanted(all[m]));
                }
            },
        }
    }
}

/// What a package shows of a credential is what its entry says, each member under its own name.
pub proof fn lemma_shown_members_are_those_of_the_entry(store: PackageStore, position: usize)
    requires
        position < store.credentials.len(),
    ensures
        store.id_of(position) == store.credentials@[position as int].id@,
        store.title_of(position) == store.credentials@[position as int].title@,
        match store.credentials@[position as int].subtitle {
            Some(text) => store.subtitle_of(position) == Some(text@),
            None => store.subtitle_of(position) is None,
        },
        match store.credentials@[position as int].disclaimer {
            Some(text) => store.disclaimer_of(position) == Some(text@),
            None => store.disclaimer_of(position) is None,
        },
        match store.credentials@[position as int].warning {
            Some(text) => store.warning_of(position) == Some(text@),
            None => store.warning_of(position) is None,
        },
        match store.credentials@[position as int].icon {
            Some(bytes) => store.icon_of(position) == Some(bytes@),
            None => store.icon_of(position) is None,
        },
{
    let own = store.credentials@[position as int];
    if own.icon is Some {
        assert(own.icon->0.deep_view() =~= own.icon->0@);
    }
}

/// What a package shows of a credential is what its configuration says: the subtitle, the
/// disclaimer and the warning are the members of these names, the credential types are those that
/// are listed, and the document type is the one that is given.
pub proof fn lemma_packages_show_their_configuration(
    config: PackageConfig,
    store: PackageStore,
    position: usize,
    vct: Text,
) -> (i: int)
    requires
        store.credentials.deep_view() == resolved_all(
            config.credentials.deep_view(),
            config.prefix(),
        ),
        position < store.credentials.len(),
    ensures
        0 <= i < config.credentials.len(),
        config.credentials@[i].id matches Some(id) ==> store.id_of(position) == id@,
        config.credentials@[i].title matches Some(title) ==> store.title_of(position) == title@,
        store.subtitle_of(position) == config.credentials@[i].subtitle.deep_view(),
        store.disclaimer_of(position) == config.credentials@[i].disclaimer.deep_view(),
        store.warning_of(position) == config.credentials@[i].warning.deep_view(),
        store.is_holder_bound(position) <==> config.credentials@[i].holder_binding != Some(false),
        store.is_vct(position, vct) <==> exists|j: int|
            0 <= j < config.credentials@[i].vcts.len() && (
            #[trigger] config.credentials@[i].vcts@[j])@ == vct,
        store.is_doctype(position, vct) <==> (config.credentials@[i].doctype matches Some(doctype)
            && doctype@ == vct),
{
    let at = lemma_packages_hold_their_credentials(config, store);
    let i = at[position as int];
    let own = store.credentials@[position as int];
    let written = config.credentials@[i];
    assert(repeats(written, i as nat, config.default_id_prefix.deep_view(), own));
    lemma_shown_members_are_those_of_the_entry(store, position);
    lemma_every_listed_type_counts(store, position, vct);
    lemma_types_of_credentials(store, position, vct, Seq::empty());
    if exists|j: int| 0 <= j < written.vcts.len() && (#[trigger] written.vcts@[j])@ == vct {
        let j = choose|j: int| 0 <= j < written.vcts.len() && (#[trigger] written.vcts@[j])@ == vct;
        assert(own.vcts@[j]@ == vct);
    }
    if store.is_vct(position, vct) {
        let j = choose|j: int| 0 <= j < own.vcts.len() && (#[trigger] own.vcts@[j])@ == vct;
        assert(written.vcts@[j]@ == vct);
    }
    i
}

/// A package supports what its configuration says, and logs as its configuration says. All of its
/// credentials are available for every protocol, and it takes signed requests as verified.
pub proof fn lemma_packages_have_the_settings_of_their_configuration(
    config: PackageConfig,
    store: PackageStore,
    position: usize,
    protocol: Text,
    request: EnvelopeModel,
)
    requires
        store.openid4vp == config.openid4vp,
        store.log_level == config.log_level,
    ensures
        store.capabilities().enabled == config.openid4vp.enabled,
        store.capabilities().supported_request_protocols
            == config.openid4vp.supported_request_protocols.deep_view(),
        store.capabilities().supported_response_modes
            == config.openid4vp.supported_response_modes.deep_view(),
        store.capabilities().supported_response_types
            == config.openid4vp.supported_response_types.deep_view(),
        store.capabilities().supported_query_methods
            == config.openid4vp.supported_query_methods.deep_view(),
        store.capabilities().supported_request_parameters
            == config.openid4vp.supported_request_parameters.deep_view(),
        store.log_level_of() == config.log_level,
        store.is_available(position, protocol),
        store.is_verified(protocol, request),
{
}

/// The ids of a configuration can be used where every credential that has a format has an id of its
/// own, or would get one without NULs: one that begins with the prefix of the configuration, or
/// with the format where there is no prefix.
pub proof fn lemma_ids_that_can_be_used(config: PackageConfig)
    ensures
        config.has_usable_ids() <==> forall|i: int|
            0 <= i < config.credentials.len() && !is_blank_text(
                (#[trigger] config.credentials@[i]).format@,
            ) && config.credentials@[i].id is None ==> match config.default_id_prefix {
                Some(prefix) => !prefix@.contains('\0'),
                None => !config.credentials@[i].format@.contains('\0'),
            },
{
    assert forall|i: int| 0 <= i < config.credentials.len() implies ((is_blank_text(
        (#[trigger] config.credentials@[i]).deep_view().format,
    ) || has_usable_id(config.credentials@[i].deep_view(), config.prefix())) <==> (!is_blank_text(
        config.credentials@[i].format@,
    ) && config.credentials@[i].id is None ==> match config.default_id_prefix {
        Some(prefix) => !prefix@.contains('\0'),
        None => !config.credentials@[i].format@.contains('\0'),
    })) by {
        assert(config.credentials@[i].deep_view().format == config.credentials@[i].format@);
    }
}

} // verus!
