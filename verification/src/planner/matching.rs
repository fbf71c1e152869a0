//! Which credentials satisfy one credential query, and with which claims.

use crate::hashsets::{key_list_set_contents, KeyListSet};
use crate::models::{ClaimModel, ClaimsQuery, CredentialQuery, CredentialQueryModel, Meta};
use crate::models::{MetaModel, TrustedAuthority, TrustedAuthorityModel};
use crate::path::{key_of_path, lemma_path_key, path_key, PathModel};
use crate::planner::error::{PlanError, PlanErrorModel};
use crate::seqs::{first_where, lemma_filter_step, lemma_first_where, lemma_first_where_is};
use crate::seqs::lemma_take_all;
use crate::store::{lawful_refs, CredentialFormat, CredentialStore, RefModel, ValueMatch};
use crate::text::{same_text, Text};
use vstd::prelude::*;

verus! {

broadcast use vstd::string::group_string_axioms;

/// Whether one of `values` is the credential type of a credential.
pub open spec fn any_vct<S: CredentialStore>(
    store: S,
    cred: RefModel<S>,
    values: Seq<Text>,
) -> bool {
    exists|i: int| 0 <= i < values.len() && store.is_vct(cred, #[trigger] values[i])
}

/// Whether a credential meets everything that a query asks for besides claims: trusted
/// authorities, holder binding and the document or credential type.
///
/// Holder binding is asked for unless the query waives it, and only of SD-JWT credentials.
pub open spec fn meta_ok<S: CredentialStore>(
    store: S,
    cred: RefModel<S>,
    query: CredentialQueryModel,
) -> bool {
    &&& match query.trusted_authorities() {
        Some(authorities) => store.is_trusted(cred, authorities),
        None => true,
    }
    &&& query.holder_binding() != Some(false) && query.format() == CredentialFormat::DcSdJwt
        ==> store.is_holder_bound(cred)
    &&& match query.meta() {
        Some(MetaModel::IsoMdoc(meta)) => store.is_doctype(cred, meta.doctype_value),
        Some(MetaModel::SdJwtVc(meta)) => match meta.vct_values {
            None => true,
            Some(values) => any_vct(store, cred, values),
        },
        None => false,
    }
}

/// The credentials that come into question for a query.
pub open spec fn candidates<S: CredentialStore>(store: S, query: CredentialQueryModel) -> Seq<
    RefModel<S>,
> {
    store.listed(Some(query.format())).filter(|cred: RefModel<S>| meta_ok(store, cred, query))
}

/// Whether a credential holds a claim with an accepted value. A claim without a path is held by
/// no credential.
pub open spec fn claim_ok<S: CredentialStore>(
    store: S,
    cred: RefModel<S>,
    claim: ClaimModel,
) -> bool {
    &&& claim.path.len() > 0
    &&& store.has_path(cred, claim.path)
    &&& match claim.values {
        Some(values) => store.value_match(cred, claim.path, values) == ValueMatch::Match,
        None => true,
    }
}

/// Whether a credential holds all of the claims.
pub open spec fn claims_ok<S: CredentialStore>(
    store: S,
    cred: RefModel<S>,
    claims: Seq<ClaimModel>,
) -> bool {
    forall|i: int| 0 <= i < claims.len() ==> claim_ok(store, cred, #[trigger] claims[i])
}

/// The credentials among `creds` that hold all of the claims.
pub open spec fn holding<S: CredentialStore>(
    store: S,
    claims: Seq<ClaimModel>,
    creds: Seq<RefModel<S>>,
) -> Seq<RefModel<S>> {
    creds.filter(|cred: RefModel<S>| claims_ok(store, cred, claims))
}

/// Whether one of the claims has this path.
pub open spec fn path_seen(claims: Seq<ClaimModel>, path: PathModel) -> bool {
    exists|i: int| 0 <= i < claims.len() && (#[trigger] claims[i]).path == path
}

/// The claims that count: those with a path, and for every path the first.
pub open spec fn distinct_paths(claims: Seq<ClaimModel>) -> Seq<ClaimModel>
    decreases claims.len(),
{
    if claims.len() == 0 {
        Seq::empty()
    } else {
        let earlier = distinct_paths(claims.drop_last());
        let last = claims.last();
        if last.path.len() == 0 || path_seen(earlier, last.path) {
            earlier
        } else {
            earlier.push(last)
        }
    }
}

/// The claims by id. The first claim with an id wins.
pub open spec fn claims_by_id(claims: Seq<ClaimModel>) -> Map<Text, ClaimModel>
    decreases claims.len(),
{
    if claims.len() == 0 {
        Map::empty()
    } else {
        let earlier = claims_by_id(claims.drop_last());
        match claims.last().id {
            Some(id) => if earlier.contains_key(id) {
                earlier
            } else {
                earlier.insert(id, claims.last())
            },
            None => earlier,
        }
    }
}

/// The claims that a claim set names; none at all when one of its ids is unknown.
pub open spec fn resolve_claim_set(by_id: Map<Text, ClaimModel>, option: Seq<Text>) -> Seq<
    ClaimModel,
> {
    if forall|i: int| 0 <= i < option.len() ==> by_id.contains_key(#[trigger] option[i]) {
        option.map_values(|id: Text| by_id[id])
    } else {
        Seq::empty()
    }
}

/// The claim sets that count, in order: those that name known claims, and at least one.
pub open spec fn valid_claim_sets(
    claims: Seq<ClaimModel>,
    claim_sets: Seq<Seq<Text>>,
) -> Seq<Seq<ClaimModel>> {
    let by_id = claims_by_id(claims);
    claim_sets.map_values(|option: Seq<Text>| resolve_claim_set(by_id, option)).filter(
        |set: Seq<ClaimModel>| set.len() > 0,
    )
}

/// Which claims are asked of the candidates, and which candidates hold them.
///
/// Without claim sets all claims are asked for. With claim sets it is the first one that any
/// candidate satisfies; when none of them counts, all claims are asked for.
pub open spec fn claim_selection<S: CredentialStore>(
    store: S,
    query: CredentialQueryModel,
    creds: Seq<RefModel<S>>,
) -> (Seq<ClaimModel>, Seq<RefModel<S>>) {
    match query.claims() {
        None => (Seq::empty(), creds),
        Some(written) => {
            let claims = distinct_paths(written);
            match query.claim_sets() {
                None => (claims, holding(store, claims, creds)),
                Some(claim_sets) => {
                    let sets = valid_claim_sets(claims, claim_sets);
                    if sets.len() == 0 {
                        (claims, holding(store, claims, creds))
                    } else {
                        match first_where(
                            sets,
                            |set: Seq<ClaimModel>| holding(store, set, creds).len() > 0,
                        ) {
                            Some(k) => (sets[k], holding(store, sets[k], creds)),
                            None => (Seq::empty(), Seq::empty()),
                        }
                    }
                },
            }
        },
    }
}

/// The claims that one credential is asked for, when it holds them.
pub open spec fn claims_of<S: CredentialStore>(
    store: S,
    cred: RefModel<S>,
    query: CredentialQueryModel,
) -> Option<Seq<ClaimModel>> {
    match query.claims() {
        None => Some(Seq::empty()),
        Some(written) => {
            let claims = distinct_paths(written);
            let sets = match query.claim_sets() {
                Some(claim_sets) => valid_claim_sets(claims, claim_sets),
                None => Seq::empty(),
            };
            if sets.len() == 0 {
                if claims_ok(store, cred, claims) {
                    Some(claims)
                } else {
                    None
                }
            } else {
                match first_where(sets, |set: Seq<ClaimModel>| claims_ok(store, cred, set)) {
                    Some(k) => Some(sets[k]),
                    None => None,
                }
            }
        },
    }
}

/// Resolved matching context for one credential query id.
#[derive(Debug)]
pub struct QueryMatches<C> {
    /// Credential query id.
    pub id: String,
    /// Requested credential format.
    pub format: CredentialFormat,
    /// Parsed typed `meta` object.
    pub meta: Meta,
    /// Whether multiple presentations are allowed in the response.
    pub multiple: bool,
    /// Whether cryptographic holder binding is required.
    pub require_holder_binding: bool,
    /// Trusted authority constraints copied from query.
    pub trusted_authorities: Option<Vec<TrustedAuthority>>,
    /// Claims selected after evaluating `claims` / `claim_sets`.
    pub selected_claims: Vec<ClaimsQuery>,
    /// Candidate credential references that satisfy this query.
    pub credentials: Vec<C>,
}

/// Model of [`QueryMatches`].
pub struct QueryMatchesModel<R> {
    pub id: Text,
    pub format: CredentialFormat,
    pub meta: MetaModel,
    pub multiple: bool,
    pub require_holder_binding: bool,
    pub trusted_authorities: Option<Seq<TrustedAuthorityModel>>,
    pub selected_claims: Seq<ClaimModel>,
    pub credentials: Seq<R>,
}

impl<C: DeepView> DeepView for QueryMatches<C> {
    type V = QueryMatchesModel<C::V>;

    open spec fn deep_view(&self) -> QueryMatchesModel<C::V> {
        QueryMatchesModel {
            id: self.id@,
            format: self.format,
            meta: self.meta.deep_view(),
            multiple: self.multiple,
            require_holder_binding: self.require_holder_binding,
            trusted_authorities: self.trusted_authorities.deep_view(),
            selected_claims: self.selected_claims.deep_view(),
            credentials: self.credentials.deep_view(),
        }
    }
}

/// Message for a credential query of an unknown format.
pub const UNSUPPORTED_FORMAT: &'static str =
    "unsupported credential format in dcql_query.credentials entry";

/// What a credential query matches in a store.
pub open spec fn query_matches<S: CredentialStore>(
    store: S,
    query: CredentialQueryModel,
) -> Result<QueryMatchesModel<RefModel<S>>, PlanErrorModel> {
    match (query.common(), query.meta()) {
        (Some(common), Some(meta)) => Ok(
            QueryMatchesModel {
                id: common.id,
                format: query.format(),
                meta,
                multiple: common.multiple == Some(true),
                require_holder_binding: common.require_cryptographic_holder_binding != Some(false),
                trusted_authorities: common.trusted_authorities,
                selected_claims: Seq::empty(),
                credentials: candidates(store, query),
            },
        ),
        _ => Err(PlanErrorModel::InvalidQuery(UNSUPPORTED_FORMAT@)),
    }
}

/// The model of a fallible result.
pub open spec fn result_view<T: DeepView, E: DeepView>(result: Result<T, E>) -> Result<T::V, E::V> {
    match result {
        Ok(value) => Ok(value.deep_view()),
        Err(error) => Err(error.deep_view()),
    }
}

/// Whether one of `values` is the credential type of `cred`.
fn has_any_vct<S: CredentialStore>(
    store: &S,
    cred: &S::CredentialRef,
    values: &Vec<String>,
) -> (found: bool)
    ensures
        found == any_vct(*store, cred.deep_view(), values.deep_view()),
{
    let ghost all = values.deep_view();
    let mut i: usize = 0;
    while i < values.len()
        invariant
            i <= values@.len(),
            all == values.deep_view(),
            forall|j: int| 0 <= j < i ==> !store.is_vct(cred.deep_view(), #[trigger] all[j]),
        decreases values@.len() - i,
    {
        assert(all[i as int] == values@[i as int]@);
        if store.has_vct(cred, values[i].as_str()) {
            return true;
        }
        i = i + 1;
    }
    false
}

/// Whether `cred` meets everything that `query` asks for besides claims.
pub fn meta_matches<S: CredentialStore>(
    store: &S,
    cred: &S::CredentialRef,
    query: &CredentialQuery,
) -> (matches: bool)
    ensures
        matches == meta_ok(*store, cred.deep_view(), query.deep_view()),
{
    if let Some(authorities) = query.trusted_authorities() {
        if !store.matches_trusted_authorities(cred, authorities) {
            return false;
        }
    }
    let binding = match query.require_cryptographic_holder_binding() {
        Some(required) => required,
        None => true,
    };
    if binding && query.format() == CredentialFormat::DcSdJwt && !store.supports_holder_binding(
        cred,
    ) {
        return false;
    }
    let meta = query.meta();
    match &meta {
        Some(Meta::IsoMdoc(wanted)) => store.has_doctype(cred, wanted.doctype_value.as_str()),
        Some(Meta::SdJwtVc(wanted)) => match &wanted.vct_values {
            None => true,
            Some(values) => has_any_vct(store, cred, values),
        },
        None => false,
    }
}

/// Finds the credentials that come into question for `query`.
pub fn match_query<S: CredentialStore>(store: &S, query: &CredentialQuery) -> (matches: Result<
    QueryMatches<S::CredentialRef>,
    PlanError,
>)
    requires
        lawful_refs::<S::CredentialRef>(),
    ensures
        result_view(matches) == query_matches(*store, query.deep_view()),
{
    let format = query.format();
    let (common, meta) = match (query.common(), query.meta()) {
        (Some(common), Some(meta)) => (common, meta),
        _ => return Err(PlanError::InvalidQuery(UNSUPPORTED_FORMAT.to_owned())),
    };
    let listed = store.list_credentials(Some(format));
    let ghost all = listed.deep_view();
    let ghost keep = |cred: RefModel<S>| meta_ok(*store, cred, query.deep_view());
    let mut credentials: Vec<S::CredentialRef> = Vec::new();
    assert(credentials.deep_view() =~= all.take(0).filter(keep));
    let mut i: usize = 0;
    while i < listed.len()
        invariant
            lawful_refs::<S::CredentialRef>(),
            i <= listed.len(),
            all == listed.deep_view(),
            keep == (|cred: RefModel<S>| meta_ok(*store, cred, query.deep_view())),
            credentials.deep_view() == all.take(i as int).filter(keep),
        decreases listed.len() - i,
    {
        proof {
            lemma_filter_step(all, keep, i as int);
        }
        if meta_matches(store, &listed[i], query) {
            let ghost before = credentials.deep_view();
            credentials.push(listed[i].clone());
            assert(credentials.deep_view() =~= before.push(all[i as int]));
        }
        i = i + 1;
    }
    proof {
        lemma_take_all(all);
    }
    let selected_claims: Vec<ClaimsQuery> = Vec::new();
    assert(selected_claims.deep_view() =~= Seq::<ClaimModel>::empty());
    let trusted_authorities = match &common.trusted_authorities {
        Some(authorities) => {
            let copy = authorities.clone();
            assert(copy.deep_view() =~= authorities.deep_view());
            Some(copy)
        },
        None => None,
    };
    Ok(
        QueryMatches {
            id: common.id.clone(),
            format,
            meta,
            multiple: match common.multiple {
                Some(multiple) => multiple,
                None => false,
            },
            require_holder_binding: match common.require_cryptographic_holder_binding {
                Some(required) => required,
                None => true,
            },
            trusted_authorities,
            selected_claims,
            credentials,
        },
    )
}

/// Whether `cred` holds `claim` with an accepted value.
pub fn claim_matches<S: CredentialStore>(
    store: &S,
    cred: &S::CredentialRef,
    claim: &ClaimsQuery,
) -> (matches: bool)
    ensures
        matches == claim_ok(*store, cred.deep_view(), claim.deep_view()),
{
    if claim.path.is_empty() {
        return false;
    }
    if !store.has_claim_path(cred, &claim.path) {
        return false;
    }
    match &claim.values {
        None => true,
        Some(values) => match store.match_claim_value(cred, &claim.path, values.as_slice()) {
            ValueMatch::Match => true,
            ValueMatch::NoMatch => false,
        },
    }
}

/// Whether `cred` holds every claim of `claims`.
pub fn all_claims_match<S: CredentialStore>(
    store: &S,
    cred: &S::CredentialRef,
    claims: &[ClaimsQuery],
) -> (matches: bool)
    ensures
        matches == claims_ok(*store, cred.deep_view(), claims.deep_view()),
{
    let ghost all = claims.deep_view();
    let mut i: usize = 0;
    while i < claims.len()
        invariant
            i <= claims@.len(),
            all == claims.deep_view(),
            forall|j: int|
                0 <= j < i ==> claim_ok(*store, cred.deep_view(), #[trigger] all[j]),
        decreases claims@.len() - i,
    {
        assert(all[i as int] == claims@[i as int].deep_view());
        if !claim_matches(store, cred, &claims[i]) {
            assert(!claim_ok(*store, cred.deep_view(), claims.deep_view()[i as int]));
            return false;
        }
        i = i + 1;
    }
    true
}

/// The credentials among `creds` that hold every claim of `claims`.
pub fn filter_candidates<S: CredentialStore>(
    store: &S,
    claims: &[ClaimsQuery],
    creds: &[S::CredentialRef],
) -> (found: Vec<S::CredentialRef>)
    requires
        lawful_refs::<S::CredentialRef>(),
    ensures
        found.deep_view() == holding(*store, claims.deep_view(), creds.deep_view()),
{
    let ghost all = creds.deep_view();
    let ghost keep = |cred: RefModel<S>| claims_ok(*store, cred, claims.deep_view());
    let mut found: Vec<S::CredentialRef> = Vec::new();
    assert(found.deep_view() =~= all.take(0).filter(keep));
    let mut i: usize = 0;
    while i < creds.len()
        invariant
            lawful_refs::<S::CredentialRef>(),
            i <= creds@.len(),
            all == creds.deep_view(),
            keep == (|cred: RefModel<S>| claims_ok(*store, cred, claims.deep_view())),
            found.deep_view() == all.take(i as int).filter(keep),
        decreases creds@.len() - i,
    {
        proof {
            lemma_filter_step(all, keep, i as int);
        }
        if all_claims_match(store, &creds[i], claims) {
            let ghost before = found.deep_view();
            found.push(creds[i].clone());
            assert(found.deep_view() =~= before.push(all[i as int]));
        }
        i = i + 1;
    }
    proof {
        lemma_take_all(all);
    }
    found
}

/// Keeps the claims that have a path, and for every path the first.
pub fn dedupe_claims_by_path(claims: &[ClaimsQuery]) -> (kept: Vec<ClaimsQuery>)
    ensures
        kept.deep_view() == distinct_paths(claims.deep_view()),
{
    let ghost all = claims.deep_view();
    let mut seen = KeyListSet::new();
    let mut kept: Vec<ClaimsQuery> = Vec::new();
    assert(kept.deep_view() =~= distinct_paths(all.take(0)));
    let mut i: usize = 0;
    while i < claims.len()
        invariant
            i <= claims@.len(),
            all == claims.deep_view(),
            kept.deep_view() == distinct_paths(all.take(i as int)),
            forall|path: PathModel| #[trigger]
                key_list_set_contents(seen).contains(path_key(path)) <==> path_seen(
                    kept.deep_view(),
                    path,
                ),
        decreases claims@.len() - i,
    {
        let claim = &claims[i];
        let ghost before = kept.deep_view();
        let ghost keys = key_list_set_contents(seen);
        let ghost path = claim.deep_view().path;
        assert(all.take(i + 1).drop_last() =~= all.take(i as int));
        assert(all.take(i + 1).last() == claim.deep_view());
        i = i + 1;
        if claim.path.is_empty() {
            continue;
        }
        if seen.insert(key_of_path(&claim.path)) {
            kept.push(claim.clone());
            assert(kept.deep_view() =~= before.push(claim.deep_view()));
        }
        proof {
            assert(keys.contains(path_key(path)) <==> path_seen(before, path));
            assert forall|other: PathModel| #[trigger]
                key_list_set_contents(seen).contains(path_key(other)) <==> path_seen(
                kept.deep_view(),
                other,
            ) by {
                lemma_path_key(path, other);
                assert(keys.contains(path_key(other)) <==> path_seen(before, other));
                if path_seen(before, other) {
                    let k = choose|k: int| 0 <= k < before.len() && (
                    #[trigger] before[k]).path == other;
                    assert(kept.deep_view()[k].path == other);
                }
                if path == other && !path_seen(before, path) {
                    assert(kept.deep_view()[before.len() as int].path == other);
                }
            }
        }
    }
    proof {
        lemma_take_all(all);
    }
    kept
}

/// Claims by id, the first claim with an id first.
pub struct ClaimsById<'a> {
    /// The indexed claims. Every one has an id, and no two have the same.
    pub claims: Vec<&'a ClaimsQuery>,
    /// The claims by id.
    pub by_id: Ghost<Map<Text, ClaimModel>>,
}

impl<'a> ClaimsById<'a> {
    /// The index holds exactly the claims of its map.
    pub open spec fn well_formed(&self) -> bool {
        &&& forall|i: int|
            0 <= i < self.claims.len() ==> {
                let claim = (#[trigger] self.claims@[i]).deep_view();
                claim.id is Some && self.by_id@.contains_key(claim.id->0)
                    && self.by_id@[claim.id->0] == claim
            }
        &&& forall|id: Text| #[trigger]
            self.by_id@.contains_key(id) ==> exists|i: int|
                0 <= i < self.claims.len() && (#[trigger] self.claims@[i]).deep_view().id == Some(
                    id,
                )
    }

    /// The claim with this id.
    pub fn get(&self, id: &str) -> (found: Option<&'a ClaimsQuery>)
        requires
            self.well_formed(),
        ensures
            match found {
                Some(claim) => self.by_id@.contains_key(id@) && self.by_id@[id@]
                    == claim.deep_view(),
                None => !self.by_id@.contains_key(id@),
            },
    {
        let mut i: usize = 0;
        while i < self.claims.len()
            invariant
                i <= self.claims.len(),
                self.well_formed(),
                forall|j: int|
                    0 <= j < i ==> (#[trigger] self.claims@[j]).deep_view().id != Some(id@),
            decreases self.claims.len() - i,
        {
            let claim = self.claims[i];
            if let Some(own) = claim.id() {
                if same_text(own, id) {
                    assert(self.claims@[i as int].deep_view().id == Some(id@));
                    return Some(claim);
                }
            }
            i = i + 1;
        }
        None
    }
}

/// Indexes `claims` by id. Claims without an id are left out; of several claims with one id the
/// first wins.
pub fn map_claims_by_id<'a>(claims: &'a [ClaimsQuery]) -> (index: ClaimsById<'a>)
    ensures
        index.well_formed(),
        index.by_id@ == claims_by_id(claims.deep_view()),
{
    let ghost all = claims.deep_view();
    let mut index = ClaimsById { claims: Vec::new(), by_id: Ghost(claims_by_id(all.take(0))) };
    let mut i: usize = 0;
    while i < claims.len()
        invariant
            i <= claims@.len(),
            all == claims.deep_view(),
            index.well_formed(),
            index.by_id@ == claims_by_id(all.take(i as int)),
        decreases claims@.len() - i,
    {
        let claim = &claims[i];
        let ghost before = index;
        assert(all.take(i + 1).drop_last() =~= all.take(i as int));
        assert(all.take(i + 1).last() == claim.deep_view());
        i = i + 1;
        let id = match claim.id() {
            Some(id) => id,
            None => continue,
        };
        if index.get(id).is_some() {
            continue;
        }
        index.claims.push(claim);
        index.by_id = Ghost(claims_by_id(all.take(i as int)));
        proof {
            assert forall|k: int| 0 <= k < index.claims.len() implies {
                let it = (#[trigger] index.claims@[k]).deep_view();
                it.id is Some && index.by_id@.contains_key(it.id->0) && index.by_id@[it.id->0] == it
            } by {
                if k < before.claims.len() {
                    assert(index.claims@[k] == before.claims@[k]);
                }
            }
            assert forall|x: Text| #[trigger]
                index.by_id@.contains_key(x) implies exists|k: int|
                0 <= k < index.claims.len() && (#[trigger] index.claims@[k]).deep_view().id == Some(
                    x,
                ) by {
                if before.by_id@.contains_key(x) {
                    let k = choose|k: int|
                        0 <= k < before.claims.len() && (
                        #[trigger] before.claims@[k]).deep_view().id == Some(x);
                    assert(index.claims@[k] == before.claims@[k]);
                } else {
                    assert(index.claims@[before.claims.len() as int].deep_view().id == Some(x));
                }
            }
        }
    }
    proof {
        lemma_take_all(all);
    }
    index
}

/// The claims that `option` names, or none when one of its ids is unknown.
pub fn select_claim_set(index: &ClaimsById<'_>, option: &Vec<String>) -> (selected: Vec<
    ClaimsQuery,
>)
    requires
        index.well_formed(),
    ensures
        selected.deep_view() == resolve_claim_set(index.by_id@, option.deep_view()),
{
    let ghost ids = option.deep_view();
    let ghost pick = |id: Text| index.by_id@[id];
    let mut selected: Vec<ClaimsQuery> = Vec::new();
    let mut i: usize = 0;
    while i < option.len()
        invariant
            i <= option.len(),
            index.well_formed(),
            ids == option.deep_view(),
            selected.len() == i,
            forall|j: int|
                0 <= j < i ==> index.by_id@.contains_key(#[trigger] ids[j])
                    && selected@[j].deep_view() == index.by_id@[ids[j]],
        decreases option.len() - i,
    {
        assert(ids[i as int] == option@[i as int]@);
        match index.get(option[i].as_str()) {
            Some(claim) => selected.push(claim.clone()),
            None => {
                let none: Vec<ClaimsQuery> = Vec::new();
                assert(none.deep_view() =~= Seq::<ClaimModel>::empty());
                return none;
            },
        }
        i = i + 1;
    }
    assert(selected.deep_view() =~= ids.map_values(pick));
    selected
}

/// Chooses the claims that are asked of `creds`, and the credentials that hold them.
pub fn match_claim_selection<S: CredentialStore>(
    store: &S,
    query: &CredentialQuery,
    creds: Vec<S::CredentialRef>,
) -> (chosen: (Vec<ClaimsQuery>, Vec<S::CredentialRef>))
    requires
        lawful_refs::<S::CredentialRef>(),
    ensures
        (chosen.0.deep_view(), chosen.1.deep_view()) == claim_selection(
            *store,
            query.deep_view(),
            creds.deep_view(),
        ),
{
    let written = match query.claims() {
        Some(written) => written,
        None => {
            let none: Vec<ClaimsQuery> = Vec::new();
            assert(none.deep_view() =~= Seq::<ClaimModel>::empty());
            return (none, creds);
        },
    };
    let claims = dedupe_claims_by_path(written);
    let claim_sets = match query.claim_sets() {
        Some(claim_sets) => claim_sets,
        None => {
            let found = filter_candidates(store, claims.as_slice(), creds.as_slice());
            return (claims, found);
        },
    };
    let index = map_claims_by_id(claims.as_slice());
    let ghost by_id = index.by_id@;
    let ghost all = claim_sets.deep_view();
    let ghost resolve = |option: Seq<Text>| resolve_claim_set(by_id, option);
    let ghost resolved = all.map_values(resolve);
    let ghost counts = |set: Seq<ClaimModel>| set.len() > 0;
    let ghost sets = resolved.filter(counts);
    let ghost hit = |set: Seq<ClaimModel>| holding(*store, set, creds.deep_view()).len() > 0;
    let mut saw_valid_claim_set = false;
    let mut i: usize = 0;
    while i < claim_sets.len()
        invariant
            lawful_refs::<S::CredentialRef>(),
            i <= claim_sets@.len(),
            index.well_formed(),
            index.by_id@ == by_id,
            by_id == claims_by_id(claims.deep_view()),
            all == claim_sets.deep_view(),
            query.deep_view().claims() is Some,
            claims.deep_view() == distinct_paths(query.deep_view().claims()->0),
            query.deep_view().claim_sets() == Some(all),
            resolve == (|option: Seq<Text>| resolve_claim_set(by_id, option)),
            resolved == all.map_values(resolve),
            counts == (|set: Seq<ClaimModel>| set.len() > 0),
            sets == resolved.filter(counts),
            hit == (|set: Seq<ClaimModel>|
                holding(*store, set, creds.deep_view()).len() > 0),
            saw_valid_claim_set == (resolved.take(i as int).filter(counts).len() > 0),
            forall|j: int|
                0 <= j < resolved.take(i as int).filter(counts).len() ==> !hit(
                    #[trigger] resolved.take(i as int).filter(counts)[j],
                ),
        decreases claim_sets@.len() - i,
    {
        let selected = select_claim_set(&index, &claim_sets[i]);
        proof {
            assert(all[i as int] == claim_sets@[i as int].deep_view());
            lemma_filter_step(resolved, counts, i as int);
        }
        i = i + 1;
        if selected.is_empty() {
            assert(selected.deep_view().len() == 0);
            continue;
        }
        assert(selected.deep_view().len() > 0);
        saw_valid_claim_set = true;
        let found = filter_candidates(store, selected.as_slice(), creds.as_slice());
        if !found.is_empty() {
            proof {
                let prefix = resolved.take(i as int).filter(counts);
                assert(resolved =~= resolved.take(i as int) + resolved.skip(i as int));
                Seq::filter_distributes_over_add(
                    resolved.take(i as int),
                    resolved.skip(i as int),
                    counts,
                );
                let k = prefix.len() - 1;
                assert(sets[k] == selected.deep_view());
                assert(found.deep_view().len() > 0);
                assert(hit(sets[k]));
                assert forall|j: int| 0 <= j < k implies !hit(#[trigger] sets[j]) by {
                    assert(sets[j] == prefix[j]);
                    assert(prefix[j] == resolved.take(i - 1).filter(counts)[j]);
                }
                lemma_first_where_is(sets, hit, k);
            }
            return (selected, found);
        }
        proof {
            assert(found.deep_view().len() == 0);
            let earlier = resolved.take(i - 1).filter(counts);
            let now = resolved.take(i as int).filter(counts);
            assert forall|j: int| 0 <= j < now.len() implies !hit(#[trigger] now[j]) by {
                if j < earlier.len() {
                    assert(now[j] == earlier[j]);
                }
            }
        }
    }
    proof {
        lemma_take_all(resolved);
        lemma_first_where(sets, hit);
    }
    if !saw_valid_claim_set {
        let found = filter_candidates(store, claims.as_slice(), creds.as_slice());
        return (claims, found);
    }
    let none: Vec<ClaimsQuery> = Vec::new();
    let nobody: Vec<S::CredentialRef> = Vec::new();
    assert(none.deep_view() =~= Seq::<ClaimModel>::empty());
    assert(nobody.deep_view() =~= Seq::<RefModel<S>>::empty());
    (none, nobody)
}

/// The claims that `cred` is asked for, when it holds them.
pub fn match_claims<S: CredentialStore>(
    store: &S,
    cred: &S::CredentialRef,
    query: &CredentialQuery,
) -> (chosen: Option<Vec<ClaimsQuery>>)
    ensures
        chosen.deep_view() == claims_of(*store, cred.deep_view(), query.deep_view()),
{
    let written = match query.claims() {
        Some(written) => written,
        None => {
            let none: Vec<ClaimsQuery> = Vec::new();
            assert(none.deep_view() =~= Seq::<ClaimModel>::empty());
            return Some(none);
        },
    };
    let claims = dedupe_claims_by_path(written);
    let claim_sets = match query.claim_sets() {
        Some(claim_sets) => claim_sets,
        None => {
            if all_claims_match(store, cred, claims.as_slice()) {
                return Some(claims);
            }
            return None;
        },
    };
    let index = map_claims_by_id(claims.as_slice());
    let ghost by_id = index.by_id@;
    let ghost all = claim_sets.deep_view();
    let ghost resolve = |option: Seq<Text>| resolve_claim_set(by_id, option);
    let ghost resolved = all.map_values(resolve);
    let ghost counts = |set: Seq<ClaimModel>| set.len() > 0;
    let ghost sets = resolved.filter(counts);
    let ghost hit = |set: Seq<ClaimModel>| claims_ok(*store, cred.deep_view(), set);
    let mut saw_valid_claim_set = false;
    let mut i: usize = 0;
    while i < claim_sets.len()
        invariant
            i <= claim_sets@.len(),
            index.well_formed(),
            index.by_id@ == by_id,
            by_id == claims_by_id(claims.deep_view()),
            all == claim_sets.deep_view(),
            query.deep_view().claims() is Some,
            claims.deep_view() == distinct_paths(query.deep_view().claims()->0),
            query.deep_view().claim_sets() == Some(all),
            resolve == (|option: Seq<Text>| resolve_claim_set(by_id, option)),
            resolved == all.map_values(resolve),
            counts == (|set: Seq<ClaimModel>| set.len() > 0),
            sets == resolved.filter(counts),
            hit == (|set: Seq<ClaimModel>| claims_ok(*store, cred.deep_view(), set)),
            saw_valid_claim_set == (resolved.take(i as int).filter(counts).len() > 0),
            forall|j: int|
                0 <= j < resolved.take(i as int).filter(counts).len() ==> !hit(
                    #[trigger] resolved.take(i as int).filter(counts)[j],
                ),
        decreases claim_sets@.len() - i,
    {
        let selected = select_claim_set(&index, &claim_sets[i]);
        proof {
            assert(all[i as int] == claim_sets@[i as int].deep_view());
            lemma_filter_step(resolved, counts, i as int);
        }
        i = i + 1;
        if selected.is_empty() {
            assert(selected.deep_view().len() == 0);
            continue;
        }
        assert(selected.deep_view().len() > 0);
        saw_valid_claim_set = true;
        if all_claims_match(store, cred, selected.as_slice()) {
            proof {
                let prefix = resolved.take(i as int).filter(counts);
                assert(resolved =~= resolved.take(i as int) + resolved.skip(i as int));
                Seq::filter_distributes_over_add(
                    resolved.take(i as int),
                    resolved.skip(i as int),
                    counts,
                );
                let k = prefix.len() - 1;
                assert(sets[k] == selected.deep_view());
                assert forall|j: int| 0 <= j < k implies !hit(#[trigger] sets[j]) by {
                    assert(sets[j] == prefix[j]);
                    assert(prefix[j] == resolved.take(i - 1).filter(counts)[j]);
                }
                lemma_first_where_is(sets, hit, k);
            }
            return Some(selected);
        }
        proof {
            let earlier = resolved.take(i - 1).filter(counts);
            let now = resolved.take(i as int).filter(counts);
            assert forall|j: int| 0 <= j < now.len() implies !hit(#[trigger] now[j]) by {
                if j < earlier.len() {
                    assert(now[j] == earlier[j]);
                }
            }
        }
    }
    proof {
        lemma_take_all(resolved);
        lemma_first_where(sets, hit);
    }
    if !saw_valid_claim_set && all_claims_match(store, cred, claims.as_slice()) {
        return Some(claims);
    }
    None
}

} // verus!
