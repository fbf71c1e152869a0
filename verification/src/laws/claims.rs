//! What holds of the credentials that answer a credential query, and of the claims that are asked
//! of them.

use crate::laws::listings::{ascends, drawn_at, lemma_filtering_keeps_the_order};
use crate::models::{ClaimModel, CredentialQueryCommonModel, CredentialQueryModel};
use crate::models::{DcqlQueryModel, TransactionDataModel};
use crate::planner::index::query_table;
use crate::planner::laws::lemma_selections_are_sound;
use crate::planner::matching::{candidates, claim_ok, claim_selection, claims_by_id, claims_ok};
use crate::planner::matching::{distinct_paths, holding, meta_ok, path_seen};
use crate::planner::matching::{resolve_claim_set, valid_claim_sets};
use crate::planner::options::PlanOptionsModel;
use crate::planner::plan::plan;
use crate::seqs::{first_where, lemma_filter_contains, lemma_first_where, lemma_push_contains};
use crate::store::{CredentialFormat, CredentialStore, RefModel, ValueMatch};
use crate::text::Text;
use vstd::prelude::*;

verus! {

/// Whether a credential holds a claim: it has something at the path, and a value that is accepted
/// where the query says which are.
pub open spec fn has_claim<S: CredentialStore>(
    store: S,
    cred: RefModel<S>,
    claim: ClaimModel,
) -> bool {
    &&& claim.path.len() != 0
    &&& store.has_path(cred, claim.path)
    &&& claim.values matches Some(values) ==> store.value_match(cred, claim.path, values)
        != ValueMatch::NoMatch
}

/// Whether a credential holds all of these claims.
pub open spec fn has_claims<S: CredentialStore>(
    store: S,
    cred: RefModel<S>,
    claims: Seq<ClaimModel>,
) -> bool {
    forall|i: int| 0 <= i < claims.len() ==> has_claim(store, cred, #[trigger] claims[i])
}

/// A credential counts as holding claims exactly where it holds each of them, with an accepted
/// value where values are asked for.
pub proof fn lemma_claims_are_held<S: CredentialStore>(
    store: S,
    cred: RefModel<S>,
    claims: Seq<ClaimModel>,
)
    ensures
        claims_ok(store, cred, claims) <==> has_claims(store, cred, claims),
{
    if claims_ok(store, cred, claims) {
        assert forall|i: int| 0 <= i < claims.len() implies has_claim(
            store,
            cred,
            #[trigger] claims[i],
        ) by {
            assert(claim_ok(store, cred, claims[i]));
        }
    }
    if has_claims(store, cred, claims) {
        assert forall|i: int| 0 <= i < claims.len() implies claim_ok(
            store,
            cred,
            #[trigger] claims[i],
        ) by {
            assert(has_claim(store, cred, claims[i]));
        }
    }
}

/// One more claim can only rule credentials out: a credential holds a longer list of claims exactly
/// where it holds the shorter one and the claim that was added.
pub proof fn lemma_every_claim_counts<S: CredentialStore>(
    store: S,
    cred: RefModel<S>,
    claims: Seq<ClaimModel>,
    claim: ClaimModel,
)
    ensures
        claims_ok(store, cred, claims.push(claim)) <==> claims_ok(store, cred, claims) && has_claim(
            store,
            cred,
            claim,
        ),
{
    let longer = claims.push(claim);
    lemma_claims_are_held(store, cred, claims);
    lemma_claims_are_held(store, cred, longer);
    if has_claims(store, cred, longer) {
        assert(has_claim(store, cred, longer[claims.len() as int]));
        assert forall|i: int| 0 <= i < claims.len() implies has_claim(
            store,
            cred,
            #[trigger] claims[i],
        ) by {
            assert(longer[i] == claims[i]);
        }
    }
}

/// A credential with a value that a selected claim does not accept is never offered with that
/// claim, nor is one that has nothing at the path of the claim.
pub proof fn lemma_offered_credentials_hold_the_selected_claims<S: CredentialStore>(
    store: S,
    query: DcqlQueryModel,
    data: Option<Seq<TransactionDataModel>>,
    options: PlanOptionsModel,
    s: int,
    t: int,
    c: int,
    n: int,
)
    requires
        plan(store, query, data, options) matches Ok(output) && 0 <= s
            < output.len() && 0 <= t < output[s].len() && 0 <= c < output[s][t].len() && 0 <= n
            < output[s][t][c].selected_claims.len(),
    ensures
        ({
            let selection = plan(store, query, data, options)->Ok_0[s][t][c];
            let claim = selection.selected_claims[n];
            selection.credential_id matches Some(cred) && claim.path.len() > 0 && store.has_path(
                cred,
                claim.path,
            ) && (claim.values matches Some(values) ==> store.value_match(cred, claim.path, values)
                != ValueMatch::NoMatch)
        }),
{
    let selection = plan(store, query, data, options)->Ok_0[s][t][c];
    lemma_selections_are_sound(store, query, data, options, s, t, c);
    let cred = selection.credential_id->0;
    lemma_claims_are_held(store, cred, selection.selected_claims);
    assert(has_claim(store, cred, selection.selected_claims[n]));
}

/// The members of a credential query that all formats share.
pub open spec fn members(query: CredentialQueryModel) -> Option<CredentialQueryCommonModel> {
    match query {
        CredentialQueryModel::MsoMdoc { common, meta } => Some(common),
        CredentialQueryModel::DcSdJwt { common, meta } => Some(common),
        CredentialQueryModel::Unknown => None,
    }
}

/// Whether a credential is one that a credential query asks for, claims aside: of the format, of
/// the document type or of one of the credential types, bound to its holder unless that is waived
/// or the format has no such thing, and issued by an authority that is trusted.
pub open spec fn is_asked_for<S: CredentialStore>(
    store: S,
    query: CredentialQueryModel,
    cred: RefModel<S>,
) -> bool {
    let trusted = |common: CredentialQueryCommonModel|
        common.trusted_authorities is None || store.is_trusted(
            cred,
            common.trusted_authorities->0,
        );
    match query {
        CredentialQueryModel::MsoMdoc { common, meta } => {
            &&& store.listed(Some(CredentialFormat::MsoMdoc)).contains(cred)
            &&& store.is_doctype(cred, meta.doctype_value)
            &&& trusted(common)
        },
        CredentialQueryModel::DcSdJwt { common, meta } => {
            &&& store.listed(Some(CredentialFormat::DcSdJwt)).contains(cred)
            &&& meta.vct_values matches Some(values) ==> exists|i: int|
                0 <= i < values.len() && store.is_vct(cred, #[trigger] values[i])
            &&& store.is_holder_bound(cred) || common.require_cryptographic_holder_binding == Some(
                false,
            )
            &&& trusted(common)
        },
        CredentialQueryModel::Unknown => false,
    }
}

/// The candidates for a credential query are exactly the credentials that it asks for, in the order
/// in which the store lists them.
pub proof fn lemma_candidates_are_what_is_asked_for<S: CredentialStore>(
    store: S,
    query: CredentialQueryModel,
    cred: RefModel<S>,
) -> (at: Seq<int>)
    ensures
        candidates(store, query).contains(cred) <==> is_asked_for(store, query, cred),
        query is MsoMdoc ==> drawn_at(
            candidates(store, query),
            store.listed(Some(CredentialFormat::MsoMdoc)),
            at,
        ),
        query is DcSdJwt ==> drawn_at(
            candidates(store, query),
            store.listed(Some(CredentialFormat::DcSdJwt)),
            at,
        ),
        forall|k: int|
            0 <= k < candidates(store, query).len() ==> is_asked_for(
                store,
                query,
                #[trigger] candidates(store, query)[k],
            ),
        forall|i: int|
            0 <= i < store.listed(Some(query.format())).len() && is_asked_for(
                store,
                query,
                #[trigger] store.listed(Some(query.format()))[i],
            ) ==> at.contains(i),
{
    let listed = store.listed(Some(query.format()));
    let keep = |cred: RefModel<S>| meta_ok(store, cred, query);
    lemma_filter_contains(listed, keep);
    let at = lemma_filtering_keeps_the_order(listed, keep);
    let found = candidates(store, query);
    assert forall|k: int| 0 <= k < found.len() implies is_asked_for(
        store,
        query,
        #[trigger] found[k],
    ) by {
        assert(found.contains(found[k]));
        assert(listed.contains(found[k]) && keep(found[k]));
    }
    assert forall|i: int|
        0 <= i < listed.len() && is_asked_for(store, query, #[trigger] listed[i]) implies at.contains(
        i,
    ) by {
        assert(keep(listed[i]));
    }
    at
}

/// Whether a credential query is the first that has this id.
pub open spec fn is_first_with_id(
    credentials: Seq<CredentialQueryModel>,
    i: int,
    id: Text,
) -> bool {
    &&& 0 <= i < credentials.len()
    &&& members(credentials[i]) matches Some(common) && common.id == id
    &&& forall|j: int|
        0 <= j < i && members(#[trigger] credentials[j]) is Some ==> members(credentials[j])->0.id
            != id
}

/// An id stands for the first credential query that has it, and for none only where none has it.
pub proof fn lemma_ids_stand_for_the_first_query(
    credentials: Seq<CredentialQueryModel>,
    id: Text,
)
    ensures
        query_table(credentials).queries.contains_key(id) ==> exists|i: int| #[trigger]
            is_first_with_id(credentials, i, id) && query_table(credentials).queries[id]
                == credentials[i],
        !query_table(credentials).queries.contains_key(id) ==> forall|i: int|
            0 <= i < credentials.len() && members(#[trigger] credentials[i]) is Some ==> members(
                credentials[i],
            )->0.id != id,
    decreases credentials.len(),
{
    if credentials.len() > 0 {
        let rest = credentials.drop_last();
        let n = credentials.len() - 1;
        lemma_ids_stand_for_the_first_query(rest, id);
        if query_table(rest).queries.contains_key(id) {
            let i = choose|i: int| #[trigger]
                is_first_with_id(rest, i, id) && query_table(rest).queries[id] == rest[i];
            assert forall|j: int|
                0 <= j < i && members(#[trigger] credentials[j]) is Some implies members(
                credentials[j],
            )->0.id != id by {
                assert(rest[j] == credentials[j]);
            }
            assert(is_first_with_id(credentials, i, id));
            assert(query_table(credentials).queries[id] == credentials[i]);
        } else {
            assert forall|j: int|
                0 <= j < n && members(#[trigger] credentials[j]) is Some implies members(
                credentials[j],
            )->0.id != id by {
                assert(rest[j] == credentials[j]);
            }
            if query_table(credentials).queries.contains_key(id) {
                assert(is_first_with_id(credentials, n, id));
            }
        }
    }
}

/// An offered credential is one that the first credential query of its id asks for.
pub proof fn lemma_offered_credentials_are_asked_for<S: CredentialStore>(
    store: S,
    query: DcqlQueryModel,
    data: Option<Seq<TransactionDataModel>>,
    options: PlanOptionsModel,
    s: int,
    t: int,
    c: int,
) -> (i: int)
    requires
        plan(store, query, data, options) matches Ok(output) && 0 <= s
            < output.len() && 0 <= t < output[s].len() && 0 <= c < output[s][t].len()
            && output[s][t][c].credential_id is Some,
    ensures
        ({
            let selection = plan(store, query, data, options)->Ok_0[s][t][c];
            is_first_with_id(query.credentials, i, selection.dcql_id) && is_asked_for(
                store,
                query.credentials[i],
                selection.credential_id->0,
            )
        }),
{
    let selection = plan(store, query, data, options)->Ok_0[s][t][c];
    let id = selection.dcql_id;
    lemma_selections_are_sound(store, query, data, options, s, t, c);
    lemma_ids_stand_for_the_first_query(query.credentials, id);
    choose|i: int| #[trigger]
        is_first_with_id(query.credentials, i, id) && query_table(query.credentials).queries[id]
            == query.credentials[i]
}

/// Whether a claim counts: it has a path, and no earlier claim has the same.
pub open spec fn counts(claims: Seq<ClaimModel>, n: int) -> bool {
    &&& 0 <= n < claims.len()
    &&& claims[n].path.len() != 0
    &&& forall|m: int| 0 <= m < n ==> (#[trigger] claims[m]).path != claims[n].path
}

/// Of the claims of a query exactly those that count are kept, in order.
pub proof fn lemma_claims_that_count_are_kept(claims: Seq<ClaimModel>) -> (at: Seq<int>)
    ensures
        drawn_at(distinct_paths(claims), claims, at),
        forall|n: int| #[trigger] at.contains(n) <==> counts(claims, n),
    decreases claims.len(),
{
    if claims.len() == 0 {
        Seq::empty()
    } else {
        let rest = claims.drop_last();
        let last = claims.len() - 1;
        let before = lemma_claims_that_count_are_kept(rest);
        let earlier = distinct_paths(rest);
        let fresh = !path_seen(earlier, claims[last].path);
        assert(claims[last].path.len() != 0 ==> (fresh <==> forall|m: int|
            0 <= m < last ==> (#[trigger] claims[m]).path != claims[last].path)) by {
            if !fresh {
                let k = choose|k: int|
                    0 <= k < earlier.len() && (#[trigger] earlier[k]).path == claims[last].path;
                assert(earlier[k] == rest[before[k]]);
                assert(claims[before[k]].path == claims[last].path);
            }
            if claims[last].path.len() != 0 && exists|m: int|
                0 <= m < last && (#[trigger] claims[m]).path == claims[last].path {
                let m = choose|m: int|
                    0 <= m < last && (#[trigger] claims[m]).path == claims[last].path;
                let f = lemma_first_with_path(rest, m);
                assert(counts(rest, f));
                assert(before.contains(f));
                let k = choose|k: int| 0 <= k < before.len() && before[k] == f;
                assert(earlier[k] == rest[before[k]]);
                assert(earlier[k].path == claims[last].path);
            }
        }
        let kept = claims[last].path.len() != 0 && fresh;
        let at = if kept {
            before.push(last)
        } else {
            before
        };
        assert forall|n: int| #[trigger] at.contains(n) <==> counts(claims, n) by {
            lemma_push_contains(before, last, n);
            assert(before.contains(n) <==> counts(rest, n));
            if 0 <= n < last {
                if counts(rest, n) {
                    assert forall|m: int| 0 <= m < n implies (#[trigger] claims[m]).path
                        != claims[n].path by {
                        assert(rest[m].path != rest[n].path);
                    }
                }
                if counts(claims, n) {
                    assert forall|m: int| 0 <= m < n implies (#[trigger] rest[m]).path
                        != rest[n].path by {
                        assert(claims[m].path != claims[n].path);
                    }
                }
            }
        }
        assert forall|k: int| 0 <= k < at.len() implies #[trigger] distinct_paths(claims)[k]
            == claims[at[k]] by {
            if k < before.len() {
                assert(earlier[k] == rest[before[k]]);
            }
        }
        at
    }
}

/// The first claim with the path of a claim.
proof fn lemma_first_with_path(claims: Seq<ClaimModel>, m: int) -> (f: int)
    requires
        0 <= m < claims.len(),
        claims[m].path.len() != 0,
    ensures
        counts(claims, f),
        claims[f].path == claims[m].path,
    decreases m,
{
    if exists|e: int| 0 <= e < m && (#[trigger] claims[e]).path == claims[m].path {
        let e = choose|e: int| 0 <= e < m && (#[trigger] claims[e]).path == claims[m].path;
        lemma_first_with_path(claims, e)
    } else {
        m
    }
}

/// Whether a claim is the one that an id stands for: the first that has it, of those that count.
pub open spec fn is_first_claim(claims: Seq<ClaimModel>, id: Text, n: int) -> bool {
    &&& counts(claims, n)
    &&& claims[n].id == Some(id)
    &&& forall|m: int|
        0 <= m < n && #[trigger] counts(claims, m) ==> claims[m].id != Some(id)
}

/// Whether a claim is the one that an id stands for.
pub open spec fn stands_for(claims: Seq<ClaimModel>, id: Text, claim: ClaimModel) -> bool {
    exists|n: int| #[trigger] is_first_claim(claims, id, n) && claim == claims[n]
}

/// Whether a claim set names exactly these claims, one for each of its ids and at least one.
pub open spec fn names_claims(
    claims: Seq<ClaimModel>,
    option: Seq<Text>,
    named: Seq<ClaimModel>,
) -> bool {
    &&& named.len() == option.len()
    &&& named.len() > 0
    &&& forall|i: int|
        0 <= i < option.len() ==> stands_for(claims, option[i], #[trigger] named[i])
}

/// The claims by id hold, for every id, the first claim that has it.
proof fn lemma_by_id(claims: Seq<ClaimModel>, id: Text)
    ensures
        claims_by_id(claims).contains_key(id) ==> exists|k: int|
            0 <= k < claims.len() && #[trigger] claims[k] == claims_by_id(claims)[id]
                && claims[k].id == Some(id) && forall|j: int|
                0 <= j < k ==> (#[trigger] claims[j]).id != Some(id),
        !claims_by_id(claims).contains_key(id) ==> forall|k: int|
            0 <= k < claims.len() ==> (#[trigger] claims[k]).id != Some(id),
    decreases claims.len(),
{
    if claims.len() > 0 {
        let rest = claims.drop_last();
        let n = claims.len() - 1;
        lemma_by_id(rest, id);
        if claims_by_id(rest).contains_key(id) {
            let k = choose|k: int|
                0 <= k < rest.len() && #[trigger] rest[k] == claims_by_id(rest)[id] && rest[k].id
                    == Some(id) && forall|j: int|
                    0 <= j < k ==> (#[trigger] rest[j]).id != Some(id);
            assert(claims[k] == claims_by_id(claims)[id]);
            assert forall|j: int| 0 <= j < k implies (#[trigger] claims[j]).id != Some(id) by {
                assert(rest[j] == claims[j]);
            }
        } else {
            assert forall|j: int| 0 <= j < n implies (#[trigger] claims[j]).id != Some(id) by {
                assert(rest[j] == claims[j]);
            }
            if claims_by_id(claims).contains_key(id) {
                assert(claims[n] == claims_by_id(claims)[id]);
            }
        }
    }
}

/// What an id stands for among the claims that count.
proof fn lemma_claim_of_id(claims: Seq<ClaimModel>, id: Text)
    ensures
        ({
            let by_id = claims_by_id(distinct_paths(claims));
            &&& by_id.contains_key(id) ==> exists|n: int| #[trigger]
                is_first_claim(claims, id, n) && by_id[id] == claims[n]
            &&& forall|n: int| #[trigger]
                is_first_claim(claims, id, n) ==> by_id.contains_key(id) && by_id[id] == claims[n]
        }),
{
    let kept = distinct_paths(claims);
    let by_id = claims_by_id(kept);
    let at = lemma_claims_that_count_are_kept(claims);
    lemma_by_id(kept, id);
    if by_id.contains_key(id) {
        let k = choose|k: int|
            0 <= k < kept.len() && #[trigger] kept[k] == by_id[id] && kept[k].id == Some(id)
                && forall|j: int| 0 <= j < k ==> (#[trigger] kept[j]).id != Some(id);
        let n = at[k];
        assert(at.contains(n));
        assert(kept[k] == claims[n]);
        assert forall|m: int| 0 <= m < n && #[trigger] counts(claims, m) implies claims[m].id
            != Some(id) by {
            assert(at.contains(m));
            let j = choose|j: int| 0 <= j < at.len() && at[j] == m;
            if j >= k {
                assert(j > k ==> at[k] < at[j]);
            }
            assert(kept[j] == claims[m]);
        }
        assert(is_first_claim(claims, id, n));
        assert forall|o: int| #[trigger] is_first_claim(claims, id, o) implies by_id[id]
            == claims[o] by {
            if o < n {
                assert(counts(claims, o));
            }
            if n < o {
                assert(counts(claims, n));
            }
        }
    } else {
        assert forall|n: int| #[trigger] is_first_claim(claims, id, n) implies false by {
            assert(at.contains(n));
            let k = choose|k: int| 0 <= k < at.len() && at[k] == n;
            assert(kept[k] == claims[n]);
        }
    }
}

/// A claim set resolves to the claims that it names, and to none where it names none.
pub proof fn lemma_claim_sets_name_claims(
    claims: Seq<ClaimModel>,
    option: Seq<Text>,
    named: Seq<ClaimModel>,
)
    ensures
        ({
            let found = resolve_claim_set(claims_by_id(distinct_paths(claims)), option);
            &&& names_claims(claims, option, named) ==> found == named
            &&& found.len() > 0 ==> names_claims(claims, option, found)
        }),
{
    let by_id = claims_by_id(distinct_paths(claims));
    let found = resolve_claim_set(by_id, option);
    if names_claims(claims, option, named) {
        assert forall|i: int| 0 <= i < option.len() implies by_id.contains_key(
            #[trigger] option[i],
        ) && by_id[option[i]] == named[i] by {
            lemma_claim_of_id(claims, option[i]);
            assert(stands_for(claims, option[i], named[i]));
        }
        assert(found =~= named);
    }
    if found.len() > 0 {
        assert forall|i: int| 0 <= i < option.len() implies stands_for(
            claims,
            option[i],
            #[trigger] found[i],
        ) by {
            lemma_claim_of_id(claims, option[i]);
            assert(by_id.contains_key(option[i]));
        }
    }
}

/// The claim sets that count are those that name claims, in order.
proof fn lemma_valid_claim_sets(claims: Seq<ClaimModel>, options: Seq<Seq<Text>>) -> (at: Seq<int>)
    ensures
        ({
            let sets = valid_claim_sets(distinct_paths(claims), options);
            &&& at.len() == sets.len()
            &&& ascends(at, options.len())
            &&& forall|k: int|
                0 <= k < at.len() ==> names_claims(claims, options[#[trigger] at[k]], sets[k])
            &&& forall|j: int, named: Seq<ClaimModel>|
                0 <= j < options.len() && #[trigger] names_claims(claims, options[j], named)
                    ==> exists|k: int| 0 <= k < at.len() && #[trigger] at[k] == j && sets[k] == named
        }),
{
    let by_id = claims_by_id(distinct_paths(claims));
    let image = |option: Seq<Text>| resolve_claim_set(by_id, option);
    let all = options.map_values(image);
    let keep = |set: Seq<ClaimModel>| set.len() > 0;
    let sets = valid_claim_sets(distinct_paths(claims), options);
    let at = lemma_filtering_keeps_the_order(all, keep);
    assert(sets == all.filter(keep));
    assert forall|k: int| 0 <= k < at.len() implies names_claims(
        claims,
        options[#[trigger] at[k]],
        sets[k],
    ) by {
        assert(at.contains(at[k]));
        assert(keep(all[at[k]]));
        assert(sets[k] == all[at[k]]);
        lemma_claim_sets_name_claims(claims, options[at[k]], sets[k]);
    }
    assert forall|j: int, named: Seq<ClaimModel>|
        0 <= j < options.len() && #[trigger] names_claims(claims, options[j], named) implies exists|
        k: int,
    | 0 <= k < at.len() && #[trigger] at[k] == j && sets[k] == named by {
        lemma_claim_sets_name_claims(claims, options[j], named);
        assert(all[j] == named);
        assert(keep(all[j]));
        assert(at.contains(j));
        let k = choose|k: int| 0 <= k < at.len() && at[k] == j;
        assert(sets[k] == all[at[k]]);
    }
    at
}

/// Whether no claim set names claims, or there are no claim sets.
pub open spec fn names_nothing(claims: Seq<ClaimModel>, options: Option<Seq<Seq<Text>>>) -> bool {
    options matches Some(options) ==> forall|j: int, named: Seq<ClaimModel>|
        0 <= j < options.len() ==> !#[trigger] names_claims(claims, options[j], named)
}

/// Whether claims are exactly those that count, in order.
pub open spec fn are_all_that_count(found: Seq<ClaimModel>, claims: Seq<ClaimModel>) -> bool {
    exists|at: Seq<int>| #[trigger]
        drawn_at(found, claims, at) && forall|n: int| #[trigger]
            at.contains(n) <==> counts(claims, n)
}

/// The credentials that are left are those that hold the claims that are asked for, in order.
/// Where claim sets name claims, the claims are those of the first claim set that some credential
/// holds; where no credential holds one, none is left. Else the claims are all that count.
pub proof fn lemma_claim_sets_are_tried_in_order<S: CredentialStore>(
    store: S,
    query: CredentialQueryModel,
    creds: Seq<RefModel<S>>,
    written: Seq<ClaimModel>,
) -> (at: Seq<int>)
    requires
        members(query) matches Some(common) && common.claims == Some(written),
    ensures
        ({
            let (claims, left) = claim_selection(store, query, creds);
            let options = members(query)->0.claim_sets;
            &&& names_nothing(written, options) ==> are_all_that_count(claims, written)
            &&& names_nothing(written, options) || left.len() > 0 ==> drawn_at(left, creds, at)
                && forall|i: int|
                0 <= i < creds.len() ==> (#[trigger] at.contains(i) <==> has_claims(
                    store,
                    creds[i],
                    claims,
                ))
            &&& !names_nothing(written, options) && left.len() > 0 ==> exists|k: int|
                0 <= k < options->0.len() && #[trigger] names_claims(
                    written,
                    options->0[k],
                    claims,
                ) && forall|j: int, named: Seq<ClaimModel>, cred: RefModel<S>|
                    0 <= j < k && #[trigger] names_claims(written, options->0[j], named)
                        && #[trigger] creds.contains(cred) ==> !has_claims(store, cred, named)
            &&& !names_nothing(written, options) && left.len() == 0 ==> forall|
                j: int,
                named: Seq<ClaimModel>,
                cred: RefModel<S>,
            |
                0 <= j < options->0.len() && #[trigger] names_claims(written, options->0[j], named)
                    && #[trigger] creds.contains(cred) ==> !has_claims(store, cred, named)
        }),
{
    let (claims, left) = claim_selection(store, query, creds);
    let options = members(query)->0.claim_sets;
    let kept = distinct_paths(written);
    assert(query.claims() == Some(written));
    assert(query.claim_sets() == options);
    let counted = lemma_claims_that_count_are_kept(written);
    assert(are_all_that_count(kept, written)) by {
        assert(drawn_at(kept, written, counted));
    }
    let keep = |cred: RefModel<S>| claims_ok(store, cred, claims);
    let at = lemma_filtering_keeps_the_order(creds, keep);
    assert forall|i: int| 0 <= i < creds.len() implies (#[trigger] at.contains(i) <==> has_claims(
        store,
        creds[i],
        claims,
    )) by {
        lemma_claims_are_held(store, creds[i], claims);
    }
    assert forall|set: Seq<ClaimModel>, cred: RefModel<S>|
        (#[trigger] holding(store, set, creds)).len() == 0 && #[trigger] creds.contains(
            cred,
        ) implies !has_claims(store, cred, set) by {
        lemma_claims_are_held(store, cred, set);
        lemma_filter_contains(creds, |cred: RefModel<S>| claims_ok(store, cred, set));
        if claims_ok(store, cred, set) {
            assert(holding(store, set, creds).contains(cred));
        }
    }
    match options {
        None => {
            assert(left == creds.filter(keep));
        },
        Some(options) => {
            let sets = valid_claim_sets(kept, options);
            let from = lemma_valid_claim_sets(written, options);
            let held = |set: Seq<ClaimModel>| holding(store, set, creds).len() > 0;
            if sets.len() == 0 {
                assert(left == creds.filter(keep));
            } else {
                assert(names_claims(written, options[from[0]], sets[0]));
                assert(!names_nothing(written, Some(options)));
                lemma_first_where(sets, held);
                match first_where(sets, held) {
                    Some(p) => {
                        assert(left == creds.filter(keep));
                        assert(names_claims(written, options[from[p]], claims));
                        assert forall|j: int, named: Seq<ClaimModel>, cred: RefModel<S>|
                            0 <= j < from[p] && #[trigger] names_claims(written, options[j], named)
                                && #[trigger] creds.contains(cred) implies !has_claims(
                            store,
                            cred,
                            named,
                        ) by {
                            let q = choose|q: int|
                                0 <= q < from.len() && #[trigger] from[q] == j && sets[q] == named;
                            if q >= p {
                                assert(q > p ==> from[p] < from[q]);
                            }
                            assert(!held(sets[q]));
                            assert(holding(store, sets[q], creds).len() == 0);
                        }
                    },
                    None => {
                        assert forall|j: int, named: Seq<ClaimModel>, cred: RefModel<S>|
                            0 <= j < options.len() && #[trigger] names_claims(
                                written,
                                options[j],
                                named,
                            ) && #[trigger] creds.contains(cred) implies !has_claims(
                            store,
                            cred,
                            named,
                        ) by {
                            let q = choose|q: int|
                                0 <= q < from.len() && #[trigger] from[q] == j && sets[q] == named;
                            assert(!held(sets[q]));
                            assert(holding(store, sets[q], creds).len() == 0);
                        }
                    },
                }
            }
        },
    }
    at
}

/// A query without claims selects none, and rules out no credential.
pub proof fn lemma_no_claims_rule_nothing_out<S: CredentialStore>(
    store: S,
    query: CredentialQueryModel,
    creds: Seq<RefModel<S>>,
)
    requires
        members(query) matches Some(common) && common.claims is None,
    ensures
        claim_selection(store, query, creds).0.len() == 0,
        claim_selection(store, query, creds).1 == creds,
{
}

/// The claims that are selected with an offered credential are those that its credential query asks
/// for: none where it names none, the claims of one of the claim sets where claim sets name claims,
/// and else all that count.
pub proof fn lemma_selected_claims_are_asked_for<S: CredentialStore>(
    store: S,
    query: DcqlQueryModel,
    data: Option<Seq<TransactionDataModel>>,
    options: PlanOptionsModel,
    s: int,
    t: int,
    c: int,
) -> (i: int)
    requires
        plan(store, query, data, options) matches Ok(output) && 0 <= s < output.len() && 0 <= t
            < output[s].len() && 0 <= c < output[s][t].len() && output[s][t][c].credential_id is Some,
    ensures
        ({
            let selection = plan(store, query, data, options)->Ok_0[s][t][c];
            let common = members(query.credentials[i])->0;
            &&& is_first_with_id(query.credentials, i, selection.dcql_id)
            &&& match common.claims {
                None => selection.selected_claims.len() == 0,
                Some(written) => if names_nothing(written, common.claim_sets) {
                    are_all_that_count(selection.selected_claims, written)
                } else {
                    exists|k: int|
                        0 <= k < common.claim_sets->0.len() && #[trigger] names_claims(
                            written,
                            common.claim_sets->0[k],
                            selection.selected_claims,
                        )
                },
            }
        }),
{
    let selection = plan(store, query, data, options)->Ok_0[s][t][c];
    lemma_selections_are_sound(store, query, data, options, s, t, c);
    let i = lemma_offered_credentials_are_asked_for(store, query, data, options, s, t, c);
    let table = query_table(query.credentials);
    lemma_ids_stand_for_the_first_query(query.credentials, selection.dcql_id);
    let own = query.credentials[i];
    let f = choose|f: int| #[trigger]
        is_first_with_id(query.credentials, f, selection.dcql_id)
            && table.queries[selection.dcql_id] == query.credentials[f];
    assert(f == i) by {
        if f < i {
            assert(members(query.credentials[f]) is Some);
        }
        if i < f {
            assert(members(query.credentials[i]) is Some);
        }
    }
    let common = members(own)->0;
    if let Some(written) = common.claims {
        let kept = distinct_paths(written);
        assert(own.claims() == Some(written));
        assert(own.claim_sets() == common.claim_sets);
        let counted = lemma_claims_that_count_are_kept(written);
        assert(are_all_that_count(kept, written)) by {
            assert(drawn_at(kept, written, counted));
        }
        if let Some(sets) = common.claim_sets {
            let valid = valid_claim_sets(kept, sets);
            let from = lemma_valid_claim_sets(written, sets);
            if valid.len() > 0 {
                assert(names_claims(written, sets[from[0]], valid[0]));
                assert(!names_nothing(written, common.claim_sets));
                let k = choose|k: int|
                    0 <= k < valid.len() && valid[k] == selection.selected_claims;
                assert(names_claims(written, sets[from[k]], selection.selected_claims));
            } else {
                assert(names_nothing(written, common.claim_sets));
            }
        }
    }
    i
}

} // verus!
