//! What a user can choose for a credential query.

use crate::models::{ClaimModel, ClaimsQuery, TransactionData, TransactionDataModel};
use crate::planner::constraints::{as_ints, lemma_indices_step};
use crate::planner::options::{PlanOptions, PlanOptionsModel};
use crate::seqs::{first_where, indices_where, lemma_filter_step, lemma_first_where};
use crate::seqs::{lemma_first_where_is, lemma_take_all};
use crate::store::{lawful_refs, CredentialStore, RefModel};
use crate::text::{contains_text, same_text, Text};
use vstd::prelude::*;

verus! {

broadcast use vstd::string::group_string_axioms;

/// One selectable credential (or explicit empty choice) for a DCQL slot.
#[derive(Debug)]
pub struct CredentialSelection<C> {
    /// DCQL credential query id for this selection.
    pub dcql_id: String,
    /// Concrete credential reference, or `None` when representing "no credential".
    pub credential_id: Option<C>,
    /// Selected claim constraints for this dcql id.
    pub selected_claims: Vec<ClaimsQuery>,
    /// Transaction-data indices bound to this concrete selection.
    pub transaction_data_ids: Vec<usize>,
}

/// Model of [`CredentialSelection`].
pub struct SelectionModel<R> {
    pub dcql_id: Text,
    pub credential_id: Option<R>,
    pub selected_claims: Seq<ClaimModel>,
    pub transaction_data_ids: Seq<int>,
}

impl<C: DeepView> DeepView for CredentialSelection<C> {
    type V = SelectionModel<C::V>;

    open spec fn deep_view(&self) -> SelectionModel<C::V> {
        SelectionModel {
            dcql_id: self.dcql_id@,
            credential_id: self.credential_id.deep_view(),
            selected_claims: self.selected_claims.deep_view(),
            transaction_data_ids: as_ints(self.transaction_data_ids@),
        }
    }
}

/// Whether two lists of claim constraints are the same.
pub fn same_claims(left: &Vec<ClaimsQuery>, right: &Vec<ClaimsQuery>) -> (same: bool)
    ensures
        same == (left.deep_view() == right.deep_view()),
{
    let ghost (ls, rs) = (left.deep_view(), right.deep_view());
    if left.len() != right.len() {
        assert(ls.len() != rs.len());
        return false;
    }
    let mut i: usize = 0;
    while i < left.len()
        invariant
            i <= left.len(),
            left.len() == right.len(),
            ls == left.deep_view(),
            rs == right.deep_view(),
            forall|k: int| 0 <= k < i ==> #[trigger] ls[k] == rs[k],
        decreases left.len() - i,
    {
        assert(ls[i as int] == left@[i as int].deep_view());
        assert(rs[i as int] == right@[i as int].deep_view());
        if !left[i].same(&right[i]) {
            return false;
        }
        i = i + 1;
    }
    assert(ls =~= rs);
    true
}

/// Whether two lists of indices are the same.
fn same_indices(left: &Vec<usize>, right: &Vec<usize>) -> (same: bool)
    ensures
        same == (as_ints(left@) == as_ints(right@)),
{
    let ghost (ls, rs) = (as_ints(left@), as_ints(right@));
    if left.len() != right.len() {
        assert(ls.len() != rs.len());
        return false;
    }
    let mut i: usize = 0;
    while i < left.len()
        invariant
            i <= left.len(),
            left.len() == right.len(),
            ls == as_ints(left@),
            rs == as_ints(right@),
            forall|k: int| 0 <= k < i ==> #[trigger] ls[k] == rs[k],
        decreases left.len() - i,
    {
        if left[i] != right[i] {
            assert(ls[i as int] != rs[i as int]);
            return false;
        }
        i = i + 1;
    }
    assert(ls =~= rs);
    true
}

/// Copies claim constraints.
pub fn clone_claims(claims: &Vec<ClaimsQuery>) -> (copy: Vec<ClaimsQuery>)
    ensures
        copy.deep_view() == claims.deep_view(),
{
    let copy = claims.clone();
    assert(copy.deep_view() =~= claims.deep_view());
    copy
}

impl<C: DeepView + Clone + Eq> CredentialSelection<C> {
    /// Whether two selections are the same choice.
    pub fn same(&self, other: &CredentialSelection<C>) -> (same: bool)
        requires
            lawful_refs::<C>(),
        ensures
            same == (self.deep_view() == other.deep_view()),
    {
        let credentials = match (&self.credential_id, &other.credential_id) {
            (Some(a), Some(b)) => C::eq(a, b),
            (None, None) => true,
            _ => false,
        };
        same_text(self.dcql_id.as_str(), other.dcql_id.as_str()) && credentials && same_claims(
            &self.selected_claims,
            &other.selected_claims,
        ) && same_indices(&self.transaction_data_ids, &other.transaction_data_ids)
    }

    /// Copies a selection.
    pub fn copy(&self) -> (copy: CredentialSelection<C>)
        requires
            lawful_refs::<C>(),
        ensures
            copy.deep_view() == self.deep_view(),
    {
        CredentialSelection {
            dcql_id: self.dcql_id.clone(),
            credential_id: match &self.credential_id {
                Some(credential) => Some(credential.clone()),
                None => None,
            },
            selected_claims: clone_claims(&self.selected_claims),
            transaction_data_ids: self.transaction_data_ids.clone(),
        }
    }
}

/// How TS12 transaction data binds a credential.
#[derive(Debug, Clone, Copy, PartialEq, Eq)]
pub enum Ts12Selection {
    /// No TS12 transaction data names the credential query.
    Untargeted,
    /// The credential authorizes this transaction.
    Selected(usize),
    /// The credential query is named, but the credential can authorize none of the transactions.
    Incompatible,
}

/// Model of [`Ts12Selection`].
pub enum Ts12SelectionModel {
    Untargeted,
    Selected(int),
    Incompatible,
}

impl DeepView for Ts12Selection {
    type V = Ts12SelectionModel;

    open spec fn deep_view(&self) -> Ts12SelectionModel {
        match *self {
            Ts12Selection::Untargeted => Ts12SelectionModel::Untargeted,
            Ts12Selection::Selected(index) => Ts12SelectionModel::Selected(index as int),
            Ts12Selection::Incompatible => Ts12SelectionModel::Incompatible,
        }
    }
}

/// The TS12 transaction data that names a credential query.
pub open spec fn ts12_naming(
    options: PlanOptionsModel,
    id: Text,
    data: Seq<TransactionDataModel>,
    indices: Seq<int>,
) -> Seq<int> {
    indices.filter(
        |i: int| options.is_ts12(data[i].data_type) && data[i].credential_ids.contains(id),
    )
}

/// Which TS12 transaction a credential authorizes: the first that names its query and that it can
/// authorize.
pub open spec fn ts12_choice<S: CredentialStore>(
    store: S,
    options: PlanOptionsModel,
    id: Text,
    cred: RefModel<S>,
    data: Seq<TransactionDataModel>,
    indices: Seq<int>,
) -> Ts12SelectionModel {
    let naming = ts12_naming(options, id, data, indices);
    match first_where(naming, |i: int| store.can_sign(cred, data[i])) {
        Some(k) => Ts12SelectionModel::Selected(naming[k]),
        None => if naming.len() == 0 {
            Ts12SelectionModel::Untargeted
        } else {
            Ts12SelectionModel::Incompatible
        },
    }
}

/// Which TS12 transaction `cred` authorizes.
pub fn select_ts12_transaction_data<S: CredentialStore>(
    store: &S,
    options: &PlanOptions,
    id: &str,
    cred: &S::CredentialRef,
    data: &[TransactionData],
    indices: &Vec<usize>,
) -> (choice: Ts12Selection)
    requires
        forall|k: int| 0 <= k < indices.len() ==> (#[trigger] indices@[k]) < data@.len(),
    ensures
        choice.deep_view() == ts12_choice(
            *store,
            options.deep_view(),
            id@,
            cred.deep_view(),
            data.deep_view(),
            as_ints(indices@),
        ),
{
    let ghost all = data.deep_view();
    let ghost ints = as_ints(indices@);
    let ghost knobs = options.deep_view();
    let ghost names = |i: int|
        knobs.is_ts12(all[i].data_type) && all[i].credential_ids.contains(id@);
    let ghost signs = |i: int| store.can_sign(cred.deep_view(), all[i]);
    let ghost naming = ints.filter(names);
    let mut targeted = false;
    let mut i: usize = 0;
    proof {
        reveal(Seq::filter);
        assert(ints.take(0).filter(names) =~= Seq::<int>::empty());
    }
    while i < indices.len()
        invariant
            i <= indices.len(),
            all == data.deep_view(),
            ints == as_ints(indices@),
            knobs == options.deep_view(),
            names == (|i: int|
                knobs.is_ts12(all[i].data_type) && all[i].credential_ids.contains(id@)),
            signs == (|i: int| store.can_sign(cred.deep_view(), all[i])),
            naming == ints.filter(names),
            naming == ts12_naming(knobs, id@, all, ints),
            forall|k: int| 0 <= k < indices.len() ==> (#[trigger] indices@[k]) < data@.len(),
            targeted == (ints.take(i as int).filter(names).len() > 0),
            forall|k: int|
                0 <= k < ints.take(i as int).filter(names).len() ==> !signs(
                    #[trigger] ints.take(i as int).filter(names)[k],
                ),
        decreases indices.len() - i,
    {
        let at: usize = indices[i];
        let item = &data[at];
        let ghost earlier = ints.take(i as int).filter(names);
        let ghost now = ints.take(i + 1).filter(names);
        let named = item.credential_ids.as_slice();
        proof {
            assert(ints[i as int] == at);
            assert(all[at as int] == item.deep_view());
            assert(named.deep_view() =~= item.deep_view().credential_ids);
            lemma_filter_step(ints, names, i as int);
        }
        i = i + 1;
        if !options.is_ts12_transaction_data_type(item.data_type.as_str()) || !contains_text(
            named,
            id,
        ) {
            continue;
        }
        targeted = true;
        if store.can_sign_transaction_data(cred, item) {
            proof {
                let prefix = ints.take(i as int);
                let rest = ints.skip(i as int);
                assert(ints =~= prefix + rest);
                Seq::filter_distributes_over_add(prefix, rest, names);
                let k = earlier.len() as int;
                assert(naming[k] == now[k]);
                assert forall|j: int| 0 <= j < k implies !signs(#[trigger] naming[j]) by {
                    assert(naming[j] == earlier[j]);
                }
                lemma_first_where_is(naming, signs, k);
            }
            return Ts12Selection::Selected(at);
        }
        proof {
            assert forall|k: int| 0 <= k < now.len() implies !signs(#[trigger] now[k]) by {
                if k < earlier.len() {
                    assert(now[k] == earlier[k]);
                }
            }
        }
    }
    proof {
        lemma_take_all(ints);
        lemma_first_where(naming, signs);
    }
    if targeted {
        Ts12Selection::Incompatible
    } else {
        Ts12Selection::Untargeted
    }
}

/// The transaction data that a selection authorizes, in ascending order: what is bound to its
/// credential query, and the TS12 transaction that the credential authorizes.
pub open spec fn authorized(
    bindings: Seq<Option<Text>>,
    id: Text,
    choice: Ts12SelectionModel,
) -> Seq<int> {
    indices_where(
        bindings.len(),
        |i: int| bindings[i] == Some(id) || choice == Ts12SelectionModel::Selected(i),
    )
}

/// What a user can choose for a credential query: the credentials that no TS12 transaction rules
/// out.
pub open spec fn selections<S: CredentialStore>(
    store: S,
    options: PlanOptionsModel,
    data: Seq<TransactionDataModel>,
    indices: Seq<int>,
    bindings: Seq<Option<Text>>,
    id: Text,
    claims: Seq<ClaimModel>,
    creds: Seq<RefModel<S>>,
) -> Seq<SelectionModel<RefModel<S>>> {
    creds.filter(
        |cred: RefModel<S>|
            ts12_choice(store, options, id, cred, data, indices)
                != Ts12SelectionModel::Incompatible,
    ).map_values(
        |cred: RefModel<S>|
            SelectionModel {
                dcql_id: id,
                credential_id: Some(cred),
                selected_claims: claims,
                transaction_data_ids: authorized(
                    bindings,
                    id,
                    ts12_choice(store, options, id, cred, data, indices),
                ),
            },
    )
}

/// The indices of the transaction data that a selection authorizes, in ascending order.
fn authorized_indices(
    bindings: &Vec<Option<String>>,
    id: &str,
    choice: Ts12Selection,
) -> (indices: Vec<usize>)
    ensures
        as_ints(indices@) == authorized(bindings.deep_view(), id@, choice.deep_view()),
{
    let ghost binds = bindings.deep_view();
    let ghost wanted = |i: int|
        binds[i] == Some(id@) || choice.deep_view() == Ts12SelectionModel::Selected(i);
    let mut indices: Vec<usize> = Vec::new();
    proof {
        reveal(Seq::filter);
        assert(as_ints(indices@) =~= indices_where(0, wanted));
    }
    let mut i: usize = 0;
    while i < bindings.len()
        invariant
            i <= bindings.len(),
            binds == bindings.deep_view(),
            wanted == (|i: int|
                binds[i] == Some(id@) || choice.deep_view() == Ts12SelectionModel::Selected(i)),
            as_ints(indices@) == indices_where(i as nat, wanted),
        decreases bindings.len() - i,
    {
        proof {
            lemma_indices_step(binds.len(), wanted, i as int);
            assert(binds[i as int] == bindings@[i as int].deep_view());
        }
        let is_bound = match &bindings[i] {
            Some(bound_id) => same_text(bound_id.as_str(), id),
            None => false,
        };
        let is_chosen = match choice {
            Ts12Selection::Selected(index) => index == i,
            _ => false,
        };
        if is_bound || is_chosen {
            let ghost before = as_ints(indices@);
            indices.push(i);
            assert(as_ints(indices@) =~= before.push(i as int));
        }
        i = i + 1;
    }
    indices
}

/// What a user can choose for the credential query `id`.
pub fn selections_for_query<S: CredentialStore>(
    store: &S,
    options: &PlanOptions,
    data: &[TransactionData],
    indices: &Vec<usize>,
    bindings: &Vec<Option<String>>,
    id: &str,
    claims: &Vec<ClaimsQuery>,
    creds: &Vec<S::CredentialRef>,
) -> (out: Vec<CredentialSelection<S::CredentialRef>>)
    requires
        lawful_refs::<S::CredentialRef>(),
        forall|k: int| 0 <= k < indices.len() ==> (#[trigger] indices@[k]) < data@.len(),
    ensures
        out.deep_view() == selections(
            *store,
            options.deep_view(),
            data.deep_view(),
            as_ints(indices@),
            bindings.deep_view(),
            id@,
            claims.deep_view(),
            creds.deep_view(),
        ),
{
    let ghost all = creds.deep_view();
    let ghost choice_of = |cred: RefModel<S>|
        ts12_choice(
            *store,
            options.deep_view(),
            id@,
            cred,
            data.deep_view(),
            as_ints(indices@),
        );
    let ghost keep = |cred: RefModel<S>|
        ts12_choice(
            *store,
            options.deep_view(),
            id@,
            cred,
            data.deep_view(),
            as_ints(indices@),
        ) != Ts12SelectionModel::Incompatible;
    let ghost image = |cred: RefModel<S>|
        SelectionModel {
            dcql_id: id@,
            credential_id: Some(cred),
            selected_claims: claims.deep_view(),
            transaction_data_ids: authorized(
                bindings.deep_view(),
                id@,
                ts12_choice(
                    *store,
                    options.deep_view(),
                    id@,
                    cred,
                    data.deep_view(),
                    as_ints(indices@),
                ),
            ),
        };
    let mut out: Vec<CredentialSelection<S::CredentialRef>> = Vec::new();
    assert(out.deep_view() =~= all.take(0).filter(keep).map_values(image));
    let mut i: usize = 0;
    while i < creds.len()
        invariant
            lawful_refs::<S::CredentialRef>(),
            i <= creds.len(),
            all == creds.deep_view(),
            forall|k: int| 0 <= k < indices.len() ==> (#[trigger] indices@[k]) < data@.len(),
            choice_of == (|cred: RefModel<S>|
                ts12_choice(
                    *store,
                    options.deep_view(),
                    id@,
                    cred,
                    data.deep_view(),
                    as_ints(indices@),
                )),
            forall|cred: RefModel<S>| #[trigger]
                keep(cred) == (choice_of(cred) != Ts12SelectionModel::Incompatible),
            forall|cred: RefModel<S>| #[trigger]
                image(cred) == (SelectionModel {
                    dcql_id: id@,
                    credential_id: Some(cred),
                    selected_claims: claims.deep_view(),
                    transaction_data_ids: authorized(bindings.deep_view(), id@, choice_of(cred)),
                }),
            out.deep_view() == all.take(i as int).filter(keep).map_values(image),
        decreases creds.len() - i,
    {
        let cred = &creds[i];
        let choice = select_ts12_transaction_data(store, options, id, cred, data, indices);
        proof {
            assert(all[i as int] == cred.deep_view());
            assert(choice.deep_view() == choice_of(cred.deep_view()));
            lemma_filter_step(all, keep, i as int);
        }
        i = i + 1;
        let incompatible = match choice {
            Ts12Selection::Incompatible => true,
            _ => false,
        };
        if incompatible {
            continue;
        }
        let selection = CredentialSelection {
            dcql_id: id.to_owned(),
            credential_id: Some(cred.clone()),
            selected_claims: clone_claims(claims),
            transaction_data_ids: authorized_indices(bindings, id, choice),
        };
        let ghost before = out.deep_view();
        let ghost kept = all.take(i - 1).filter(keep);
        let ghost model = selection.deep_view();
        out.push(selection);
        proof {
            assert(model == image(cred.deep_view()));
            assert(out.deep_view() =~= before.push(model));
            assert(kept.push(cred.deep_view()).map_values(image) =~= kept.map_values(image).push(
                model,
            ));
        }
    }
    proof {
        lemma_take_all(all);
    }
    out
}

} // verus!
