//! What transaction data asks of a plan.

use crate::idset::IdSet;
use crate::models::{CredentialSetModel, CredentialSetQuery, TransactionData, TransactionDataModel};
use crate::planner::configs::Config;
use crate::planner::error::PlanError;
use crate::planner::index::{QueryIndex, QueryTable};
use crate::planner::options::{PlanOptions, PlanOptionsModel};
use crate::planner::slots::{decompose_slots, decomposition, dedupe_order, in_some, retain_present};
use crate::seqs::{distinct, first_where, indices_where, lemma_filter_contains, lemma_filter_step};
use crate::seqs::{lemma_first_where, lemma_first_where_is, lemma_flat_map_empty};
use crate::seqs::{lemma_flat_map_step, lemma_take_all};
use crate::text::Text;
use vstd::prelude::*;

verus! {

broadcast use vstd::string::group_string_axioms;

/// Message for SCA transaction data whose credentials are spread over credential sets.
pub const SPREAD_OVER_SETS: &'static str =
    "SCA transaction_data credential ids must appear in the same credential set";

/// Message for SCA credentials that cannot be offered in slots.
pub const NOT_TRANSPOSABLE: &'static str =
    "SCA-targeted credential set options are not transposable";

/// Indices as mathematical integers.
pub open spec fn as_ints(indices: Seq<usize>) -> Seq<int> {
    indices.map_values(|i: usize| i as int)
}

/// Whether transaction data can be bound to one of the credentials that it names.
pub open spec fn usable(table: QueryTable, data: TransactionDataModel) -> bool {
    exists|k: int|
        0 <= k < data.credential_ids.len() && table.is_target(#[trigger] data.credential_ids[k])
}

/// The usable transaction data outside of TS12: each has to be bound to one credential.
pub open spec fn generic_indices(
    table: QueryTable,
    data: Seq<TransactionDataModel>,
    options: PlanOptionsModel,
) -> Seq<int> {
    indices_where(
        data.len(),
        |i: int| usable(table, data[i]) && !options.is_ts12(data[i].data_type),
    )
}

/// The usable TS12 transaction data: every credential that is named signs one of them.
pub open spec fn ts12_indices(
    table: QueryTable,
    data: Seq<TransactionDataModel>,
    options: PlanOptionsModel,
) -> Seq<int> {
    indices_where(
        data.len(),
        |i: int| usable(table, data[i]) && options.is_ts12(data[i].data_type),
    )
}

/// Whether usable TS12 transaction data names a credential query that can sign.
pub open spec fn ts12_named(
    table: QueryTable,
    data: Seq<TransactionDataModel>,
    indices: Seq<int>,
    id: Text,
) -> bool {
    table.is_target(id) && exists|k: int|
        0 <= k < indices.len() && data[#[trigger] indices[k]].credential_ids.contains(id)
}

/// The credential queries that usable TS12 transaction data names.
pub open spec fn ts12_ids(
    table: QueryTable,
    data: Seq<TransactionDataModel>,
    indices: Seq<int>,
) -> Config {
    Set::new(|id: Text| ts12_named(table, data, indices, id))
}

/// The ids of all options, in the order in which they are written.
pub open spec fn written_ids(options: Seq<Seq<Text>>) -> Seq<Text> {
    options.flat_map(|option: Seq<Text>| option)
}

/// Whether an option names one of the ids.
pub open spec fn names_any(option: Seq<Text>, ids: Config) -> bool {
    exists|k: int| 0 <= k < option.len() && ids.contains(#[trigger] option[k])
}

/// The options that name one of the ids.
pub open spec fn options_naming(options: Seq<Seq<Text>>, ids: Config) -> Seq<Config> {
    options.filter(|option: Seq<Text>| names_any(option, ids)).map_values(
        |option: Seq<Text>| option.to_set(),
    )
}

/// Whether the options of a credential set that name TS12 credentials can be offered in slots.
pub open spec fn transposable(set: CredentialSetModel, ids: Config) -> bool {
    let options = options_naming(set.options, ids);
    let order = distinct(written_ids(set.options).filter(|id: Text| in_some(options, id)));
    decomposition(options, order) is Some
}

/// What is wrong with the credential sets of a query with TS12 transaction data: the credentials
/// that it names have to be in one credential set, and that set has to be transposable.
pub open spec fn ts12_fault(
    credential_sets: Option<Seq<CredentialSetModel>>,
    ids: Config,
) -> Option<Text> {
    match credential_sets {
        Some(sets) => if ids == Set::<Text>::empty() {
            None
        } else {
            match first_where(
                sets,
                |set: CredentialSetModel| ids.subset_of(written_ids(set.options).to_set()),
            ) {
                None => Some(SPREAD_OVER_SETS@),
                Some(k) => if transposable(sets[k], ids) {
                    None
                } else {
                    Some(NOT_TRANSPOSABLE@)
                },
            }
        },
        None => None,
    }
}

/// Every index in the listing is in range and satisfies the condition.
pub proof fn lemma_indices_where(bound: nat, wanted: spec_fn(int) -> bool, k: int)
    requires
        0 <= k < indices_where(bound, wanted).len(),
    ensures
        0 <= indices_where(bound, wanted)[k] < bound,
        wanted(indices_where(bound, wanted)[k]),
{
    let all = Seq::new(bound, |i: int| i);
    lemma_filter_contains(all, wanted);
    let found = indices_where(bound, wanted)[k];
    assert(all.filter(wanted).contains(found));
    assert(all.contains(found));
}

/// One step of a loop that collects indices.
pub proof fn lemma_indices_step(bound: nat, wanted: spec_fn(int) -> bool, i: int)
    requires
        0 <= i < bound,
    ensures
        indices_where((i + 1) as nat, wanted) == if wanted(i) {
            indices_where(i as nat, wanted).push(i)
        } else {
            indices_where(i as nat, wanted)
        },
{
    let all = Seq::new(bound, |i: int| i);
    lemma_filter_step(all, wanted, i);
    assert(all.take(i + 1) =~= Seq::new((i + 1) as nat, |i: int| i));
    assert(all.take(i) =~= Seq::new(i as nat, |i: int| i));
}

/// The ids of all options, in the order in which they are written.
pub fn flatten_options(options: &Vec<Vec<String>>) -> (ids: Vec<String>)
    ensures
        ids.deep_view() == written_ids(options.deep_view()),
{
    let ghost all = options.deep_view();
    let ghost same = |option: Seq<Text>| option;
    let mut ids: Vec<String> = Vec::new();
    proof {
        lemma_flat_map_empty(all.take(0), same);
        assert(ids.deep_view() =~= all.take(0).flat_map(same));
    }
    let mut i: usize = 0;
    while i < options.len()
        invariant
            i <= options.len(),
            all == options.deep_view(),
            same == (|option: Seq<Text>| option),
            ids.deep_view() == all.take(i as int).flat_map(same),
        decreases options.len() - i,
    {
        let ghost before = ids.deep_view();
        let mut copy = options[i].clone();
        proof {
            assert(copy.deep_view() =~= options@[i as int].deep_view());
            lemma_flat_map_step(all, same, i as int);
        }
        ids.append(&mut copy);
        assert(ids.deep_view() =~= before + all[i as int]);
        i = i + 1;
    }
    proof {
        lemma_take_all(all);
    }
    ids
}

/// Whether `option` names one of `ids`.
fn names_one_of(option: &Vec<String>, ids: &IdSet) -> (found: bool)
    ensures
        found == names_any(option.deep_view(), ids@),
{
    let ghost all = option.deep_view();
    let mut i: usize = 0;
    while i < option.len()
        invariant
            i <= option.len(),
            all == option.deep_view(),
            forall|j: int| 0 <= j < i ==> !ids@.contains(#[trigger] all[j]),
        decreases option.len() - i,
    {
        assert(all[i as int] == option@[i as int]@);
        if ids.contains(option[i].as_str()) {
            return true;
        }
        i = i + 1;
    }
    false
}

/// The options that name one of `ids`.
fn select_options(options: &Vec<Vec<String>>, ids: &IdSet) -> (selected: Vec<IdSet>)
    ensures
        selected.deep_view() == options_naming(options.deep_view(), ids@),
{
    let ghost all = options.deep_view();
    let ghost keep = |option: Seq<Text>| names_any(option, ids@);
    let ghost collect = |option: Seq<Text>| option.to_set();
    let mut selected: Vec<IdSet> = Vec::new();
    assert(selected.deep_view() =~= all.take(0).filter(keep).map_values(collect));
    let mut i: usize = 0;
    while i < options.len()
        invariant
            i <= options.len(),
            all == options.deep_view(),
            keep == (|option: Seq<Text>| names_any(option, ids@)),
            collect == (|option: Seq<Text>| option.to_set()),
            selected.deep_view() == all.take(i as int).filter(keep).map_values(collect),
        decreases options.len() - i,
    {
        let option = &options[i];
        proof {
            assert(all[i as int] == option.deep_view());
            lemma_filter_step(all, keep, i as int);
        }
        if names_one_of(option, ids) {
            let ghost before = selected.deep_view();
            let ghost kept = all.take(i as int).filter(keep);
            selected.push(IdSet::collect(option.as_slice()));
            proof {
                assert(selected.deep_view() =~= before.push(option.deep_view().to_set()));
                assert(kept.push(option.deep_view()).map_values(collect) =~= kept.map_values(
                    collect,
                ).push(option.deep_view().to_set()));
            }
        }
        i = i + 1;
    }
    proof {
        lemma_take_all(all);
    }
    selected
}

/// The credential sets of a query, as TS12 transaction data constrains them.
pub struct Ts12CredentialSet;

impl Ts12CredentialSet {
    /// The credential queries that usable TS12 transaction data names.
    fn named(
        index: &QueryIndex<'_>,
        data: &[TransactionData],
        indices: &Vec<usize>,
    ) -> (ids: IdSet)
        requires
            index.well_formed(),
            forall|k: int| 0 <= k < indices.len() ==> (#[trigger] indices@[k]) < data@.len(),
        ensures
            ids@ == ts12_ids(index@, data.deep_view(), as_ints(indices@)),
    {
        let ghost all = data.deep_view();
        let ghost ints = as_ints(indices@);
        let mut ids = IdSet::new();
        let mut i: usize = 0;
        while i < indices.len()
            invariant
                i <= indices.len(),
                index.well_formed(),
                all == data.deep_view(),
                ints == as_ints(indices@),
                forall|k: int| 0 <= k < indices.len() ==> (#[trigger] indices@[k]) < data@.len(),
                forall|id: Text| #[trigger]
                    ids@.contains(id) <==> ts12_named(index@, all, ints.take(i as int), id),
            decreases indices.len() - i,
        {
            let item = &data[indices[i]];
            let ghost before = ids@;
            let ghost named = item.credential_ids.deep_view();
            let mut j: usize = 0;
            assert(all[ints[i as int]] == item.deep_view());
            while j < item.credential_ids.len()
                invariant
                    j <= item.credential_ids.len(),
                    index.well_formed(),
                    named == item.credential_ids.deep_view(),
                    forall|id: Text| #[trigger]
                        ids@.contains(id) <==> before.contains(id) || (index@.is_target(id)
                            && named.take(j as int).contains(id)),
                decreases item.credential_ids.len() - j,
            {
                let id = item.credential_ids[j].as_str();
                let ghost inner = ids@;
                if index.transaction_data_targets.contains(id) {
                    ids = ids.with(id.to_owned());
                }
                proof {
                    assert(named[j as int] == id@);
                    assert(named.take(j + 1) =~= named.take(j as int).push(id@));
                    assert forall|x: Text| #[trigger]
                        ids@.contains(x) <==> before.contains(x) || (index@.is_target(x)
                            && named.take(j + 1).contains(x)) by {
                        crate::seqs::lemma_push_contains(named.take(j as int), id@, x);
                        assert(inner.contains(x) <==> before.contains(x) || (index@.is_target(x)
                            && named.take(j as int).contains(x)));
                    }
                }
                j = j + 1;
            }
            proof {
                lemma_take_all(named);
                let earlier = ints.take(i as int);
                let now = ints.take(i + 1);
                assert forall|id: Text| #[trigger]
                    ids@.contains(id) <==> ts12_named(index@, all, now, id) by {
                    assert(before.contains(id) <==> ts12_named(index@, all, earlier, id));
                    if ts12_named(index@, all, earlier, id) {
                        let k = choose|k: int|
                            0 <= k < earlier.len() && all[#[trigger] earlier[k]]
                                .credential_ids.contains(id);
                        assert(now[k] == earlier[k]);
                    }
                    if ts12_named(index@, all, now, id) {
                        let k = choose|k: int|
                            0 <= k < now.len() && all[#[trigger] now[k]].credential_ids.contains(
                                id,
                            );
                        if k < i {
                            assert(earlier[k] == now[k]);
                        }
                    }
                    if index@.is_target(id) && named.contains(id) {
                        assert(now[i as int] == ints[i as int]);
                    }
                }
            }
            i = i + 1;
        }
        proof {
            lemma_take_all(ints);
            assert(ids@ =~= ts12_ids(index@, all, ints));
        }
        ids
    }

    /// Checks the credential sets of a query against the TS12 transaction data at `indices`.
    ///
    /// There is nothing to hand back when no credential query is named.
    pub fn build(
        credential_sets: &Option<Vec<CredentialSetQuery>>,
        index: &QueryIndex<'_>,
        data: &[TransactionData],
        indices: &Vec<usize>,
    ) -> (built: Result<Option<Ts12CredentialSet>, PlanError>)
        requires
            index.well_formed(),
            forall|k: int| 0 <= k < indices.len() ==> (#[trigger] indices@[k]) < data@.len(),
        ensures
            ({
                let ids = ts12_ids(index@, data.deep_view(), as_ints(indices@));
                let fault = ts12_fault(credential_sets.deep_view(), ids);
                match built {
                    Ok(set) => fault is None && (set is None <==> ids == Set::<Text>::empty()),
                    Err(PlanError::InvalidQuery(reason)) => fault == Some(reason@),
                    Err(PlanError::Unsatisfied) => false,
                }
            }),
    {
        let ids = Self::named(index, data, indices);
        if ids.is_empty() {
            return Ok(None);
        }
        let sets = match credential_sets {
            Some(sets) => sets,
            None => return Ok(Some(Ts12CredentialSet)),
        };
        let ghost all = sets.deep_view();
        let ghost contained = |set: CredentialSetModel|
            ids@.subset_of(written_ids(set.options).to_set());
        let mut at: usize = 0;
        let mut found = false;
        while at < sets.len() && !found
            invariant
                at <= sets.len(),
                all == sets.deep_view(),
                contained == (|set: CredentialSetModel|
                    ids@.subset_of(written_ids(set.options).to_set())),
                found ==> at < sets.len() && contained(all[at as int]),
                forall|j: int| 0 <= j < at ==> !contained(#[trigger] all[j]),
            decreases sets.len() - at + if found { 0int } else { 1 },
        {
            assert(all[at as int] == sets@[at as int].deep_view());
            let written = flatten_options(&sets[at].options);
            let in_set = IdSet::collect(written.as_slice());
            if ids.is_subset(&in_set) {
                found = true;
            } else {
                at = at + 1;
            }
        }
        proof {
            lemma_first_where(all, contained);
        }
        if !found {
            return Err(PlanError::InvalidQuery(SPREAD_OVER_SETS.to_owned()));
        }
        proof {
            lemma_first_where_is(all, contained, at as int);
        }
        let set = &sets[at];
        let options = select_options(&set.options, &ids);
        let order = dedupe_order(retain_present(&flatten_options(&set.options), &options));
        if decompose_slots(&options, &order).is_none() {
            return Err(PlanError::InvalidQuery(NOT_TRANSPOSABLE.to_owned()));
        }
        Ok(Some(Ts12CredentialSet))
    }
}

/// The transaction data of a request, sorted by how it is bound to credentials.
pub struct TransactionConstraints<'a> {
    /// All transaction data.
    pub data: &'a [TransactionData],
    /// Indices of the usable data outside of TS12.
    pub generic_indices: Vec<usize>,
    /// Indices of the usable TS12 data.
    pub ts12_indices: Vec<usize>,
}

impl<'a> TransactionConstraints<'a> {
    /// The indices are those of the usable data of either sort.
    pub open spec fn sorted_for(&self, table: QueryTable, options: PlanOptionsModel) -> bool {
        &&& as_ints(self.generic_indices@) == generic_indices(table, self.data.deep_view(), options)
        &&& as_ints(self.ts12_indices@) == ts12_indices(table, self.data.deep_view(), options)
    }

    /// Sorts `data`, and checks the credential sets of the query against it.
    pub fn build(
        credential_sets: &Option<Vec<CredentialSetQuery>>,
        index: &QueryIndex<'_>,
        data: &'a [TransactionData],
        options: &PlanOptions,
    ) -> (built: Result<TransactionConstraints<'a>, PlanError>)
        requires
            index.well_formed(),
        ensures
            ({
                let ids = ts12_ids(
                    index@,
                    data.deep_view(),
                    ts12_indices(index@, data.deep_view(), options.deep_view()),
                );
                let fault = ts12_fault(credential_sets.deep_view(), ids);
                match built {
                    Ok(constraints) => fault is None && constraints.data == data
                        && constraints.sorted_for(index@, options.deep_view()),
                    Err(PlanError::InvalidQuery(reason)) => fault == Some(reason@),
                    Err(PlanError::Unsatisfied) => false,
                }
            }),
    {
        let ghost all = data.deep_view();
        let ghost table = index@;
        let ghost knobs = options.deep_view();
        let ghost is_generic = |i: int| usable(table, all[i]) && !knobs.is_ts12(all[i].data_type);
        let ghost is_ts12 = |i: int| usable(table, all[i]) && knobs.is_ts12(all[i].data_type);
        let mut generic: Vec<usize> = Vec::new();
        let mut ts12: Vec<usize> = Vec::new();
        let mut i: usize = 0;
        proof {
            reveal(Seq::filter);
            assert(as_ints(generic@) =~= indices_where(0, is_generic));
            assert(as_ints(ts12@) =~= indices_where(0, is_ts12));
        }
        while i < data.len()
            invariant
                i <= data@.len(),
                index.well_formed(),
                all == data.deep_view(),
                table == index@,
                knobs == options.deep_view(),
                is_generic == (|i: int|
                    usable(table, all[i]) && !knobs.is_ts12(all[i].data_type)),
                is_ts12 == (|i: int| usable(table, all[i]) && knobs.is_ts12(all[i].data_type)),
                as_ints(generic@) == indices_where(i as nat, is_generic),
                as_ints(ts12@) == indices_where(i as nat, is_ts12),
            decreases data@.len() - i,
        {
            let item = &data[i];
            proof {
                assert(all[i as int] == item.deep_view());
                lemma_indices_step(all.len(), is_generic, i as int);
                lemma_indices_step(all.len(), is_ts12, i as int);
            }
            if Self::is_usable(index, item) {
                if options.is_ts12_transaction_data_type(item.data_type.as_str()) {
                    let ghost before = as_ints(ts12@);
                    ts12.push(i);
                    assert(as_ints(ts12@) =~= before.push(i as int));
                } else {
                    let ghost before = as_ints(generic@);
                    generic.push(i);
                    assert(as_ints(generic@) =~= before.push(i as int));
                }
            }
            i = i + 1;
        }
        proof {
            assert forall|k: int| 0 <= k < ts12.len() implies (#[trigger] ts12@[k]) < data@.len() by {
                lemma_indices_where(all.len(), is_ts12, k);
                assert(as_ints(ts12@)[k] == ts12@[k]);
            }
        }
        match Ts12CredentialSet::build(credential_sets, index, data, &ts12) {
            Ok(_) => Ok(
                TransactionConstraints { data, generic_indices: generic, ts12_indices: ts12 },
            ),
            Err(error) => Err(error),
        }
    }

    /// Whether `item` can be bound to one of the credentials that it names.
    fn is_usable(index: &QueryIndex<'_>, item: &TransactionData) -> (is: bool)
        requires
            index.well_formed(),
        ensures
            is == usable(index@, item.deep_view()),
    {
        let ghost named = item.deep_view().credential_ids;
        let mut i: usize = 0;
        while i < item.credential_ids.len()
            invariant
                i <= item.credential_ids.len(),
                index.well_formed(),
                named == item.deep_view().credential_ids,
                forall|j: int| 0 <= j < i ==> !index@.is_target(#[trigger] named[j]),
            decreases item.credential_ids.len() - i,
        {
            assert(named[i as int] == item.credential_ids@[i as int]@);
            if index.transaction_data_targets.contains(item.credential_ids[i].as_str()) {
                return true;
            }
            i = i + 1;
        }
        false
    }

    /// Whether there is usable TS12 transaction data.
    pub fn has_ts12(&self) -> (has: bool)
        ensures
            has == (self.ts12_indices@.len() > 0),
    {
        self.ts12_indices.len() > 0
    }
}

} // verus!
