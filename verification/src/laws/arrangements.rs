//! What holds of how choices are arranged.

use crate::idset::{lemma_sorted_listing, sorted_ids};
use crate::laws::choices::{is_for_authorization, names_a_query};
use crate::laws::choices::lemma_kinds_of_transaction_data;
use crate::laws::claims::{is_first_with_id, lemma_ids_stand_for_the_first_query};
use crate::laws::listings::{ascends, drawn_at, lemma_filtering_keeps_the_order};
use crate::laws::listings::{lemma_the_first_is_found, lemma_the_first_occurrence_stays};
use crate::models::{CredentialQueryModel, CredentialSetModel, DcqlQueryModel, TransactionDataModel};
use crate::planner::configs::{configs_of, Config};
use crate::planner::constraints::{names_any, options_naming, transposable, ts12_fault, ts12_ids};
use crate::planner::constraints::{lemma_indices_where, ts12_indices, usable, written_ids};
use crate::planner::error::PlanErrorModel;
use crate::planner::index::{query_table, QueryTable};
use crate::planner::options::PlanOptionsModel;
use crate::planner::plan::{config_order, data_or_none, first_option, first_options, plan};
use crate::planner::presentation::{bound_alike, choices_for, display_order, factored, mentioned};
use crate::planner::presentation::{no_selection, presented, slot_choices, slots_of};
use crate::planner::presentation::{unfactored, AlternativeModel, OutputModel};
use crate::planner::selections::SelectionModel;
use crate::planner::slots::{decomposition, in_some, is_product, lemma_decomposition_is_faithful};
use crate::planner::slots::{picked, search, search_from, slot_models, touches, valid_picks};
use crate::planner::slots::SlotModel;
use crate::planner::transactions::{bound, bound_to, by_options, lemma_by_options, matched_ids};
use crate::planner::transactions::{place_for, signing, AssignmentModel, DomainsModel};
use crate::planner::transactions::TaskModel;
use crate::seqs::{distinct, first_where, lemma_distinct, lemma_flat_map_contains};
use crate::seqs::lemma_flat_map_empty;
use crate::seqs::{lemma_flat_map_step, lemma_take_all};
use crate::store::{CredentialStore, RefModel};
use crate::text::Text;
use vstd::prelude::*;

verus! {

/// Transaction data with fewer credential queries to choose from is bound earlier. Of two with
/// equally many the earlier stays the earlier: one more goes behind all that have no more to choose
/// from than it has, and before all that have.
pub proof fn lemma_the_most_constrained_come_first(tasks: Seq<TaskModel>, task: TaskModel) -> (at:
    int)
    ensures
        by_options(Seq::empty()).len() == 0,
        ({
            let before = by_options(tasks);
            let all = by_options(tasks.push(task));
            &&& 0 <= at <= before.len()
            &&& all.len() == before.len() + 1
            &&& all[at] == task
            &&& all.remove(at) == before
            &&& forall|i: int|
                0 <= i < at ==> (#[trigger] before[i]).options.len() <= task.options.len()
            &&& forall|i: int|
                at <= i < before.len() ==> (#[trigger] before[i]).options.len()
                    > task.options.len()
        }),
{
    let before = by_options(tasks);
    let all = by_options(tasks.push(task));
    let longer = |other: TaskModel| other.options.len() > task.options.len();
    assert(tasks.push(task).drop_last() =~= tasks);
    lemma_by_options(tasks);
    lemma_the_first_is_found(before, longer);
    let at = place_for(before, task);
    assert(all == before.insert(at, task));
    assert(all.remove(at) =~= before);
    assert forall|i: int| 0 <= i < at implies (#[trigger] before[i]).options.len()
        <= task.options.len() by {
        assert(!longer(before[i]));
    }
    assert forall|i: int| at <= i < before.len() implies (#[trigger] before[i]).options.len()
        > task.options.len() by {
        assert(longer(before[at]));
        if at < i {
            assert(before[at].options.len() <= before[i].options.len());
        }
    }
    at
}

/// Whether a credential set mentions an id.
pub open spec fn mentions(set: CredentialSetModel, id: Text) -> bool {
    exists|o: int, j: int|
        0 <= o < set.options.len() && 0 <= j < set.options[o].len()
            && #[trigger] set.options[o][j] == id
}

/// Whether a credential set mentions all of these ids.
pub open spec fn mentions_all(set: CredentialSetModel, ids: Config) -> bool {
    forall|id: Text| #[trigger] ids.contains(id) ==> mentions(set, id)
}

proof fn lemma_written(set: CredentialSetModel, id: Text)
    ensures
        written_ids(set.options).to_set().contains(id) <==> mentions(set, id),
{
    let own = |option: Seq<Text>| option;
    lemma_flat_map_contains(set.options, own, id);
    let all = written_ids(set.options);
    assert(all.to_set().contains(id) <==> all.contains(id));
    if all.contains(id) {
        let o = choose|o: int|
            0 <= o < set.options.len() && own(#[trigger] set.options[o]).contains(id);
        let j = choose|j: int| 0 <= j < set.options[o].len() && set.options[o][j] == id;
        assert(set.options[o][j] == id);
    }
    if mentions(set, id) {
        let (o, j) = choose|o: int, j: int|
            0 <= o < set.options.len() && 0 <= j < set.options[o].len()
                && #[trigger] set.options[o][j] == id;
        assert(own(set.options[o]).contains(set.options[o][j]));
    }
}

proof fn lemma_written_all(set: CredentialSetModel, ids: Config)
    ensures
        ids.subset_of(written_ids(set.options).to_set()) <==> mentions_all(set, ids),
{
    assert forall|id: Text| #[trigger]
        written_ids(set.options).to_set().contains(id) <==> mentions(set, id) by {
        lemma_written(set, id);
    }
    if ids.subset_of(written_ids(set.options).to_set()) {
        assert forall|id: Text| #[trigger] ids.contains(id) implies mentions(set, id) by {
            assert(written_ids(set.options).to_set().contains(id));
        }
    }
    if mentions_all(set, ids) {
        assert forall|id: Text| ids.contains(id) implies written_ids(
            set.options,
        ).to_set().contains(id) by {
            assert(mentions(set, id));
        }
    }
}

/// The credential queries of TS12 data have to be in one credential set, where there are credential
/// sets, and the options of the first set that has them all have to be free choices in slots.
pub proof fn lemma_faults_of_ts12_queries(sets: Seq<CredentialSetModel>, ids: Config)
    ensures
        ts12_fault(None, ids) is None,
        ({
            let fault = ts12_fault(Some(sets), ids);
            if forall|id: Text| !#[trigger] ids.contains(id) {
                fault is None
            } else if forall|k: int|
                0 <= k < sets.len() ==> !mentions_all(#[trigger] sets[k], ids) {
                fault == Some(
                    "SCA transaction_data credential ids must appear in the same credential set"@,
                )
            } else {
                exists|k: int|
                    0 <= k < sets.len() && mentions_all(#[trigger] sets[k], ids) && (forall|j: int|
                        0 <= j < k ==> !mentions_all(#[trigger] sets[j], ids)) && fault == if transposable(
                        sets[k],
                        ids,
                    ) {
                        None
                    } else {
                        Some("SCA-targeted credential set options are not transposable"@)
                    }
            }
        }),
{
    let wanted = |set: CredentialSetModel| ids.subset_of(written_ids(set.options).to_set());
    assert forall|k: int| 0 <= k < sets.len() implies (wanted(#[trigger] sets[k])
        <==> mentions_all(sets[k], ids)) by {
        lemma_written_all(sets[k], ids);
    }
    lemma_the_first_is_found(sets, wanted);
    assert((forall|id: Text| !#[trigger] ids.contains(id)) <==> ids == Set::<Text>::empty()) by {
        if forall|id: Text| !#[trigger] ids.contains(id) {
            assert(ids =~= Set::<Text>::empty());
        }
    }
    if let Some(k) = first_where(sets, wanted) {
        assert(wanted(sets[k]));
        assert(mentions_all(sets[k], ids));
    }
}

/// The options that name TS12 credentials are those that name one of the ids, in order, each as the
/// set of what it names.
pub proof fn lemma_options_that_name_ids(options: Seq<Seq<Text>>, ids: Config) -> (at: Seq<int>)
    ensures
        at.len() == options_naming(options, ids).len(),
        ascends(at, options.len()),
        forall|i: int|
            0 <= i < options.len() ==> (#[trigger] at.contains(i) <==> exists|j: int|
                0 <= j < options[i].len() && ids.contains(#[trigger] options[i][j])),
        forall|k: int|
            0 <= k < at.len() ==> #[trigger] options_naming(options, ids)[k]
                == options[at[k]].to_set(),
{
    let keep = |option: Seq<Text>| names_any(option, ids);
    let at = lemma_filtering_keeps_the_order(options, keep);
    assert forall|i: int| 0 <= i < options.len() implies (#[trigger] at.contains(i) <==> exists|
        j: int,
    |
        0 <= j < options[i].len() && ids.contains(#[trigger] options[i][j])) by {
        assert(at.contains(i) <==> keep(options[i]));
    }
    assert forall|k: int| 0 <= k < at.len() implies #[trigger] options_naming(options, ids)[k]
        == options[at[k]].to_set() by {
        assert(options.filter(keep)[k] == options[at[k]]);
    }
    at
}

/// The TS12 credential queries are those that are for credentials that can authorize transactions,
/// and that TS12 data names.
pub proof fn lemma_ts12_credential_queries(
    credentials: Seq<CredentialQueryModel>,
    data: Seq<TransactionDataModel>,
    options: PlanOptionsModel,
    id: Text,
)
    ensures
        ts12_ids(
            query_table(credentials),
            data,
            ts12_indices(query_table(credentials), data, options),
        ).contains(id) <==> (exists|i: int| #[trigger]
            is_first_with_id(credentials, i, id) && is_for_authorization(credentials[i]))
            && exists|n: int, j: int|
            0 <= n < data.len() && options.is_ts12(data[n].data_type) && 0 <= j
                < data[n].credential_ids.len() && #[trigger] data[n].credential_ids[j] == id,
{
    let table = query_table(credentials);
    let indices = ts12_indices(table, data, options);
    let asked = exists|n: int, j: int|
        0 <= n < data.len() && options.is_ts12(data[n].data_type) && 0 <= j
            < data[n].credential_ids.len() && #[trigger] data[n].credential_ids[j] == id;
    lemma_ids_stand_for_the_first_query(credentials, id);
    let target = exists|i: int| #[trigger]
        is_first_with_id(credentials, i, id) && is_for_authorization(credentials[i]);
    assert(table.is_target(id) <==> target) by {
        if table.queries.contains_key(id) {
            let j = choose|j: int| #[trigger]
                is_first_with_id(credentials, j, id) && table.queries[id] == credentials[j];
            assert(is_first_with_id(credentials, j, id));
            if target {
                let i = choose|i: int| #[trigger]
                    is_first_with_id(credentials, i, id) && is_for_authorization(credentials[i]);
                assert(i == j);
            }
        }
    }
    if ts12_ids(table, data, indices).contains(id) {
        let k = choose|k: int|
            0 <= k < indices.len() && data[#[trigger] indices[k]].credential_ids.contains(id);
        let n = indices[k];
        assert(indices.contains(n));
        lemma_indices_where(
            data.len(),
            |i: int|
                usable(table, data[i]) && options.is_ts12(
                    data[i].data_type,
                ),
            k,
        );
        let j = choose|j: int|
            0 <= j < data[n].credential_ids.len() && data[n].credential_ids[j] == id;
        assert(data[n].credential_ids[j] == id);
    }
    if target && asked {
        let (n, j) = choose|n: int, j: int|
            0 <= n < data.len() && options.is_ts12(data[n].data_type) && 0 <= j
                < data[n].credential_ids.len() && #[trigger] data[n].credential_ids[j] == id;
        let i = choose|i: int| #[trigger]
            is_first_with_id(credentials, i, id) && is_for_authorization(credentials[i]);
        assert(is_first_with_id(credentials, i, data[n].credential_ids[j]));
        assert(names_a_query(credentials, data[n]));
        lemma_kinds_of_transaction_data(credentials, data, options, n);
        assert(indices.contains(n));
        let k = choose|k: int| 0 <= k < indices.len() && indices[k] == n;
        assert(data[indices[k]].credential_ids.contains(data[n].credential_ids[j]));
    }
}

/// A query that can be answered but is faulty for its TS12 data is invalid, for that reason.
pub proof fn lemma_faulty_queries_are_invalid<S: CredentialStore>(
    store: S,
    query: DcqlQueryModel,
    data: Option<Seq<TransactionDataModel>>,
    options: PlanOptionsModel,
    reason: Text,
)
    requires
        configs_of(
            query_table(query.credentials),
            query.credential_sets,
            matched_ids(store, query_table(query.credentials)),
            options,
        ) matches Ok(configs) && configs.len() > 0,
        ts12_fault(
            query.credential_sets,
            ts12_ids(
                query_table(query.credentials),
                data_or_none(data),
                ts12_indices(query_table(query.credentials), data_or_none(data), options),
            ),
        ) == Some(reason),
    ensures
        plan(store, query, data, options) == Err::<OutputModel<RefModel<S>>, PlanErrorModel>(
            PlanErrorModel::InvalidQuery(reason),
        ),
{
}

/// A request without transaction data is planned like one with none.
pub proof fn lemma_no_transaction_data<S: CredentialStore>(
    store: S,
    query: DcqlQueryModel,
    options: PlanOptionsModel,
)
    ensures
        plan(store, query, None, options) == plan(store, query, Some(Seq::empty()), options),
{
}

/// Ids are shown as the credential sets mention them, one set after the other, one option after the
/// other, and then as the credential queries are listed. Each is shown where it comes first, if
/// some alternative has it.
pub proof fn lemma_ids_are_shown_as_they_are_mentioned(
    table: QueryTable,
    credential_sets: Option<Seq<CredentialSetModel>>,
    alternatives: Seq<Config>,
) -> (at: Seq<int>)
    ensures
        ({
            let all = mentioned(credential_sets) + table.order;
            &&& drawn_at(display_order(table, credential_sets, alternatives), all, at)
            &&& forall|i: int|
                0 <= i < all.len() ==> (#[trigger] at.contains(i) <==> is_in_some(
                    alternatives,
                    all[i],
                ) && forall|j: int| 0 <= j < i ==> #[trigger] all[j] != all[i])
        }),
{
    let all = mentioned(credential_sets) + table.order;
    let keep = |id: Text| in_some(alternatives, id);
    let kept = all.filter(keep);
    let first = lemma_filtering_keeps_the_order(all, keep);
    let own = lemma_the_first_occurrence_stays(kept);
    let at = Seq::new(own.len(), |k: int| first[own[k]]);
    let found = display_order(table, credential_sets, alternatives);
    assert(found == distinct(kept));
    assert forall|k: int| 0 <= k < at.len() implies 0 <= #[trigger] at[k] < all.len() && found[k]
        == all[at[k]] by {
        assert(found[k] == kept[own[k]]);
        assert(0 <= own[k] < kept.len());
        assert(kept[own[k]] == all[first[own[k]]]);
        assert(0 <= first[own[k]] < all.len());
    }
    assert forall|j: int, k: int| 0 <= j < k < at.len() implies #[trigger] at[j]
        < #[trigger] at[k] by {
        assert(own[j] < own[k]);
        assert(first[own[j]] < first[own[k]]);
    }
    assert forall|i: int| 0 <= i < all.len() implies (#[trigger] at.contains(i) <==> is_in_some(
        alternatives,
        all[i],
    ) && forall|j: int| 0 <= j < i ==> #[trigger] all[j] != all[i]) by {
        assert(is_in_some(alternatives, all[i]) <==> keep(all[i]));
        assert(first.contains(i) <==> keep(all[i]));
        if at.contains(i) {
            let k = choose|k: int| 0 <= k < at.len() && at[k] == i;
            let n = own[k];
            assert(own.contains(n));
            assert(first[n] == i);
            assert(first.contains(i));
            assert forall|j: int| 0 <= j < i implies #[trigger] all[j] != all[i] by {
                if all[j] == all[i] {
                    assert(first.contains(j) <==> keep(all[j]));
                    let m = choose|m: int| 0 <= m < first.len() && first[m] == j;
                    if m >= n {
                        assert(m == n || first[n] < first[m]);
                    }
                    assert(kept[m] == all[j]);
                    assert(kept[n] == all[i]);
                    assert(kept[m] != kept[n]);
                }
            }
        }
        if keep(all[i]) && forall|j: int| 0 <= j < i ==> #[trigger] all[j] != all[i] {
            let n = choose|n: int| 0 <= n < first.len() && first[n] == i;
            assert(kept[n] == all[i]);
            assert forall|m: int| 0 <= m < n implies #[trigger] kept[m] != kept[n] by {
                assert(kept[m] == all[first[m]]);
                assert(first[m] < first[n]);
                assert(all[first[m]] != all[i]);
            }
            assert(own.contains(n));
            let k = choose|k: int| 0 <= k < own.len() && own[k] == n;
            assert(at[k] == i);
        }
    }
    at
}

/// Whether one of the combinations holds an id.
pub open spec fn is_in_some(alternatives: Seq<Config>, id: Text) -> bool {
    exists|a: int| 0 <= a < alternatives.len() && (#[trigger] alternatives[a]).contains(id)
}

/// What the credential sets mention is what each of them mentions, one after the other, and what a
/// set mentions is what its options name, one after the other.
pub proof fn lemma_mentioned_ids(
    sets: Seq<CredentialSetModel>,
    set: CredentialSetModel,
    options: Seq<Seq<Text>>,
    option: Seq<Text>,
)
    ensures
        mentioned(None).len() == 0,
        mentioned(Some(Seq::empty())).len() == 0,
        mentioned(Some(sets.push(set))) == mentioned(Some(sets)) + written_ids(set.options),
        written_ids(Seq::empty()).len() == 0,
        written_ids(options.push(option)) == written_ids(options) + option,
{
    let image = |set: CredentialSetModel| written_ids(set.options);
    let own = |option: Seq<Text>| option;
    lemma_flat_map_empty(Seq::empty(), image);
    lemma_flat_map_empty(Seq::empty(), own);
    let more = sets.push(set);
    lemma_flat_map_step(more, image, sets.len() as int);
    assert(more.take(sets.len() as int) =~= sets);
    lemma_take_all(more);
    let longer = options.push(option);
    lemma_flat_map_step(longer, own, options.len() as int);
    assert(longer.take(options.len() as int) =~= options);
    lemma_take_all(longer);
}

/// What can be chosen for a credential query is what can be chosen under each alternative that has
/// the query, one after the other.
pub proof fn lemma_choices_of_alternatives<R>(
    alternatives: Seq<AlternativeModel<R>>,
    other: AlternativeModel<R>,
    id: Text,
)
    ensures
        choices_for(Seq::<AlternativeModel<R>>::empty(), id).len() == 0,
        other.choices.contains_key(id) ==> choices_for(alternatives.push(other), id) == choices_for(
            alternatives,
            id,
        ) + other.choices[id],
        !other.choices.contains_key(id) ==> choices_for(alternatives.push(other), id)
            == choices_for(alternatives, id),
{
    let image = |alternative: AlternativeModel<R>|
        if alternative.contains_key(id) {
            alternative[id]
        } else {
            Seq::empty()
        };
    let more = alternatives.push(other);
    lemma_flat_map_empty(Seq::empty(), image);
    lemma_flat_map_step(more, image, alternatives.len() as int);
    assert(more.take(alternatives.len() as int) =~= alternatives);
    lemma_take_all(more);
    if !other.choices.contains_key(id) {
        assert(choices_for(alternatives, id) + Seq::<SelectionModel<R>>::empty() =~= choices_for(
            alternatives,
            id,
        ));
    }
}

/// In a slot can be chosen what can be chosen for its queries, one after the other, each choice
/// where it comes first. Where the slot is optional, nothing can be chosen too, under the name of
/// the first query: first where the first alternative has none of the queries, and else last.
pub proof fn lemma_choices_of_slots<R>(
    alternatives: Seq<AlternativeModel<R>>,
    ids: Seq<Text>,
) -> (at: Seq<int>)
    requires
        ids.len() > 0,
    ensures
        ({
            let all = ids.flat_map(|id: Text| choices_for(alternatives, id));
            let plain = slot_choices(alternatives, SlotModel { ids, optional: false });
            let more = slot_choices(alternatives, SlotModel { ids, optional: true });
            let none = SelectionModel::<R> {
                dcql_id: ids[0],
                credential_id: None,
                selected_claims: Seq::empty(),
                transaction_data_ids: Seq::empty(),
            };
            &&& drawn_at(plain, all, at)
            &&& forall|i: int|
                0 <= i < all.len() ==> (#[trigger] at.contains(i) <==> forall|j: int|
                    0 <= j < i ==> #[trigger] all[j] != all[i])
            &&& more.len() == plain.len() + 1
            &&& if alternatives.len() > 0 && forall|k: int|
                0 <= k < ids.len() ==> !alternatives[0].choices.contains_key(#[trigger] ids[k]) {
                more[0] == none && more.skip(1) == plain
            } else {
                more.last() == none && more.drop_last() == plain
            }
        }),
{
    let all = ids.flat_map(|id: Text| choices_for(alternatives, id));
    let slot = SlotModel { ids, optional: true };
    let plain = slot_choices(alternatives, SlotModel { ids, optional: false });
    let more = slot_choices(alternatives, slot);
    let at = lemma_the_first_occurrence_stays(all);
    let none = no_selection::<R>(slot);
    assert((seq![none] + plain).skip(1) =~= plain);
    assert(plain.push(none).drop_last() =~= plain);
    if alternatives.len() > 0 {
        assert(forall|k: int|
            0 <= k < ids.len() ==> (alternatives[0].dom().contains(#[trigger] ids[k])
                <==> alternatives[0].choices.contains_key(ids[k])));
    }
    at
}

/// Slots are presented in order. Those without a choice are left out.
pub proof fn lemma_slots_with_a_choice<R>(
    alternatives: Seq<AlternativeModel<R>>,
    slots: Seq<SlotModel>,
) -> (at: Seq<int>)
    ensures
        at.len() == factored(alternatives, slots).len(),
        ascends(at, slots.len()),
        forall|i: int|
            0 <= i < slots.len() ==> (#[trigger] at.contains(i) <==> slot_choices(
                alternatives,
                slots[i],
            ).len() > 0),
        forall|k: int|
            0 <= k < at.len() ==> #[trigger] factored(alternatives, slots)[k] == slot_choices(
                alternatives,
                slots[at[k]],
            ),
{
    let all = slots.map_values(|slot: SlotModel| slot_choices(alternatives, slot));
    let keep = |choices: Seq<SelectionModel<R>>| choices.len() > 0;
    let at = lemma_filtering_keeps_the_order(all, keep);
    assert forall|i: int| 0 <= i < slots.len() implies (#[trigger] at.contains(i) <==> slot_choices(
        alternatives,
        slots[i],
    ).len() > 0) by {
        assert(at.contains(i) <==> keep(all[i]));
    }
    assert forall|k: int| 0 <= k < at.len() implies #[trigger] factored(alternatives, slots)[k]
        == slot_choices(alternatives, slots[at[k]]) by {
        assert(all.filter(keep)[k] == all[at[k]]);
    }
    at
}

/// An alternative on its own has a slot for each of its credential queries, and no others. Every
/// choice for the query is in the slot, each once.
pub proof fn lemma_alternatives_on_their_own<R>(alternative: AlternativeModel<R>) -> (ids: Seq<
    Text,
>)
    requires
        alternative.choices.dom().finite(),
    ensures
        unfactored(alternative).len() == ids.len(),
        ids.no_duplicates(),
        forall|id: Text| #[trigger] ids.contains(id) <==> alternative.choices.contains_key(id),
        forall|k: int|
            #![trigger unfactored(alternative)[k]]
            0 <= k < ids.len() ==> unfactored(alternative)[k].no_duplicates() && forall|
                selection: SelectionModel<R>,
            | #[trigger]
                unfactored(alternative)[k].contains(selection)
                    <==> alternative.choices[ids[k]].contains(selection),
{
    let ids = sorted_ids(alternative.dom());
    lemma_sorted_listing(alternative.dom());
    assert forall|id: Text| #[trigger] ids.contains(id) <==> alternative.choices.contains_key(
        id,
    ) by {
        assert(ids.to_set().contains(id) <==> ids.contains(id));
        assert(alternative.dom().contains(id) <==> alternative.choices.contains_key(id));
    }
    assert forall|k: int| #![trigger unfactored(alternative)[k]] 0 <= k < ids.len() implies
    unfactored(alternative)[k].no_duplicates() && forall|selection: SelectionModel<R>| #[trigger]
        unfactored(alternative)[k].contains(selection) <==> alternative.choices[ids[k]].contains(
            selection,
        ) by {
        lemma_distinct(alternative[ids[k]]);
    }
    ids
}

/// Alternatives that factor into slots and agree on their transaction data are one presentation
/// set. Those that do not factor are a set each, unless there is TS12 data, which needs slots.
pub proof fn lemma_ways_to_present<R>(
    table: QueryTable,
    credential_sets: Option<Seq<CredentialSetModel>>,
    alternatives: Seq<AlternativeModel<R>>,
    has_ts12: bool,
)
    ensures
        ({
            let found = presented(table, credential_sets, alternatives, has_ts12);
            match slots_of(table, credential_sets, alternatives) {
                Some(slots) => bound_alike(alternatives) ==> (found matches Ok(output)
                    && output.len() == 1 && output[0] == factored(alternatives, slots)),
                None => if has_ts12 {
                    found == Err::<OutputModel<R>, PlanErrorModel>(
                        PlanErrorModel::InvalidQuery(
                            "SCA-targeted credential set options are not transposable"@,
                        ),
                    )
                } else {
                    found matches Ok(output) && output.len() == alternatives.len() && forall|
                        k: int,
                    |
                        0 <= k < output.len() ==> #[trigger] output[k] == unfactored(
                            alternatives[k],
                        )
                },
            }
        }),
{
}

/// Whether a combination holds all that an option names.
pub open spec fn holds_all(config: Config, option: Seq<Text>) -> bool {
    forall|j: int| 0 <= j < option.len() ==> config.contains(#[trigger] option[j])
}

/// Of a credential set counts the first option that a combination holds whole, as it is written,
/// and nothing where it holds none.
pub proof fn lemma_the_first_whole_option_counts(set: CredentialSetModel, config: Config)
    ensures
        if forall|o: int|
            0 <= o < set.options.len() ==> !holds_all(config, #[trigger] set.options[o]) {
            first_option(set, config).len() == 0
        } else {
            exists|o: int|
                0 <= o < set.options.len() && holds_all(config, #[trigger] set.options[o])
                    && first_option(set, config) == set.options[o] && forall|p: int|
                    0 <= p < o ==> !holds_all(config, #[trigger] set.options[p])
        },
{
    let within = |option: Seq<Text>| option.to_set().subset_of(config);
    assert forall|o: int| 0 <= o < set.options.len() implies (within(#[trigger] set.options[o])
        <==> holds_all(config, set.options[o])) by {
        let option = set.options[o];
        if within(option) {
            assert forall|j: int| 0 <= j < option.len() implies config.contains(
                #[trigger] option[j],
            ) by {
                assert(option.to_set().contains(option[j]));
            }
        }
        if holds_all(config, option) {
            assert forall|id: Text| option.to_set().contains(id) implies config.contains(id) by {
                let j = choose|j: int| 0 <= j < option.len() && option[j] == id;
                assert(config.contains(option[j]));
            }
        }
    }
    lemma_the_first_is_found(set.options, within);
    if let Some(o) = first_where(set.options, within) {
        assert(within(set.options[o]));
        assert(holds_all(config, set.options[o]));
    }
}

/// The ids of a combination are worked on as the first whole options of the credential sets name
/// them, one set after the other, then as the credential queries are listed, and then by name. Each
/// has its turn where it comes first.
pub proof fn lemma_ids_are_worked_on_in_order(
    table: QueryTable,
    sets: Seq<CredentialSetModel>,
    set: CredentialSetModel,
    config: Config,
) -> (at: Seq<int>)
    ensures
        first_options(None, config).len() == 0,
        first_options(Some(Seq::empty()), config).len() == 0,
        first_options(Some(sets.push(set)), config) == first_options(Some(sets), config)
            + first_option(set, config),
        ({
            let listed = table.order.filter(|id: Text| config.contains(id));
            let all = first_options(Some(sets), config) + listed + sorted_ids(config);
            &&& drawn_at(config_order(table, Some(sets), config), all, at)
            &&& forall|i: int|
                0 <= i < all.len() ==> (#[trigger] at.contains(i) <==> forall|j: int|
                    0 <= j < i ==> #[trigger] all[j] != all[i])
        }),
{
    let image = |set: CredentialSetModel| first_option(set, config);
    let more = sets.push(set);
    lemma_flat_map_empty(Seq::empty(), image);
    lemma_flat_map_step(more, image, sets.len() as int);
    assert(more.take(sets.len() as int) =~= sets);
    lemma_take_all(more);
    let listed = table.order.filter(|id: Text| config.contains(id));
    lemma_the_first_occurrence_stays(
        first_options(Some(sets), config) + listed + sorted_ids(config),
    )
}

/// Nothing that is bound already is bound anew by tasks for other transaction data.
proof fn lemma_bindings_stay<S: CredentialStore>(
    store: S,
    data: Seq<TransactionDataModel>,
    tasks: Seq<TaskModel>,
    bindings: Seq<Option<Text>>,
    domains: DomainsModel<RefModel<S>>,
    n: int,
)
    requires
        0 <= n < bindings.len(),
        forall|k: int| 0 <= k < tasks.len() ==> (#[trigger] tasks[k]).index != n,
        forall|k: int| 0 <= k < tasks.len() ==> 0 <= (#[trigger] tasks[k]).index < bindings.len(),
    ensures
        forall|a: int|
            0 <= a < bound(store, data, tasks, bindings, domains).len() ==> (#[trigger] bound(
                store,
                data,
                tasks,
                bindings,
                domains,
            )[a]).bindings[n] == bindings[n],
    decreases tasks.len(), 1 + if tasks.len() > 0 { tasks[0].options.len() } else { 0 },
{
    if tasks.len() > 0 {
        lemma_bindings_stay_to(store, data, tasks, tasks[0].options, bindings, domains, n);
        assert(bound(store, data, tasks, bindings, domains) == bound_to(
            store,
            data,
            tasks,
            tasks[0].options,
            bindings,
            domains,
        ));
    } else {
        assert(bound(store, data, tasks, bindings, domains)
            == seq![AssignmentModel { bindings, domains }]);
    }
}

proof fn lemma_bindings_stay_to<S: CredentialStore>(
    store: S,
    data: Seq<TransactionDataModel>,
    tasks: Seq<TaskModel>,
    ids: Seq<Text>,
    bindings: Seq<Option<Text>>,
    domains: DomainsModel<RefModel<S>>,
    n: int,
)
    requires
        tasks.len() > 0,
        0 <= n < bindings.len(),
        forall|k: int| 0 <= k < tasks.len() ==> (#[trigger] tasks[k]).index != n,
        forall|k: int| 0 <= k < tasks.len() ==> 0 <= (#[trigger] tasks[k]).index < bindings.len(),
    ensures
        forall|a: int|
            0 <= a < bound_to(store, data, tasks, ids, bindings, domains).len() ==> (
            #[trigger] bound_to(store, data, tasks, ids, bindings, domains)[a]).bindings[n]
                == bindings[n],
    decreases tasks.len(), ids.len(),
{
    if ids.len() > 0 {
        let id = ids.last();
        let index = tasks[0].index;
        let left = signing(store, domains[id], data[index]);
        lemma_bindings_stay_to(store, data, tasks, ids.drop_last(), bindings, domains, n);
        let earlier = bound_to(store, data, tasks, ids.drop_last(), bindings, domains);
        if domains.contains_key(id) && left.len() > 0 {
            let rest = tasks.drop_first();
            assert forall|k: int| 0 <= k < rest.len() implies (#[trigger] rest[k]).index != n && 0
                <= rest[k].index < bindings.len() by {
                assert(rest[k] == tasks[k + 1]);
            }
            let now = bindings.update(index, Some(id));
            lemma_bindings_stay(store, data, rest, now, domains.insert(id, left), n);
            let own = bound(store, data, rest, now, domains.insert(id, left));
            let all = bound_to(store, data, tasks, ids, bindings, domains);
            assert(all == earlier + own);
            assert forall|a: int| 0 <= a < all.len() implies (#[trigger] all[a]).bindings[n]
                == bindings[n] by {
                if a < earlier.len() {
                    assert(all[a] == earlier[a]);
                } else {
                    assert(all[a] == own[a - earlier.len()]);
                }
            }
        }
    }
}

/// Ways to bind transaction data come in the order in which the first of it names its credential
/// queries: what is bound to a query that is named earlier comes earlier.
pub proof fn lemma_ways_to_bind_come_in_order<S: CredentialStore>(
    store: S,
    data: Seq<TransactionDataModel>,
    tasks: Seq<TaskModel>,
    bindings: Seq<Option<Text>>,
    domains: DomainsModel<RefModel<S>>,
) -> (at: Seq<int>)
    requires
        tasks.len() > 0,
        forall|k: int| 0 <= k < tasks.len() ==> 0 <= (#[trigger] tasks[k]).index < bindings.len(),
        forall|k: int| 0 < k < tasks.len() ==> (#[trigger] tasks[k]).index != tasks[0].index,
    ensures
        ({
            let all = bound(store, data, tasks, bindings, domains);
            &&& at.len() == all.len()
            &&& forall|a: int|
                0 <= a < at.len() ==> 0 <= #[trigger] at[a] < tasks[0].options.len()
                    && all[a].bindings[tasks[0].index] == Some(tasks[0].options[at[a]])
            &&& forall|a: int, b: int|
                0 <= a < b < at.len() ==> #[trigger] at[a] <= #[trigger] at[b]
        }),
{
    lemma_order_of_ways(store, data, tasks, tasks[0].options, bindings, domains)
}

proof fn lemma_order_of_ways<S: CredentialStore>(
    store: S,
    data: Seq<TransactionDataModel>,
    tasks: Seq<TaskModel>,
    ids: Seq<Text>,
    bindings: Seq<Option<Text>>,
    domains: DomainsModel<RefModel<S>>,
) -> (at: Seq<int>)
    requires
        tasks.len() > 0,
        forall|k: int| 0 <= k < tasks.len() ==> 0 <= (#[trigger] tasks[k]).index < bindings.len(),
        forall|k: int| 0 < k < tasks.len() ==> (#[trigger] tasks[k]).index != tasks[0].index,
    ensures
        ({
            let all = bound_to(store, data, tasks, ids, bindings, domains);
            &&& at.len() == all.len()
            &&& forall|a: int|
                0 <= a < at.len() ==> 0 <= #[trigger] at[a] < ids.len()
                    && all[a].bindings[tasks[0].index] == Some(ids[at[a]])
            &&& forall|a: int, b: int|
                0 <= a < b < at.len() ==> #[trigger] at[a] <= #[trigger] at[b]
        }),
    decreases ids.len(),
{
    if ids.len() == 0 {
        Seq::empty()
    } else {
        let id = ids.last();
        let n = ids.len() - 1;
        let index = tasks[0].index;
        let left = signing(store, domains[id], data[index]);
        let before = lemma_order_of_ways(store, data, tasks, ids.drop_last(), bindings, domains);
        let earlier = bound_to(store, data, tasks, ids.drop_last(), bindings, domains);
        assert forall|a: int| 0 <= a < before.len() implies earlier[a].bindings[index] == Some(
            ids[#[trigger] before[a]],
        ) by {
            assert(ids.drop_last()[before[a]] == ids[before[a]]);
        }
        if domains.contains_key(id) && left.len() > 0 {
            let rest = tasks.drop_first();
            assert forall|k: int| 0 <= k < rest.len() implies (#[trigger] rest[k]).index != index
                && 0 <= rest[k].index < bindings.len() by {
                assert(rest[k] == tasks[k + 1]);
            }
            let now = bindings.update(index, Some(id));
            lemma_bindings_stay(store, data, rest, now, domains.insert(id, left), index);
            let own = bound(store, data, rest, now, domains.insert(id, left));
            let all = bound_to(store, data, tasks, ids, bindings, domains);
            assert(all == earlier + own);
            let at = before + Seq::new(own.len(), |a: int| n as int);
            assert forall|a: int| 0 <= a < at.len() implies 0 <= #[trigger] at[a] < ids.len()
                && all[a].bindings[index] == Some(ids[at[a]]) by {
                if a < before.len() {
                    assert(at[a] == before[a]);
                    assert(all[a] == earlier[a]);
                } else {
                    assert(all[a] == own[a - earlier.len()]);
                }
            }
            assert forall|a: int, b: int| 0 <= a < b < at.len() implies #[trigger] at[a]
                <= #[trigger] at[b] by {
                if a < before.len() {
                    assert(at[a] == before[a]);
                    if b < before.len() {
                        assert(at[b] == before[b]);
                    }
                }
            }
            at
        } else {
            before
        }
    }
}

/// Whether a combination holds none of these ids.
pub open spec fn holds_none(config: Config, ids: Seq<Text>) -> bool {
    forall|k: int| 0 <= k < ids.len() ==> !config.contains(#[trigger] ids[k])
}

/// Whether one of the combinations holds none of these ids.
pub open spec fn can_do_without(alternatives: Seq<Config>, ids: Seq<Text>) -> bool {
    exists|a: int| 0 <= a < alternatives.len() && holds_none(#[trigger] alternatives[a], ids)
}

/// Whether one id is taken in every slot, by its place, or none where the slot is optional.
pub open spec fn are_taken(slots: Seq<SlotModel>, places: Seq<Option<int>>) -> bool {
    &&& places.len() == slots.len()
    &&& forall|t: int|
        0 <= t < slots.len() ==> match #[trigger] places[t] {
            Some(k) => 0 <= k < slots[t].ids.len(),
            None => slots[t].optional,
        }
}

/// Whether an id is taken in a slot.
pub open spec fn is_taken_in(
    slots: Seq<SlotModel>,
    places: Seq<Option<int>>,
    t: int,
    id: Text,
) -> bool {
    0 <= t < slots.len() && (places[t] matches Some(k) && slots[t].ids[k] == id)
}

/// Whether a combination holds exactly what is taken.
pub open spec fn holds_what_is_taken(
    slots: Seq<SlotModel>,
    places: Seq<Option<int>>,
    config: Config,
) -> bool {
    forall|id: Text| #[trigger]
        config.contains(id) <==> exists|t: int| is_taken_in(slots, places, t, id)
}

/// Whether a combination comes of taking one id in every slot, or none where that is free.
pub open spec fn is_free_choice(slots: Seq<SlotModel>, config: Config) -> bool {
    exists|places: Seq<Option<int>>| #[trigger]
        are_taken(slots, places) && holds_what_is_taken(slots, places, config)
}

proof fn lemma_products(slots: Seq<SlotModel>, config: Config)
    ensures
        is_product(slots, config) <==> is_free_choice(slots, config),
{
    if is_product(slots, config) {
        let picks = choose|picks: Seq<Option<Text>>| #[trigger]
            valid_picks(slots, picks) && picked(picks) == config;
        let places = Seq::new(
            picks.len(),
            |t: int|
                match picks[t] {
                    Some(id) => Some(
                        choose|k: int| 0 <= k < slots[t].ids.len() && slots[t].ids[k] == id,
                    ),
                    None => None,
                },
        );
        assert forall|t: int| 0 <= t < slots.len() implies match #[trigger] places[t] {
            Some(k) => 0 <= k < slots[t].ids.len() && picks[t] == Some(slots[t].ids[k]),
            None => slots[t].optional && picks[t] is None,
        } by {
            match picks[t] {
                Some(id) => {
                    assert(picks[t] == Some(id));
                    assert(slots[t].ids.contains(id));
                },
                None => {},
            }
        }
        assert(are_taken(slots, places));
        assert forall|id: Text| #[trigger] config.contains(id) <==> exists|t: int|
            is_taken_in(slots, places, t, id) by {
            if config.contains(id) {
                assert(picks.contains(Some(id)));
                let t = choose|t: int| 0 <= t < picks.len() && picks[t] == Some(id);
                assert(places[t] is Some);
                assert(is_taken_in(slots, places, t, id));
            }
            if exists|t: int| is_taken_in(slots, places, t, id) {
                let t = choose|t: int| is_taken_in(slots, places, t, id);
                assert(picks[t] == Some(id));
                assert(picks.contains(Some(id)));
            }
        }
    }
    if is_free_choice(slots, config) {
        let places = choose|places: Seq<Option<int>>| #[trigger]
            are_taken(slots, places) && holds_what_is_taken(slots, places, config);
        let picks = Seq::new(
            places.len(),
            |t: int|
                match places[t] {
                    Some(k) => Some(slots[t].ids[k]),
                    None => None,
                },
        );
        assert forall|t: int| 0 <= t < slots.len() implies match #[trigger] picks[t] {
            Some(id) => slots[t].ids.contains(id),
            None => slots[t].optional,
        } by {
            match places[t] {
                Some(k) => {
                    assert(slots[t].ids.contains(slots[t].ids[k]));
                },
                None => {},
            }
        }
        assert(valid_picks(slots, picks));
        assert(picked(picks) =~= config) by {
            assert forall|id: Text| picked(picks).contains(id) <==> config.contains(id) by {
                if picks.contains(Some(id)) {
                    let t = choose|t: int| 0 <= t < picks.len() && picks[t] == Some(id);
                    assert(is_taken_in(slots, places, t, id));
                }
                if config.contains(id) {
                    let t = choose|t: int| is_taken_in(slots, places, t, id);
                    assert(picks[t] == Some(id));
                    assert(picks.contains(Some(id)));
                }
            }
        }
    }
}

/// Whether slots are optional exactly where some combination holds none of their ids.
pub open spec fn are_optional_where_they_can_be(
    slots: Seq<SlotModel>,
    alternatives: Seq<Config>,
) -> bool {
    forall|t: int|
        0 <= t < slots.len() ==> ((#[trigger] slots[t]).optional <==> can_do_without(
            alternatives,
            slots[t].ids,
        ))
}

proof fn lemma_slot_models_are_optional(slots: Seq<Seq<Text>>, alternatives: Seq<Config>)
    ensures
        are_optional_where_they_can_be(slot_models(slots, alternatives), alternatives),
{
    let models = slot_models(slots, alternatives);
    assert forall|t: int| 0 <= t < models.len() implies ((#[trigger] models[t]).optional
        <==> can_do_without(alternatives, models[t].ids)) by {
        assert forall|a: int| 0 <= a < alternatives.len() implies (touches(
            #[trigger] alternatives[a],
            slots[t],
        ) <==> !holds_none(alternatives[a], slots[t])) by {}
        if models[t].optional {
            let a = choose|a: int|
                0 <= a < alternatives.len() && !touches(#[trigger] alternatives[a], slots[t]);
            assert(holds_none(alternatives[a], slots[t]));
        }
        if can_do_without(alternatives, models[t].ids) {
            let a = choose|a: int|
                0 <= a < alternatives.len() && holds_none(#[trigger] alternatives[a], slots[t]);
            assert(!touches(alternatives[a], slots[t]));
        }
    }
}

proof fn lemma_searched_slots(ids: Seq<Text>, alternatives: Seq<Config>, slots: Seq<Seq<Text>>)
    ensures
        search(ids, alternatives, slots) matches Some(found) ==> are_optional_where_they_can_be(
            found,
            alternatives,
        ),
    decreases ids.len(), slots.len() + 1,
{
    if ids.len() == 0 {
        lemma_slot_models_are_optional(slots, alternatives);
    } else {
        lemma_searched_slots_from(ids, alternatives, slots, 0);
    }
}

proof fn lemma_searched_slots_from(
    ids: Seq<Text>,
    alternatives: Seq<Config>,
    slots: Seq<Seq<Text>>,
    at: nat,
)
    requires
        at <= slots.len(),
    ensures
        search_from(ids, alternatives, slots, at) matches Some(found)
            ==> are_optional_where_they_can_be(found, alternatives),
    decreases ids.len(), slots.len() - at,
{
    if ids.len() > 0 {
        if at >= slots.len() {
            lemma_searched_slots(ids.drop_first(), alternatives, slots.push(seq![ids[0]]));
        } else {
            let joined = slots.update(at as int, slots[at as int].push(ids[0]));
            lemma_searched_slots(ids.drop_first(), alternatives, joined);
            lemma_searched_slots_from(ids, alternatives, slots, at + 1);
        }
    }
}

/// Slots stand for exactly the combinations that they are made of: a combination is one of them
/// exactly where it comes of taking one id in every slot, or none where the slot is optional. A
/// slot is optional exactly where one of the combinations holds none of its ids.
pub proof fn lemma_slots_are_free_choices(alternatives: Seq<Config>, id_order: Seq<Text>)
    requires
        alternatives.len() > 0,
        id_order.no_duplicates(),
        decomposition(alternatives, id_order) is Some,
    ensures
        ({
            let slots = decomposition(alternatives, id_order)->0;
            &&& are_optional_where_they_can_be(slots, alternatives)
            &&& forall|config: Config| #[trigger]
                is_free_choice(slots, config) <==> exists|a: int|
                    0 <= a < alternatives.len() && #[trigger] alternatives[a] == config
        }),
{
    let slots = decomposition(alternatives, id_order)->0;
    lemma_decomposition_is_faithful(alternatives, id_order);
    lemma_searched_slots(
        id_order.filter(|id: Text| in_some(alternatives, id)),
        alternatives,
        Seq::empty(),
    );
    assert forall|config: Config| #[trigger] is_free_choice(slots, config) <==> exists|a: int|
        0 <= a < alternatives.len() && #[trigger] alternatives[a] == config by {
        lemma_products(slots, config);
        assert(is_product(slots, config) <==> alternatives.contains(config));
    }
}

} // verus!
