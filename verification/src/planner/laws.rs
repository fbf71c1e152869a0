//! What holds of every plan.

use crate::idset::{lemma_sorted_listing, sorted_ids};
use crate::models::{ClaimModel, CredentialQueryModel, CredentialSetModel, DcqlQueryModel};
use crate::models::TransactionDataModel;
use crate::planner::configs::{answers, configs_of, lemma_configs_answer_required_sets, Config};
use crate::planner::constraints::{generic_indices, lemma_indices_step, lemma_indices_where};
use crate::planner::constraints::{ts12_ids, ts12_indices, usable, NOT_TRANSPOSABLE};
use crate::planner::constraints::SPREAD_OVER_SETS;
use crate::planner::error::PlanErrorModel;
use crate::planner::index::{lemma_duplicate_ids_are_ignored, lemma_query_table};
use crate::planner::index::{lemma_unknown_formats_are_ignored, query_table, QueryTable};
use crate::planner::matching::{candidates, claim_selection, claims_of, claims_ok, distinct_paths};
use crate::planner::matching::{holding, meta_ok, valid_claim_sets};
use crate::planner::options::PlanOptionsModel;
use crate::planner::plan::{all_alternatives, alternative, alternatives_of, data_or_none};
use crate::planner::plan::{is_complete, plan, row};
use crate::planner::presentation::{arranged, bound_alike, bound_as, choices_for, combinations};
use crate::planner::presentation::{display_order, empty_at_first, factored, keeps_bindings};
use crate::planner::presentation::{mentioned, no_selection, presented, slot_choices, slots_of};
use crate::planner::presentation::{unfactored, ways_to_bind, AlternativeModel, OutputModel};
use crate::planner::selections::{authorized, selections, ts12_choice, ts12_naming};
use crate::planner::selections::{SelectionModel, Ts12SelectionModel};
use crate::planner::slots::{disjoint_slots, in_some, is_factored, is_product};
use crate::planner::slots::{lemma_decomposition_is_faithful, picked, valid_picks, SlotModel};
use crate::planner::transactions::{assignments, lemma_assignments_are_sound, AssignmentModel};
use crate::planner::transactions::{matched_ids, settled, start_domains};
use crate::seqs::{distinct, first_where, indices_where, lemma_distinct, lemma_distinct_first};
use crate::seqs::{lemma_filter_all, lemma_filter_first, lemma_flat_map_first};
use crate::seqs::{lemma_filter_contains, lemma_filter_no_duplicates, lemma_first_where};
use crate::seqs::{lemma_add_contains, lemma_flat_map_contains, lemma_push_contains};
use crate::store::{CredentialStore, RefModel};
use crate::text::Text;
use vstd::prelude::*;

verus! {

/// Whether a query asks for these claims: for all that count, or for one of the claim sets that
/// count.
pub open spec fn asks(query: CredentialQueryModel, claims: Seq<ClaimModel>) -> bool {
    match query.claims() {
        None => claims.len() == 0,
        Some(written) => {
            let all = distinct_paths(written);
            let sets = match query.claim_sets() {
                Some(claim_sets) => valid_claim_sets(all, claim_sets),
                None => Seq::empty(),
            };
            if sets.len() == 0 {
                claims == all
            } else {
                sets.contains(claims)
            }
        },
    }
}

/// The claims that are asked of the candidates are claims that the query asks for, and the
/// credentials that are left hold them.
pub proof fn lemma_claim_selection<S: CredentialStore>(
    store: S,
    query: CredentialQueryModel,
    creds: Seq<RefModel<S>>,
    cred: RefModel<S>,
)
    requires
        claim_selection(store, query, creds).1.contains(cred),
    ensures
        creds.contains(cred),
        claims_ok(store, cred, claim_selection(store, query, creds).0),
        asks(query, claim_selection(store, query, creds).0),
{
    if let Some(written) = query.claims() {
        let claims = distinct_paths(written);
        lemma_holding(store, claims, creds, cred);
        if let Some(claim_sets) = query.claim_sets() {
            let sets = valid_claim_sets(claims, claim_sets);
            let held = |set: Seq<ClaimModel>| holding(store, set, creds).len() > 0;
            lemma_first_where(sets, held);
            if sets.len() > 0 {
                if let Some(k) = first_where(sets, held) {
                    lemma_holding(store, sets[k], creds, cred);
                    assert(sets.contains(sets[k]));
                }
            }
        }
    }
}

proof fn lemma_holding<S: CredentialStore>(
    store: S,
    claims: Seq<ClaimModel>,
    creds: Seq<RefModel<S>>,
    cred: RefModel<S>,
)
    ensures
        holding(store, claims, creds).contains(cred) <==> creds.contains(cred) && claims_ok(
            store,
            cred,
            claims,
        ),
{
    lemma_filter_contains(creds, |cred: RefModel<S>| claims_ok(store, cred, claims));
}

/// Whether transaction data that a selection authorizes names its credential query, and the
/// credential can authorize it.
pub open spec fn can_authorize<S: CredentialStore>(
    store: S,
    table: QueryTable,
    data: Seq<TransactionDataModel>,
    id: Text,
    cred: RefModel<S>,
    index: int,
) -> bool {
    &&& 0 <= index < data.len()
    &&& usable(table, data[index])
    &&& data[index].credential_ids.contains(id)
    &&& store.can_sign(cred, data[index])
}

/// Whether TS12 transaction data asks for an authorization by this credential query.
pub open spec fn ts12_asks(
    table: QueryTable,
    options: PlanOptionsModel,
    data: Seq<TransactionDataModel>,
    id: Text,
) -> bool {
    exists|i: int|
        0 <= i < data.len() && usable(table, #[trigger] data[i]) && options.is_ts12(
            data[i].data_type,
        ) && data[i].credential_ids.contains(id)
}

/// Whether a selection keeps what is asked of it.
///
/// The credential is one of the store, of the format of the query, and meets all that the query
/// asks for. It holds the claims that are selected, which are claims that the query asks for. It
/// can authorize the transaction data that is bound to it, which is listed in order and once. Of
/// TS12 transaction data it authorizes at most one, and one if any asks for it. The choice to
/// present nothing has no claims and authorizes nothing.
pub open spec fn sound<S: CredentialStore>(
    store: S,
    table: QueryTable,
    options: PlanOptionsModel,
    data: Seq<TransactionDataModel>,
    selection: SelectionModel<RefModel<S>>,
) -> bool {
    let ids = selection.transaction_data_ids;
    match selection.credential_id {
        None => selection.selected_claims.len() == 0 && ids.len() == 0,
        Some(cred) => {
            let query = table.queries[selection.dcql_id];
            &&& table.queries.contains_key(selection.dcql_id)
            &&& store.listed(Some(query.format())).contains(cred)
            &&& meta_ok(store, cred, query)
            &&& claims_ok(store, cred, selection.selected_claims)
            &&& asks(query, selection.selected_claims)
            &&& forall|k: int|
                0 <= k < ids.len() ==> can_authorize(
                    store,
                    table,
                    data,
                    selection.dcql_id,
                    cred,
                    #[trigger] ids[k],
                )
            &&& forall|j: int, k: int|
                0 <= j < k < ids.len() ==> #[trigger] ids[j] < #[trigger] ids[k]
            &&& forall|j: int, k: int|
                0 <= j < ids.len() && 0 <= k < ids.len() && options.is_ts12(
                    data[#[trigger] ids[j]].data_type,
                ) && options.is_ts12(data[#[trigger] ids[k]].data_type) ==> j == k
            &&& ts12_asks(table, options, data, selection.dcql_id) ==> exists|k: int|
                0 <= k < ids.len() && options.is_ts12(data[#[trigger] ids[k]].data_type)
        },
    }
}

/// Membership in a listing of indices.
proof fn lemma_indices_contains(bound: nat, wanted: spec_fn(int) -> bool, index: int)
    ensures
        indices_where(bound, wanted).contains(index) <==> 0 <= index < bound && wanted(index),
        indices_where(bound, wanted).no_duplicates(),
{
    let all = Seq::new(bound, |i: int| i);
    lemma_filter_contains(all, wanted);
    lemma_filter_no_duplicates(all, wanted);
    if 0 <= index < bound {
        assert(all[index] == index);
    }
}

/// A listing of indices is in order.
proof fn lemma_indices_ascend(bound: nat, wanted: spec_fn(int) -> bool, j: int, k: int)
    requires
        0 <= j < k < indices_where(bound, wanted).len(),
    ensures
        indices_where(bound, wanted)[j] < indices_where(bound, wanted)[k],
    decreases bound,
{
    if bound == 0 {
        lemma_indices_where(bound, wanted, j);
    } else {
        let before = (bound - 1) as nat;
        lemma_indices_step(bound, wanted, bound - 1);
        if k < indices_where(before, wanted).len() {
            lemma_indices_ascend(before, wanted, j, k);
        } else {
            lemma_indices_where(before, wanted, j);
        }
    }
}

/// The TS12 transaction that a credential authorizes names its query, and the credential can
/// authorize it. Where some name the query, there is one unless the credential is ruled out.
proof fn lemma_ts12_choice<S: CredentialStore>(
    store: S,
    table: QueryTable,
    options: PlanOptionsModel,
    data: Seq<TransactionDataModel>,
    id: Text,
    cred: RefModel<S>,
)
    ensures
        match ts12_choice(store, options, id, cred, data, ts12_indices(table, data, options)) {
            Ts12SelectionModel::Selected(i) => can_authorize(store, table, data, id, cred, i)
                && options.is_ts12(data[i].data_type),
            Ts12SelectionModel::Untargeted => !ts12_asks(table, options, data, id),
            Ts12SelectionModel::Incompatible => true,
        },
{
    let wanted = |i: int| usable(table, data[i]) && options.is_ts12(data[i].data_type);
    let indices = ts12_indices(table, data, options);
    let naming = ts12_naming(options, id, data, indices);
    let names = |i: int| options.is_ts12(data[i].data_type) && data[i].credential_ids.contains(id);
    let signs = |i: int| store.can_sign(cred, data[i]);
    lemma_filter_contains(indices, names);
    lemma_first_where(naming, signs);
    match first_where(naming, signs) {
        Some(k) => {
            assert(naming.contains(naming[k]));
            assert(indices.contains(naming[k]));
            lemma_indices_contains(data.len(), wanted, naming[k]);
        },
        None => {
            if ts12_asks(table, options, data, id) {
                let i = choose|i: int|
                    0 <= i < data.len() && usable(table, #[trigger] data[i]) && options.is_ts12(
                        data[i].data_type,
                    ) && data[i].credential_ids.contains(id);
                lemma_indices_contains(data.len(), wanted, i);
                assert(naming.contains(i));
            }
        },
    }
}

/// What can be chosen for a credential query of a combination keeps what is asked of it, whatever
/// way transaction data is bound.
proof fn lemma_row_is_sound<S: CredentialStore>(
    store: S,
    table: QueryTable,
    options: PlanOptionsModel,
    data: Seq<TransactionDataModel>,
    config: Config,
    assignment: AssignmentModel<RefModel<S>>,
    id: Text,
    selection: SelectionModel<RefModel<S>>,
)
    requires
        assignments(
            store,
            table,
            config,
            data,
            generic_indices(table, data, options),
        ).contains(assignment),
        assignment.bindings.len() == data.len(),
        config.contains(id),
        row(store, table, options, data, assignment, id).contains(selection),
    ensures
        selection.dcql_id == id,
        selection.credential_id is Some,
        sound(store, table, options, data, selection),
        forall|i: int|
            0 <= i < data.len() && !options.is_ts12(data[i].data_type) ==> (
            selection.transaction_data_ids.contains(i) <==> (#[trigger] assignment.bindings[i])
                == Some(id)),
{
    let generic = generic_indices(table, data, options);
    let unbound = |i: int| usable(table, data[i]) && !options.is_ts12(data[i].data_type);
    let indices = ts12_indices(table, data, options);
    let query = table.queries[id];
    let (claims, creds) = claim_selection(store, query, assignment.domains[id]);
    let allowed = |cred: RefModel<S>|
        ts12_choice(store, options, id, cred, data, indices) != Ts12SelectionModel::Incompatible;
    let found = selections(
        store,
        options,
        data,
        indices,
        assignment.bindings,
        id,
        claims,
        creds,
    );
    lemma_indices_contains(data.len(), unbound, 0);
    assert forall|k: int| 0 <= k < generic.len() implies 0 <= #[trigger] generic[k] < data.len() by {
        lemma_indices_where(data.len(), unbound, k);
    }
    lemma_assignments_are_sound(store, table, config, data, generic, assignment);
    let at = choose|at: int| 0 <= at < found.len() && found[at] == selection;
    let cred = creds.filter(allowed)[at];
    assert(selection.credential_id == Some(cred));
    assert(creds.filter(allowed).contains(cred));
    lemma_filter_contains(creds, allowed);
    assert(creds.contains(cred) && allowed(cred));
    lemma_claim_selection(store, query, assignment.domains[id], cred);
    let start = start_domains(store, table, config);
    assert(start.contains_key(id));
    assert(start[id].contains(cred));
    let met = |cred: RefModel<S>| meta_ok(store, cred, query);
    lemma_filter_contains(store.listed(Some(query.format())), met);
    assert(candidates(store, query).contains(cred));
    let choice = ts12_choice(store, options, id, cred, data, indices);
    lemma_ts12_choice(store, table, options, data, id, cred);
    let ids = selection.transaction_data_ids;
    let wanted = |i: int|
        assignment.bindings[i] == Some(id) || choice == Ts12SelectionModel::Selected(i);
    assert(ids == indices_where(data.len(), wanted));
    assert forall|i: int| 0 <= i < data.len() && #[trigger] assignment.bindings[i] == Some(
        id,
    ) implies can_authorize(store, table, data, id, cred, i) && !options.is_ts12(
        data[i].data_type,
    ) by {
        assert(generic.contains(i));
        lemma_indices_contains(data.len(), unbound, i);
        let k = choose|k: int| 0 <= k < generic.len() && generic[k] == i;
        assert(settled(store, data, assignment, generic[k]));
    }
    assert forall|k: int| 0 <= k < ids.len() implies can_authorize(
        store,
        table,
        data,
        id,
        cred,
        #[trigger] ids[k],
    ) by {
        lemma_indices_where(data.len(), wanted, k);
    }
    assert forall|j: int, k: int| 0 <= j < k < ids.len() implies #[trigger] ids[j]
        < #[trigger] ids[k] by {
        lemma_indices_ascend(data.len(), wanted, j, k);
    }
    assert forall|j: int, k: int|
        0 <= j < ids.len() && 0 <= k < ids.len() && options.is_ts12(
            data[#[trigger] ids[j]].data_type,
        ) && options.is_ts12(data[#[trigger] ids[k]].data_type) implies j == k by {
        lemma_indices_where(data.len(), wanted, j);
        lemma_indices_where(data.len(), wanted, k);
        lemma_indices_contains(data.len(), wanted, ids[j]);
        assert(ids[j] == ids[k]);
    }
    if ts12_asks(table, options, data, id) {
        let i = choice->Selected_0;
        lemma_indices_contains(data.len(), wanted, i);
        let k = choose|k: int| 0 <= k < ids.len() && ids[k] == i;
        assert(options.is_ts12(data[ids[k]].data_type));
    }
    assert forall|i: int|
        0 <= i < data.len() && !options.is_ts12(data[i].data_type) implies (ids.contains(i) <==> (
    #[trigger] assignment.bindings[i]) == Some(id)) by {
        lemma_indices_contains(data.len(), wanted, i);
    }
}

/// Whether some alternative offers a selection for a credential query.
pub open spec fn offers<R>(
    alternatives: Seq<AlternativeModel<R>>,
    id: Text,
    selection: SelectionModel<R>,
) -> bool {
    exists|a: int|
        0 <= a < alternatives.len() && (#[trigger] alternatives[a]).contains_key(id)
            && alternatives[a][id].contains(selection)
}

/// Membership in the choices of a slot.
proof fn lemma_slot_choices<R>(
    alternatives: Seq<AlternativeModel<R>>,
    slot: SlotModel,
    selection: SelectionModel<R>,
)
    ensures
        slot_choices(alternatives, slot).contains(selection) <==> (slot.optional && selection
            == no_selection::<R>(slot)) || exists|k: int|
            0 <= k < slot.ids.len() && offers(alternatives, #[trigger] slot.ids[k], selection),
{
    let image = |id: Text| choices_for(alternatives, id);
    let all = slot.ids.flat_map(image);
    lemma_distinct(all);
    let none = seq![no_selection::<R>(slot)];
    lemma_push_contains(distinct(all), no_selection(slot), selection);
    lemma_add_contains(none, distinct(all), selection);
    assert(none[0] == no_selection::<R>(slot));
    lemma_flat_map_contains(slot.ids, image, selection);
    assert forall|id: Text| #[trigger]
        choices_for(alternatives, id).contains(selection) <==> offers(
        alternatives,
        id,
        selection,
    ) by {
        let own = |alternative: AlternativeModel<R>|
            if alternative.contains_key(id) {
                alternative[id]
            } else {
                Seq::empty()
            };
        lemma_flat_map_contains(alternatives, own, selection);
        if offers(alternatives, id, selection) {
            let a = choose|a: int|
                0 <= a < alternatives.len() && (#[trigger] alternatives[a]).contains_key(id)
                    && alternatives[a][id].contains(selection);
            assert(own(alternatives[a]).contains(selection));
        }
    }
    if all.contains(selection) {
        let k = choose|k: int| 0 <= k < slot.ids.len() && image(#[trigger] slot.ids[k]).contains(selection);
        assert(offers(alternatives, slot.ids[k], selection));
    }
    if exists|k: int| 0 <= k < slot.ids.len() && offers(alternatives, #[trigger] slot.ids[k], selection) {
        let k = choose|k: int| 0 <= k < slot.ids.len() && offers(alternatives, #[trigger] slot.ids[k], selection);
        assert(image(slot.ids[k]).contains(selection));
    }
}

/// In slots that factor complete alternatives, every id comes from some alternative and no slot is
/// without a choice. All slots are presented.
proof fn lemma_factored<R>(alternatives: Seq<AlternativeModel<R>>, slots: Seq<SlotModel>)
    requires
        alternatives.len() > 0,
        forall|a: int| 0 <= a < alternatives.len() ==> is_complete(#[trigger] alternatives[a]),
        is_factored(slots, combinations(alternatives)),
    ensures
        factored(alternatives, slots).len() == slots.len(),
        forall|t: int|
            0 <= t < slots.len() ==> #[trigger] factored(alternatives, slots)[t] == slot_choices(
                alternatives,
                slots[t],
            ) && slot_choices(alternatives, slots[t]).len() > 0,
{
    let configs = combinations(alternatives);
    assert(configs[0] == alternatives[0].dom());
    assert(configs.contains(configs[0]));
    assert(is_product(slots, configs[0]));
    let start = choose|picks: Seq<Option<Text>>| #[trigger]
        valid_picks(slots, picks) && picked(picks) == configs[0];
    let image = |slot: SlotModel| slot_choices(alternatives, slot);
    let all = slots.map_values(image);
    let keep = |choices: Seq<SelectionModel<R>>| choices.len() > 0;
    assert forall|t: int| 0 <= t < slots.len() implies keep(#[trigger] all[t]) by {
        let slot = slots[t];
        match start[t] {
            None => {
                lemma_slot_choices(alternatives, slot, no_selection(slot));
                assert(slot_choices(alternatives, slot).contains(no_selection(slot)));
            },
            Some(id) => {
                assert(start[t] == Some(id));
                assert(picked(start).contains(id)) by {
                    assert(start.contains(Some(id)));
                }
                let first = alternatives[0][id][0];
                assert(is_complete(alternatives[0]));
                assert(alternatives[0].contains_key(id));
                assert(alternatives[0][id].contains(first));
                assert(offers(alternatives, id, first));
                let k = choose|k: int| 0 <= k < slot.ids.len() && slot.ids[k] == id;
                assert(offers(alternatives, slot.ids[k], first));
                lemma_slot_choices(alternatives, slot, first);
                assert(slot_choices(alternatives, slot).contains(first));
            },
        }
    }
    lemma_filter_all(all, keep);
    assert(factored(alternatives, slots) == all);
}

/// Every alternative comes from a combination and a way to bind transaction data.
proof fn lemma_origin<S: CredentialStore>(
    store: S,
    table: QueryTable,
    options: PlanOptionsModel,
    data: Seq<TransactionDataModel>,
    configs: Seq<Config>,
    found: AlternativeModel<RefModel<S>>,
) -> (origin: (Config, AssignmentModel<RefModel<S>>))
    requires
        all_alternatives(store, table, options, data, configs).contains(found),
    ensures
        configs.contains(origin.0),
        origin.0.subset_of(matched_ids(store, table)),
        assignments(
            store,
            table,
            origin.0,
            data,
            generic_indices(table, data, options),
        ).contains(origin.1),
        origin.1.bindings.len() == data.len(),
        found == alternative(store, table, options, data, origin.0, origin.1),
        found.dom() == origin.0,
        is_complete(found),
{
    let generic = generic_indices(table, data, options);
    let image = |config: Config| alternatives_of(store, table, options, data, config);
    lemma_flat_map_contains(configs, image, found);
    let c = choose|c: int| 0 <= c < configs.len() && image(#[trigger] configs[c]).contains(found);
    let config = configs[c];
    let ways = assignments(store, table, config, data, generic);
    let made = |assignment: AssignmentModel<RefModel<S>>|
        alternative(store, table, options, data, config, assignment);
    let all = ways.map_values(made);
    let keep = |found: AlternativeModel<RefModel<S>>| is_complete(found);
    lemma_filter_contains(all, keep);
    assert(all.filter(keep).contains(found));
    assert(all.contains(found) && keep(found));
    let k = choose|k: int| 0 <= k < all.len() && all[k] == found;
    let assignment = ways[k];
    assert(ways.contains(assignment));
    lemma_generic_indices(table, data, options);
    lemma_assignments_are_sound(store, table, config, data, generic, assignment);
    assert(found.dom() =~= config);
    (config, assignment)
}

/// The indices of generic transaction data are in range, and none is listed twice.
proof fn lemma_generic_indices(
    table: QueryTable,
    data: Seq<TransactionDataModel>,
    options: PlanOptionsModel,
)
    ensures
        generic_indices(table, data, options).no_duplicates(),
        forall|k: int|
            0 <= k < generic_indices(table, data, options).len() ==> 0
                <= #[trigger] generic_indices(table, data, options)[k] < data.len(),
        forall|i: int| #[trigger]
            generic_indices(table, data, options).contains(i) <==> 0 <= i < data.len() && usable(
                table,
                data[i],
            ) && !options.is_ts12(data[i].data_type),
{
    let generic = generic_indices(table, data, options);
    let wanted = |i: int| usable(table, data[i]) && !options.is_ts12(data[i].data_type);
    lemma_indices_contains(data.len(), wanted, 0);
    assert forall|k: int| 0 <= k < generic.len() implies 0 <= #[trigger] generic[k] < data.len() by {
        lemma_indices_where(data.len(), wanted, k);
    }
    assert forall|i: int| #[trigger] generic.contains(i) <==> 0 <= i < data.len() && usable(
        table,
        data[i],
    ) && !options.is_ts12(data[i].data_type) by {
        lemma_indices_contains(data.len(), wanted, i);
    }
}

/// Whether every member of a group is one of the alternatives.
spec fn drawn<R>(group: Seq<AlternativeModel<R>>, alternatives: Seq<AlternativeModel<R>>) -> bool {
    forall|a: int| 0 <= a < group.len() ==> alternatives.contains(#[trigger] group[a])
}

/// Whether a presentation set shows a group of alternatives: in slots that they factor into, where
/// they agree on their transaction data, or a single one on its own.
spec fn shows<R>(
    set: Seq<Seq<SelectionModel<R>>>,
    group: Seq<AlternativeModel<R>>,
    slots: Option<Seq<SlotModel>>,
) -> bool {
    match slots {
        Some(slots) => is_factored(slots, combinations(group)) && disjoint_slots(slots)
            && bound_alike(group) && set == factored(group, slots),
        None => group.len() == 1 && set == unfactored(group[0]),
    }
}

/// The alternatives that bind transaction data in one way agree on it, and are alternatives.
proof fn lemma_bound_as<R>(alternatives: Seq<AlternativeModel<R>>, bindings: Seq<Option<Text>>)
    ensures
        bound_alike(bound_as(alternatives, bindings)),
        drawn(bound_as(alternatives, bindings), alternatives),
        forall|found: AlternativeModel<R>| #[trigger]
            bound_as(alternatives, bindings).contains(found) <==> alternatives.contains(found)
                && found.bindings == bindings,
{
    let group = bound_as(alternatives, bindings);
    lemma_filter_contains(
        alternatives,
        |alternative: AlternativeModel<R>| alternative.bindings == bindings,
    );
    assert forall|a: int| 0 <= a < group.len() implies (#[trigger] group[a]).bindings == bindings
        && alternatives.contains(group[a]) by {
        assert(group.contains(group[a]));
    }
}

/// What slots are made of the combinations of some alternatives.
proof fn lemma_slots_of<R>(
    table: QueryTable,
    credential_sets: Option<Seq<CredentialSetModel>>,
    group: Seq<AlternativeModel<R>>,
)
    requires
        group.len() > 0,
    ensures
        slots_of(table, credential_sets, group) matches Some(slots) ==> is_factored(
            slots,
            combinations(group),
        ) && disjoint_slots(slots),
{
    let found = combinations(group);
    lemma_display_order(table, credential_sets, found);
    lemma_decomposition_is_faithful(found, display_order(table, credential_sets, found));
}

/// What an arrangement of alternatives that agree shows.
proof fn lemma_arranged<R>(
    table: QueryTable,
    credential_sets: Option<Seq<CredentialSetModel>>,
    group: Seq<AlternativeModel<R>>,
    t: int,
) -> (shown: (Seq<AlternativeModel<R>>, Option<Seq<SlotModel>>))
    requires
        group.len() > 0,
        bound_alike(group),
        0 <= t < arranged(table, credential_sets, group).len(),
    ensures
        shown.0.len() > 0,
        drawn(shown.0, group),
        shows(arranged(table, credential_sets, group)[t], shown.0, shown.1),
        slots_of(table, credential_sets, group) is Some ==> shown.0 == group,
        slots_of(table, credential_sets, group) is None ==> shown.0 == seq![group[t]],
{
    lemma_slots_of(table, credential_sets, group);
    match slots_of(table, credential_sets, group) {
        Some(slots) => (group, Some(slots)),
        None => (seq![group[t]], None),
    }
}

/// Every presentation set shows some of the alternatives.
proof fn lemma_shown<R>(
    table: QueryTable,
    credential_sets: Option<Seq<CredentialSetModel>>,
    alternatives: Seq<AlternativeModel<R>>,
    has_ts12: bool,
    s: int,
) -> (shown: (Seq<AlternativeModel<R>>, Option<Seq<SlotModel>>))
    requires
        alternatives.len() > 0,
        presented(table, credential_sets, alternatives, has_ts12) matches Ok(output) && 0 <= s
            < output.len(),
    ensures
        shown.0.len() > 0,
        drawn(shown.0, alternatives),
        shows(
            presented(table, credential_sets, alternatives, has_ts12)->Ok_0[s],
            shown.0,
            shown.1,
        ),
{
    let output = presented(table, credential_sets, alternatives, has_ts12)->Ok_0;
    lemma_slots_of(table, credential_sets, alternatives);
    match slots_of(table, credential_sets, alternatives) {
        Some(slots) => if bound_alike(alternatives) {
            (alternatives, Some(slots))
        } else {
            let ways = ways_to_bind(alternatives);
            let image = |bindings: Seq<Option<Text>>|
                arranged(table, credential_sets, bound_as(alternatives, bindings));
            assert(output.contains(output[s]));
            lemma_flat_map_contains(ways, image, output[s]);
            let w = choose|w: int|
                0 <= w < ways.len() && image(#[trigger] ways[w]).contains(output[s]);
            let group = bound_as(alternatives, ways[w]);
            lemma_bound_as(alternatives, ways[w]);
            lemma_ways_to_bind(alternatives);
            assert(ways.contains(ways[w]));
            let a = choose|a: int|
                0 <= a < alternatives.len() && (#[trigger] alternatives[a]).bindings == ways[w];
            assert(group.contains(alternatives[a]));
            let part = arranged(table, credential_sets, group);
            let t = choose|t: int| 0 <= t < part.len() && part[t] == output[s];
            let shown = lemma_arranged(table, credential_sets, group, t);
            assert forall|a: int| 0 <= a < shown.0.len() implies alternatives.contains(
                #[trigger] shown.0[a],
            ) by {
                assert(group.contains(shown.0[a]));
            }
            shown
        },
        None => (seq![alternatives[s]], None),
    }
}

/// A way to bind transaction data is listed exactly where an alternative binds it so.
proof fn lemma_ways_to_bind<R>(alternatives: Seq<AlternativeModel<R>>)
    ensures
        forall|bindings: Seq<Option<Text>>| #[trigger]
            ways_to_bind(alternatives).contains(bindings) <==> exists|a: int|
                0 <= a < alternatives.len() && (#[trigger] alternatives[a]).bindings == bindings,
{
    let all = alternatives.map_values(|alternative: AlternativeModel<R>| alternative.bindings);
    lemma_distinct(all);
    assert forall|bindings: Seq<Option<Text>>| #[trigger]
        ways_to_bind(alternatives).contains(bindings) <==> exists|a: int|
            0 <= a < alternatives.len() && (#[trigger] alternatives[a]).bindings == bindings by {
        if all.contains(bindings) {
            let a = choose|a: int| 0 <= a < all.len() && all[a] == bindings;
            assert(alternatives[a].bindings == bindings);
        }
        if exists|a: int|
            0 <= a < alternatives.len() && (#[trigger] alternatives[a]).bindings == bindings {
            let a = choose|a: int|
                0 <= a < alternatives.len() && (#[trigger] alternatives[a]).bindings == bindings;
            assert(all[a] == bindings);
        }
    }
}

/// Every alternative is shown in some presentation set.
proof fn lemma_alternatives_are_shown<R>(
    table: QueryTable,
    credential_sets: Option<Seq<CredentialSetModel>>,
    alternatives: Seq<AlternativeModel<R>>,
    has_ts12: bool,
    found: AlternativeModel<R>,
) -> (shown: (int, Seq<AlternativeModel<R>>, Option<Seq<SlotModel>>))
    requires
        alternatives.contains(found),
        presented(table, credential_sets, alternatives, has_ts12) is Ok,
    ensures
        ({
            let output = presented(table, credential_sets, alternatives, has_ts12)->Ok_0;
            &&& 0 <= shown.0 < output.len()
            &&& shown.1.contains(found)
            &&& drawn(shown.1, alternatives)
            &&& shows(output[shown.0], shown.1, shown.2)
        }),
{
    let output = presented(table, credential_sets, alternatives, has_ts12)->Ok_0;
    lemma_slots_of(table, credential_sets, alternatives);
    let a = choose|a: int| 0 <= a < alternatives.len() && alternatives[a] == found;
    match slots_of(table, credential_sets, alternatives) {
        Some(slots) => if bound_alike(alternatives) {
            (0, alternatives, Some(slots))
        } else {
            let ways = ways_to_bind(alternatives);
            let image = |bindings: Seq<Option<Text>>|
                arranged(table, credential_sets, bound_as(alternatives, bindings));
            let group = bound_as(alternatives, found.bindings);
            lemma_ways_to_bind(alternatives);
            assert(alternatives[a].bindings == found.bindings);
            assert(ways.contains(found.bindings));
            let w = choose|w: int| 0 <= w < ways.len() && ways[w] == found.bindings;
            lemma_bound_as(alternatives, found.bindings);
            assert(group.contains(found));
            let part = arranged(table, credential_sets, group);
            let g = choose|g: int| 0 <= g < group.len() && group[g] == found;
            let t: int = if slots_of(table, credential_sets, group) is Some {
                0
            } else {
                g
            };
            let shown = lemma_arranged(table, credential_sets, group, t);
            assert(part.contains(part[t]));
            assert(image(ways[w]).contains(part[t]));
            lemma_flat_map_contains(ways, image, part[t]);
            let s = choose|s: int| 0 <= s < output.len() && output[s] == part[t];
            assert(shown.0.contains(found)) by {
                if slots_of(table, credential_sets, group) is None {
                    assert(shown.0[0] == found);
                }
            }
            assert forall|a: int| 0 <= a < shown.0.len() implies alternatives.contains(
                #[trigger] shown.0[a],
            ) by {
                assert(group.contains(shown.0[a]));
            }
            (s, shown.0, shown.1)
        },
        None => {
            let one = seq![alternatives[a]];
            assert(one[0] == found);
            (a, one, None)
        },
    }
}

/// The first presentation set shows alternatives of which the first is the first of all.
proof fn lemma_first_is_shown<R>(
    table: QueryTable,
    credential_sets: Option<Seq<CredentialSetModel>>,
    alternatives: Seq<AlternativeModel<R>>,
    has_ts12: bool,
) -> (shown: (Seq<AlternativeModel<R>>, Option<Seq<SlotModel>>))
    requires
        alternatives.len() > 0,
        presented(table, credential_sets, alternatives, has_ts12) is Ok,
    ensures
        ({
            let output = presented(table, credential_sets, alternatives, has_ts12)->Ok_0;
            &&& output.len() > 0
            &&& shown.0.len() > 0
            &&& shown.0[0] == alternatives[0]
            &&& drawn(shown.0, alternatives)
            &&& shows(output[0], shown.0, shown.1)
        }),
{
    lemma_slots_of(table, credential_sets, alternatives);
    match slots_of(table, credential_sets, alternatives) {
        Some(slots) => if bound_alike(alternatives) {
            (alternatives, Some(slots))
        } else {
            let ways = ways_to_bind(alternatives);
            let image = |bindings: Seq<Option<Text>>|
                arranged(table, credential_sets, bound_as(alternatives, bindings));
            lemma_distinct_first(
                alternatives.map_values(
                    |alternative: AlternativeModel<R>| alternative.bindings,
                ),
            );
            let bindings = alternatives[0].bindings;
            assert(ways[0] == bindings);
            lemma_bound_as(alternatives, bindings);
            lemma_filter_first(
                alternatives,
                |alternative: AlternativeModel<R>| alternative.bindings == bindings,
            );
            let group = bound_as(alternatives, bindings);
            assert(group[0] == alternatives[0]);
            let shown = lemma_arranged(table, credential_sets, group, 0);
            lemma_flat_map_first(ways, image);
            assert forall|a: int| 0 <= a < shown.0.len() implies alternatives.contains(
                #[trigger] shown.0[a],
            ) by {
                assert(group.contains(shown.0[a]));
            }
            shown
        },
        None => (seq![alternatives[0]], None),
    }
}

/// What an alternative offers keeps what is asked of it, and is for the credential query that it
/// is offered for.
proof fn lemma_offer_is_sound<S: CredentialStore>(
    store: S,
    table: QueryTable,
    options: PlanOptionsModel,
    data: Seq<TransactionDataModel>,
    configs: Seq<Config>,
    group: Seq<AlternativeModel<RefModel<S>>>,
    id: Text,
    selection: SelectionModel<RefModel<S>>,
)
    requires
        drawn(group, all_alternatives(store, table, options, data, configs)),
        offers(group, id, selection),
    ensures
        selection.dcql_id == id,
        selection.credential_id is Some,
        sound(store, table, options, data, selection),
{
    let a = choose|a: int|
        0 <= a < group.len() && (#[trigger] group[a]).contains_key(id) && group[a][id].contains(
            selection,
        );
    let found = group[a];
    let (config, assignment) = lemma_origin(store, table, options, data, configs, found);
    assert(found.dom().contains(id));
    lemma_row_is_sound(store, table, options, data, config, assignment, id, selection);
}

/// The choices that a plan leaves, by slot: choices of alternatives, or of nothing where a slot is
/// optional.
pub open spec fn is_choice<R>(set: Seq<Seq<SelectionModel<R>>>, choice: Seq<int>) -> bool {
    &&& choice.len() == set.len()
    &&& forall|t: int| 0 <= t < set.len() ==> 0 <= #[trigger] choice[t] < set[t].len()
}

/// What is chosen in each slot of a presentation set.
pub open spec fn chosen<R>(set: Seq<Seq<SelectionModel<R>>>, choice: Seq<int>) -> Seq<
    SelectionModel<R>,
> {
    Seq::new(set.len(), |t: int| set[t][choice[t]])
}

/// Whether one of the selections answers a credential query.
pub open spec fn answered<R>(selections: Seq<SelectionModel<R>>, id: Text) -> bool {
    exists|t: int|
        0 <= t < selections.len() && (#[trigger] selections[t]).dcql_id == id
            && selections[t].credential_id is Some
}

/// The credential queries that the selections answer.
pub open spec fn answered_ids<R>(selections: Seq<SelectionModel<R>>) -> Config {
    Set::new(|id: Text| answered(selections, id))
}

/// Every slot of a plan has a choice, and every choice in it is for an id of the slot or, where the
/// slot is optional, for nothing.
proof fn lemma_slots_presented<S: CredentialStore>(
    store: S,
    table: QueryTable,
    options: PlanOptionsModel,
    data: Seq<TransactionDataModel>,
    configs: Seq<Config>,
    group: Seq<AlternativeModel<RefModel<S>>>,
    slots: Seq<SlotModel>,
    t: int,
    c: int,
)
    requires
        group.len() > 0,
        drawn(group, all_alternatives(store, table, options, data, configs)),
        is_factored(slots, combinations(group)),
        0 <= t < slots.len(),
    ensures
        ({
            let set = factored(group, slots);
            &&& set.len() == slots.len()
            &&& set[t] == slot_choices(group, slots[t])
            &&& set[t].len() > 0
            &&& 0 <= c < set[t].len() ==> match set[t][c].credential_id {
                Some(_) => slots[t].ids.contains(set[t][c].dcql_id) && offers(
                    group,
                    set[t][c].dcql_id,
                    set[t][c],
                ) && sound(store, table, options, data, set[t][c]),
                None => slots[t].optional && set[t][c] == no_selection::<RefModel<S>>(slots[t]),
            }
        }),
{
    lemma_complete(store, table, options, data, configs, group);
    lemma_factored(group, slots);
    let set = factored(group, slots);
    if 0 <= c < set[t].len() {
        let selection = set[t][c];
        assert(set[t].contains(selection));
        lemma_slot_choices(group, slots[t], selection);
        if exists|k: int|
            0 <= k < slots[t].ids.len() && offers(group, #[trigger] slots[t].ids[k], selection) {
            let k = choose|k: int|
                0 <= k < slots[t].ids.len() && offers(group, #[trigger] slots[t].ids[k], selection);
            let id = slots[t].ids[k];
            lemma_offer_is_sound(store, table, options, data, configs, group, id, selection);
            assert(slots[t].ids.contains(id));
        }
    }
}

/// One alternative presented on its own: a slot for each of its credential queries.
proof fn lemma_unfactored<S: CredentialStore>(
    store: S,
    credentials: Seq<CredentialQueryModel>,
    options: PlanOptionsModel,
    data: Seq<TransactionDataModel>,
    configs: Seq<Config>,
    found: AlternativeModel<RefModel<S>>,
)
    requires
        all_alternatives(store, query_table(credentials), options, data, configs).contains(found),
    ensures
        ({
            let ids = sorted_ids(found.dom());
            let set = unfactored(found);
            &&& ids.no_duplicates()
            &&& ids.to_set() == found.dom()
            &&& set.len() == ids.len()
            &&& forall|t: int|
                0 <= t < ids.len() ==> found.contains_key(#[trigger] ids[t]) && set[t] == distinct(
                    found[ids[t]],
                ) && set[t].len() > 0
            &&& forall|t: int, c: int|
                0 <= t < set.len() && 0 <= c < set[t].len() ==> (
                #[trigger] set[t][c]).dcql_id == ids[t] && set[t][c].credential_id is Some
                    && found[ids[t]].contains(set[t][c]) && sound(
                    store,
                    query_table(credentials),
                    options,
                    data,
                    set[t][c],
                )
        }),
{
    let table = query_table(credentials);
    let (config, assignment) = lemma_origin(store, table, options, data, configs, found);
    let ids = sorted_ids(config);
    let set = unfactored(found);
    lemma_query_table(credentials);
    assert(config.subset_of(table.order.to_set())) by {
        assert forall|id: Text| config.contains(id) implies table.order.to_set().contains(id) by {
            assert(matched_ids(store, table).contains(id));
            assert(table.order.contains(id) <==> table.queries.contains_key(id));
        }
    }
    vstd::set_lib::lemma_set_subset_finite(table.order.to_set(), config);
    lemma_sorted_listing(config);
    assert forall|t: int| 0 <= t < ids.len() implies found.contains_key(#[trigger] ids[t]) && set[t]
        == distinct(found[ids[t]]) && set[t].len() > 0 by {
        assert(ids.to_set().contains(ids[t]));
        assert(found.dom().contains(ids[t]));
        lemma_distinct(found[ids[t]]);
        assert(found[ids[t]].contains(found[ids[t]][0]));
        assert(distinct(found[ids[t]]).contains(found[ids[t]][0]));
    }
    assert forall|t: int, c: int| 0 <= t < set.len() && 0 <= c < set[t].len() implies (
    #[trigger] set[t][c]).dcql_id == ids[t] && set[t][c].credential_id is Some
        && found[ids[t]].contains(set[t][c]) && sound(store, table, options, data, set[t][c]) by {
        let selection = set[t][c];
        lemma_distinct(found[ids[t]]);
        assert(found.contains_key(ids[t]));
        assert(set[t].contains(selection));
        assert(distinct(found[ids[t]]).contains(selection));
        lemma_row_is_sound(store, table, options, data, config, assignment, ids[t], selection);
    }
}

/// Every selection of a plan keeps what the query, its transaction data and TS12 ask of it.
pub proof fn lemma_selections_are_sound<S: CredentialStore>(
    store: S,
    query: DcqlQueryModel,
    data: Option<Seq<TransactionDataModel>>,
    options: PlanOptionsModel,
    s: int,
    t: int,
    c: int,
)
    requires
        plan(store, query, data, options) matches Ok(output) && 0 <= s < output.len() && 0 <= t
            < output[s].len() && 0 <= c < output[s][t].len(),
    ensures
        sound(
            store,
            query_table(query.credentials),
            options,
            data_or_none(data),
            plan(store, query, data, options)->Ok_0[s][t][c],
        ),
{
    let table = query_table(query.credentials);
    let entries = data_or_none(data);
    let configs = configs_of(
        table,
        query.credential_sets,
        matched_ids(store, table),
        options,
    )->Ok_0;
    let alternatives = all_alternatives(store, table, options, entries, configs);
    let has_ts12 = ts12_indices(table, entries, options).len() > 0;
    let (group, slots) = lemma_shown(table, query.credential_sets, alternatives, has_ts12, s);
    match slots {
        Some(slots) => {
            lemma_complete(store, table, options, entries, configs, group);
            lemma_factored(group, slots);
            lemma_slots_presented(store, table, options, entries, configs, group, slots, t, c);
        },
        None => {
            lemma_unfactored(store, query.credentials, options, entries, configs, group[0]);
            let set = unfactored(group[0]);
            assert(sound(store, table, options, entries, set[t][c]));
        },
    }
}

/// No id is shown twice.
proof fn lemma_display_order(
    table: QueryTable,
    credential_sets: Option<Seq<CredentialSetModel>>,
    alternatives: Seq<Config>,
)
    ensures
        display_order(table, credential_sets, alternatives).no_duplicates(),
{
    lemma_distinct(
        (mentioned(credential_sets) + table.order).filter(|id: Text| in_some(alternatives, id)),
    );
}

/// A plan always leaves a choice: it has a presentation set, and no slot is empty.
pub proof fn lemma_plans_leave_a_choice<S: CredentialStore>(
    store: S,
    query: DcqlQueryModel,
    data: Option<Seq<TransactionDataModel>>,
    options: PlanOptionsModel,
)
    requires
        plan(store, query, data, options) is Ok,
    ensures
        plan(store, query, data, options)->Ok_0.len() > 0,
        forall|s: int, t: int|
            0 <= s < plan(store, query, data, options)->Ok_0.len() && 0 <= t < plan(
                store,
                query,
                data,
                options,
            )->Ok_0[s].len() ==> (#[trigger] plan(store, query, data, options)->Ok_0[s][t]).len()
                > 0,
{
    let output = plan(store, query, data, options)->Ok_0;
    let table = query_table(query.credentials);
    let entries = data_or_none(data);
    let configs = configs_of(
        table,
        query.credential_sets,
        matched_ids(store, table),
        options,
    )->Ok_0;
    let alternatives = all_alternatives(store, table, options, entries, configs);
    let has_ts12 = ts12_indices(table, entries, options).len() > 0;
    let first = lemma_first_is_shown(table, query.credential_sets, alternatives, has_ts12);
    assert forall|s: int, t: int| 0 <= s < output.len() && 0 <= t < output[s].len() implies (
    #[trigger] output[s][t]).len() > 0 by {
        let (group, slots) = lemma_shown(table, query.credential_sets, alternatives, has_ts12, s);
        match slots {
            Some(slots) => {
                lemma_complete(store, table, options, entries, configs, group);
                lemma_factored(group, slots);
            },
            None => {
                lemma_unfactored(store, query.credentials, options, entries, configs, group[0]);
                let ids = sorted_ids(group[0].dom());
                assert(group[0].contains_key(ids[t]));
            },
        }
    }
}

/// No slot of a plan leaves the same choice twice.
pub proof fn lemma_choices_of_a_slot_differ<S: CredentialStore>(
    store: S,
    query: DcqlQueryModel,
    data: Option<Seq<TransactionDataModel>>,
    options: PlanOptionsModel,
    s: int,
    t: int,
)
    requires
        plan(store, query, data, options) matches Ok(output) && 0 <= s < output.len() && 0 <= t
            < output[s].len(),
    ensures
        forall|c: int, d: int|
            0 <= c < d < plan(store, query, data, options)->Ok_0[s][t].len() ==> #[trigger] plan(
                store,
                query,
                data,
                options,
            )->Ok_0[s][t][c] != #[trigger] plan(store, query, data, options)->Ok_0[s][t][d],
{
    let output = plan(store, query, data, options)->Ok_0;
    let table = query_table(query.credentials);
    let entries = data_or_none(data);
    let configs = configs_of(
        table,
        query.credential_sets,
        matched_ids(store, table),
        options,
    )->Ok_0;
    let alternatives = all_alternatives(store, table, options, entries, configs);
    let has_ts12 = ts12_indices(table, entries, options).len() > 0;
    let (group, slots) = lemma_shown(table, query.credential_sets, alternatives, has_ts12, s);
    let choices = output[s][t];
    match slots {
        Some(slots) => {
            lemma_complete(store, table, options, entries, configs, group);
            lemma_factored(group, slots);
            let slot = slots[t];
            let all = slot.ids.flat_map(|id: Text| choices_for(group, id));
            lemma_distinct(all);
            assert forall|c: int| 0 <= c < distinct(all).len() implies (
            #[trigger] distinct(all)[c]).credential_id is Some by {
                let plain = SlotModel { ids: slot.ids, optional: false };
                let selection = distinct(all)[c];
                assert(slot_choices(group, plain) == distinct(all));
                assert(distinct(all).contains(selection));
                lemma_slot_choices(group, plain, selection);
                let k = choose|k: int|
                    0 <= k < slot.ids.len() && offers(
                        group,
                        #[trigger] slot.ids[k],
                        selection,
                    );
                lemma_offer_is_sound(
                    store,
                    table,
                    options,
                    entries,
                    configs,
                    group,
                    slot.ids[k],
                    selection,
                );
            }
            assert(no_selection::<RefModel<S>>(slot).credential_id is None);
            assert(choices == slot_choices(group, slot));
        },
        None => {
            lemma_unfactored(store, query.credentials, options, entries, configs, group[0]);
            let ids = sorted_ids(group[0].dom());
            lemma_distinct(group[0][ids[t]]);
        },
    }
}

/// Whether an alternative presents nothing in a slot.
pub open spec fn leaves_empty<R>(
    alternative: AlternativeModel<R>,
    slot: Seq<SelectionModel<R>>,
) -> bool {
    forall|c: int|
        0 <= c < slot.len() && (#[trigger] slot[c]).credential_id is Some
            ==> !alternative.contains_key(slot[c].dcql_id)
}

/// The first presentation set follows the first alternative: the first choice of a slot is to
/// present nothing exactly where the first alternative presents nothing there.
pub proof fn lemma_first_choices_follow_the_first_alternative<S: CredentialStore>(
    store: S,
    query: DcqlQueryModel,
    data: Option<Seq<TransactionDataModel>>,
    options: PlanOptionsModel,
    configs: Seq<Config>,
    t: int,
)
    requires
        configs_of(
            query_table(query.credentials),
            query.credential_sets,
            matched_ids(store, query_table(query.credentials)),
            options,
        ) == Ok::<Seq<Config>, PlanErrorModel>(configs),
        plan(store, query, data, options) matches Ok(output) && 0 <= t < output[0].len(),
    ensures
        plan(store, query, data, options)->Ok_0[0][t][0].credential_id is None <==> leaves_empty(
            all_alternatives(
                store,
                query_table(query.credentials),
                options,
                data_or_none(data),
                configs,
            )[0],
            plan(store, query, data, options)->Ok_0[0][t],
        ),
{
    let output = plan(store, query, data, options)->Ok_0;
    let table = query_table(query.credentials);
    let entries = data_or_none(data);
    let alternatives = all_alternatives(store, table, options, entries, configs);
    let has_ts12 = ts12_indices(table, entries, options).len() > 0;
    let (group, slots) = lemma_first_is_shown(
        table,
        query.credential_sets,
        alternatives,
        has_ts12,
    );
    let first = group[0];
    let choices = output[0][t];
    match slots {
        Some(slots) => {
            let slot = slots[t];
            lemma_complete(store, table, options, entries, configs, group);
            lemma_factored(group, slots);
            assert(choices == slot_choices(group, slot));
            assert forall|c: int| 0 <= c < choices.len() && (
            #[trigger] choices[c]).credential_id is Some implies slot.ids.contains(
                choices[c].dcql_id,
            ) by {
                lemma_slots_presented(store, table, options, entries, configs, group, slots, t, c);
            }
            if empty_at_first(group, slot) {
                lemma_empty_slots_are_optional(group, slots, t);
                assert(choices[0] == no_selection::<RefModel<S>>(slot));
                assert forall|c: int| 0 <= c < choices.len() && (
                #[trigger] choices[c]).credential_id is Some implies !first.contains_key(
                    choices[c].dcql_id,
                ) by {
                    let id = choices[c].dcql_id;
                    let k = choose|k: int| 0 <= k < slot.ids.len() && slot.ids[k] == id;
                    assert(!first.dom().contains(slot.ids[k]));
                }
            } else {
                let k = choose|k: int|
                    0 <= k < slot.ids.len() && first.dom().contains(#[trigger] slot.ids[k]);
                let id = slot.ids[k];
                assert(first.contains_key(id));
                assert(is_complete(first));
                let picked = first[id][0];
                assert(first[id].contains(picked));
                assert(offers(group, id, picked));
                lemma_offer_is_sound(store, table, options, entries, configs, group, id, picked);
                lemma_slot_choices(group, slot, picked);
                let c = choose|c: int| 0 <= c < choices.len() && choices[c] == picked;
                assert(choices[c].credential_id is Some);
                let needed = SlotModel { ids: slot.ids, optional: false };
                let kept = slot_choices(group, needed);
                assert(offers(group, needed.ids[k], picked));
                lemma_slot_choices(group, needed, picked);
                assert(kept.contains(picked));
                assert(choices[0] == kept[0]);
                assert(kept.contains(kept[0]));
                lemma_slot_choices(group, needed, kept[0]);
                let n = choose|n: int|
                    0 <= n < needed.ids.len() && offers(group, #[trigger] needed.ids[n], kept[0]);
                let named = needed.ids[n];
                lemma_offer_is_sound(store, table, options, entries, configs, group, named, kept[0]);
            }
        },
        None => {
            lemma_unfactored(store, query.credentials, options, entries, configs, first);
            let ids = sorted_ids(first.dom());
            assert(first.contains_key(ids[t]));
            assert(choices[0].dcql_id == ids[t]);
        },
    }
}

/// A slot in which the first alternative presents nothing is optional.
proof fn lemma_empty_slots_are_optional<R>(
    alternatives: Seq<AlternativeModel<R>>,
    slots: Seq<SlotModel>,
    t: int,
)
    requires
        is_factored(slots, combinations(alternatives)),
        0 <= t < slots.len(),
        empty_at_first(alternatives, slots[t]),
    ensures
        slots[t].optional,
{
    let configs = combinations(alternatives);
    assert(configs[0] == alternatives[0].dom());
    assert(configs.contains(configs[0]));
    assert(is_product(slots, configs[0]));
    let picks = choose|picks: Seq<Option<Text>>| #[trigger]
        valid_picks(slots, picks) && picked(picks) == configs[0];
    if let Some(id) = picks[t] {
        assert(picks[t] == Some(id));
        assert(picks.contains(Some(id)));
        assert(picked(picks).contains(id));
        let k = choose|k: int| 0 <= k < slots[t].ids.len() && slots[t].ids[k] == id;
        assert(alternatives[0].dom().contains(slots[t].ids[k]));
    }
    assert(picks[t] is None);
}

/// Something can be chosen for every credential query of every alternative.
proof fn lemma_complete<S: CredentialStore>(
    store: S,
    table: QueryTable,
    options: PlanOptionsModel,
    data: Seq<TransactionDataModel>,
    configs: Seq<Config>,
    group: Seq<AlternativeModel<RefModel<S>>>,
)
    requires
        drawn(group, all_alternatives(store, table, options, data, configs)),
    ensures
        forall|a: int| 0 <= a < group.len() ==> is_complete(#[trigger] group[a]),
{
    assert forall|a: int| 0 <= a < group.len() implies is_complete(#[trigger] group[a]) by {
        let origin = lemma_origin(store, table, options, data, configs, group[a]);
    }
}

/// Whether no two of the selections answer the same credential query.
pub open spec fn answer_apart<R>(selections: Seq<SelectionModel<R>>) -> bool {
    forall|i: int, j: int|
        0 <= i < selections.len() && 0 <= j < selections.len() && (
        #[trigger] selections[i]).credential_id is Some && (
        #[trigger] selections[j]).credential_id is Some && selections[i].dcql_id
            == selections[j].dcql_id ==> i == j
}

/// The alternative whose combination a choice in slots answers.
proof fn lemma_slots_answer<S: CredentialStore>(
    store: S,
    table: QueryTable,
    options: PlanOptionsModel,
    data: Seq<TransactionDataModel>,
    configs: Seq<Config>,
    group: Seq<AlternativeModel<RefModel<S>>>,
    slots: Seq<SlotModel>,
    choice: Seq<int>,
) -> (a: int)
    requires
        group.len() > 0,
        drawn(group, all_alternatives(store, table, options, data, configs)),
        is_factored(slots, combinations(group)),
        disjoint_slots(slots),
        is_choice(factored(group, slots), choice),
    ensures
        ({
            let selections = chosen(factored(group, slots), choice);
            &&& 0 <= a < group.len()
            &&& group[a].dom() == answered_ids(selections)
            &&& answer_apart(selections)
        }),
{
    let set = factored(group, slots);
    let selections = chosen(set, choice);
    lemma_complete(store, table, options, data, configs, group);
    lemma_factored(group, slots);
    let picks = Seq::new(
        slots.len(),
        |t: int|
            match selections[t].credential_id {
                Some(_) => Some(selections[t].dcql_id),
                None => None,
            },
    );
    assert forall|t: int| 0 <= t < slots.len() implies match #[trigger] picks[t] {
        Some(id) => slots[t].ids.contains(id),
        None => slots[t].optional,
    } by {
        assert(0 <= choice[t] < set[t].len());
        lemma_slots_presented(store, table, options, data, configs, group, slots, t, choice[t]);
    }
    assert(valid_picks(slots, picks));
    assert(picked(picks) =~= answered_ids(selections)) by {
        assert forall|id: Text| picked(picks).contains(id) <==> answered_ids(selections).contains(
            id,
        ) by {
            if picks.contains(Some(id)) {
                let t = choose|t: int| 0 <= t < picks.len() && picks[t] == Some(id);
                assert(selections[t].dcql_id == id);
            }
            if answered(selections, id) {
                let t = choose|t: int|
                    0 <= t < selections.len() && (#[trigger] selections[t]).dcql_id == id
                        && selections[t].credential_id is Some;
                assert(picks[t] == Some(id));
            }
        }
    }
    assert forall|i: int, j: int|
        0 <= i < selections.len() && 0 <= j < selections.len() && (
        #[trigger] selections[i]).credential_id is Some && (
        #[trigger] selections[j]).credential_id is Some && selections[i].dcql_id
            == selections[j].dcql_id implies i == j by {
        assert(slots[i].ids.contains(picks[i]->0));
        assert(slots[j].ids.contains(picks[j]->0));
    }
    let config = answered_ids(selections);
    assert(is_product(slots, config));
    let found = combinations(group);
    assert(found.contains(config));
    choose|a: int| 0 <= a < found.len() && found[a] == config
}

/// A choice in the slots of an alternative that is presented on its own answers that alternative.
proof fn lemma_unfactored_answers<S: CredentialStore>(
    store: S,
    credentials: Seq<CredentialQueryModel>,
    options: PlanOptionsModel,
    data: Seq<TransactionDataModel>,
    configs: Seq<Config>,
    found: AlternativeModel<RefModel<S>>,
    choice: Seq<int>,
)
    requires
        all_alternatives(store, query_table(credentials), options, data, configs).contains(found),
        is_choice(unfactored(found), choice),
    ensures
        found.dom() == answered_ids(chosen(unfactored(found), choice)),
        answer_apart(chosen(unfactored(found), choice)),
{
    let set = unfactored(found);
    let ids = sorted_ids(found.dom());
    let selections = chosen(set, choice);
    lemma_unfactored(store, credentials, options, data, configs, found);
    assert forall|t: int| 0 <= t < set.len() implies (#[trigger] selections[t]).dcql_id == ids[t]
        && selections[t].credential_id is Some by {
        assert(0 <= choice[t] < set[t].len());
        assert(set[t][choice[t]].dcql_id == ids[t]);
    }
    assert(found.dom() =~= answered_ids(selections)) by {
        assert forall|id: Text| found.dom().contains(id) <==> answered_ids(selections).contains(
            id,
        ) by {
            assert(ids.to_set().contains(id) <==> ids.contains(id));
            if ids.contains(id) {
                let t = choose|t: int| 0 <= t < ids.len() && ids[t] == id;
                assert(selections[t].dcql_id == id);
            }
            if answered(selections, id) {
                let t = choose|t: int|
                    0 <= t < selections.len() && (#[trigger] selections[t]).dcql_id == id
                        && selections[t].credential_id is Some;
                assert(ids[t] == id);
            }
        }
    }
}

/// Whatever is chosen in the slots of a presentation set answers the query: every credential query
/// where there are no credential sets, and else an option of every required credential set. No
/// credential query is answered twice, and what is answered is one of the combinations.
pub proof fn lemma_choices_answer_the_query<S: CredentialStore>(
    store: S,
    query: DcqlQueryModel,
    data: Option<Seq<TransactionDataModel>>,
    options: PlanOptionsModel,
    s: int,
    choice: Seq<int>,
)
    requires
        plan(store, query, data, options) matches Ok(output) && 0 <= s < output.len() && is_choice(
            output[s],
            choice,
        ),
    ensures
        ({
            let table = query_table(query.credentials);
            let matched = matched_ids(store, table);
            let selections = chosen(plan(store, query, data, options)->Ok_0[s], choice);
            let got = answered_ids(selections);
            &&& answer_apart(selections)
            &&& configs_of(table, query.credential_sets, matched, options)->Ok_0.contains(got)
            &&& match query.credential_sets {
                None => got == table.order.to_set(),
                Some(sets) => forall|k: int|
                    0 <= k < sets.len() && (#[trigger] sets[k]).required ==> answers(
                        got,
                        sets[k],
                        matched,
                    ),
            }
        }),
{
    let output = plan(store, query, data, options)->Ok_0;
    let table = query_table(query.credentials);
    let entries = data_or_none(data);
    let matched = matched_ids(store, table);
    let configs = configs_of(table, query.credential_sets, matched, options)->Ok_0;
    let alternatives = all_alternatives(store, table, options, entries, configs);
    let has_ts12 = ts12_indices(table, entries, options).len() > 0;
    let selections = chosen(output[s], choice);
    let got = answered_ids(selections);
    let (group, slots) = lemma_shown(table, query.credential_sets, alternatives, has_ts12, s);
    let a = match slots {
        Some(slots) => lemma_slots_answer(
            store,
            table,
            options,
            entries,
            configs,
            group,
            slots,
            choice,
        ),
        None => {
            lemma_unfactored_answers(
                store,
                query.credentials,
                options,
                entries,
                configs,
                group[0],
                choice,
            );
            0
        },
    };
    let origin = lemma_origin(store, table, options, entries, configs, group[a]);
    assert(configs.contains(got));
    match query.credential_sets {
        None => {
            assert(configs == seq![table.order.to_set()]);
        },
        Some(sets) => {
            assert forall|k: int|
                0 <= k < sets.len() && (#[trigger] sets[k]).required implies answers(
                got,
                sets[k],
                matched,
            ) by {
                assert(sets.contains(sets[k]));
                lemma_configs_answer_required_sets(table, sets, matched, options, got, sets[k]);
            }
        },
    }
}

/// Whether exactly one of the selections authorizes a transaction.
pub open spec fn authorized_once<R>(selections: Seq<SelectionModel<R>>, index: int) -> bool {
    &&& exists|t: int|
        0 <= t < selections.len() && #[trigger] selections[t].transaction_data_ids.contains(index)
    &&& forall|t: int, u: int|
        0 <= t < selections.len() && 0 <= u < selections.len()
            && #[trigger] selections[t].transaction_data_ids.contains(index)
            && #[trigger] selections[u].transaction_data_ids.contains(index) ==> t == u
}

/// Whether every selection that answers a credential query is offered for it by an alternative of
/// the group.
spec fn offered_by<R>(
    selections: Seq<SelectionModel<R>>,
    group: Seq<AlternativeModel<R>>,
) -> bool {
    forall|t: int|
        0 <= t < selections.len() && (#[trigger] selections[t]).credential_id is Some ==> offers(
            group,
            selections[t].dcql_id,
            selections[t],
        )
}

/// Generic transaction data is authorized by exactly one of the selections that answer an
/// alternative, where they are offered by alternatives that agree with it.
proof fn lemma_bound_once<S: CredentialStore>(
    store: S,
    table: QueryTable,
    options: PlanOptionsModel,
    data: Seq<TransactionDataModel>,
    configs: Seq<Config>,
    group: Seq<AlternativeModel<RefModel<S>>>,
    a: int,
    selections: Seq<SelectionModel<RefModel<S>>>,
    index: int,
)
    requires
        drawn(group, all_alternatives(store, table, options, data, configs)),
        bound_alike(group),
        0 <= a < group.len(),
        group[a].dom() == answered_ids(selections),
        answer_apart(selections),
        offered_by(selections, group),
        forall|t: int|
            0 <= t < selections.len() ==> sound(
                store,
                table,
                options,
                data,
                #[trigger] selections[t],
            ),
        generic_indices(table, data, options).contains(index),
    ensures
        authorized_once(selections, index),
{
    let found = group[a];
    let generic = generic_indices(table, data, options);
    let (config, assignment) = lemma_origin(store, table, options, data, configs, found);
    lemma_generic_indices(table, data, options);
    lemma_assignments_are_sound(store, table, config, data, generic, assignment);
    let k = choose|k: int| 0 <= k < generic.len() && generic[k] == index;
    assert(settled(store, data, assignment, generic[k]));
    let own = assignment.bindings[index]->0;
    assert forall|t: int| 0 <= t < selections.len() && (
    #[trigger] selections[t]).credential_id is Some implies (
    selections[t].transaction_data_ids.contains(index) <==> selections[t].dcql_id == own) by {
        let id = selections[t].dcql_id;
        assert(answered_ids(selections).contains(id));
        assert(found.dom().contains(id));
        let b = choose|b: int|
            0 <= b < group.len() && (#[trigger] group[b]).contains_key(id)
                && group[b][id].contains(selections[t]);
        let other = group[b];
        let (theirs, way) = lemma_origin(store, table, options, data, configs, other);
        assert(other.dom().contains(id));
        lemma_row_is_sound(store, table, options, data, theirs, way, id, selections[t]);
        assert(selections[t].transaction_data_ids.contains(index) <==> way.bindings[index] == Some(
            id,
        ));
        assert(keeps_bindings(found, other));
        assert(keeps_bindings(other, found));
        assert(found.bindings[index] == Some(id) <==> other.bindings[index] == Some(id));
    }
    let start = start_domains(store, table, config);
    assert(start.dom() =~= config);
    assert(config.contains(own));
    assert(answered(selections, own));
    let t = choose|t: int|
        0 <= t < selections.len() && (#[trigger] selections[t]).dcql_id == own
            && selections[t].credential_id is Some;
    assert(selections[t].transaction_data_ids.contains(index));
    assert forall|t: int, u: int|
        0 <= t < selections.len() && 0 <= u < selections.len()
            && #[trigger] selections[t].transaction_data_ids.contains(index)
            && #[trigger] selections[u].transaction_data_ids.contains(index) implies t == u by {
        assert(sound(store, table, options, data, selections[t]));
        assert(sound(store, table, options, data, selections[u]));
        assert(selections[t].credential_id is Some);
        assert(selections[u].credential_id is Some);
    }
}

/// Transaction data is authorized whatever is chosen: in every presentation set, each generic
/// transaction data that can be bound is authorized by exactly one of the selections.
pub proof fn lemma_transaction_data_is_authorized<S: CredentialStore>(
    store: S,
    query: DcqlQueryModel,
    data: Option<Seq<TransactionDataModel>>,
    options: PlanOptionsModel,
    s: int,
    choice: Seq<int>,
    index: int,
)
    requires
        plan(store, query, data, options) matches Ok(output) && 0 <= s < output.len() && is_choice(
            output[s],
            choice,
        ),
        generic_indices(
            query_table(query.credentials),
            data_or_none(data),
            options,
        ).contains(index),
    ensures
        authorized_once(chosen(plan(store, query, data, options)->Ok_0[s], choice), index),
{
    let output = plan(store, query, data, options)->Ok_0;
    let set = output[s];
    let table = query_table(query.credentials);
    let entries = data_or_none(data);
    let matched = matched_ids(store, table);
    let configs = configs_of(table, query.credential_sets, matched, options)->Ok_0;
    let alternatives = all_alternatives(store, table, options, entries, configs);
    let has_ts12 = ts12_indices(table, entries, options).len() > 0;
    let selections = chosen(set, choice);
    assert forall|t: int| 0 <= t < set.len() implies sound(
        store,
        table,
        options,
        entries,
        #[trigger] selections[t],
    ) by {
        assert(0 <= choice[t] < set[t].len());
        lemma_selections_are_sound(store, query, data, options, s, t, choice[t]);
    }
    let (group, slots) = lemma_shown(table, query.credential_sets, alternatives, has_ts12, s);
    let a = match slots {
        Some(slots) => {
            lemma_complete(store, table, options, entries, configs, group);
            lemma_factored(group, slots);
            assert forall|t: int|
                0 <= t < selections.len() && (#[trigger] selections[t]).credential_id is Some implies
                offers(group, selections[t].dcql_id, selections[t]) by {
                let c = choice[t];
                assert(0 <= c < set[t].len());
                lemma_slots_presented(store, table, options, entries, configs, group, slots, t, c);
            }
            lemma_slots_answer(store, table, options, entries, configs, group, slots, choice)
        },
        None => {
            let found = group[0];
            let ids = sorted_ids(found.dom());
            lemma_unfactored(store, query.credentials, options, entries, configs, found);
            lemma_unfactored_answers(
                store,
                query.credentials,
                options,
                entries,
                configs,
                found,
                choice,
            );
            assert forall|t: int|
                0 <= t < selections.len() && (#[trigger] selections[t]).credential_id is Some implies
                offers(group, selections[t].dcql_id, selections[t]) by {
                let c = choice[t];
                assert(0 <= c < set[t].len());
                assert(set[t][c].dcql_id == ids[t]);
                assert(group[0].contains_key(ids[t]));
            }
            assert(bound_alike(group));
            0
        },
    };
    lemma_bound_once(store, table, options, entries, configs, group, a, selections, index);
}

/// What can be chosen for every credential query of a combination makes an alternative.
proof fn lemma_alternative_found<S: CredentialStore>(
    store: S,
    table: QueryTable,
    options: PlanOptionsModel,
    data: Seq<TransactionDataModel>,
    configs: Seq<Config>,
    config: Config,
    assignment: AssignmentModel<RefModel<S>>,
)
    requires
        configs.contains(config),
        assignments(
            store,
            table,
            config,
            data,
            generic_indices(table, data, options),
        ).contains(assignment),
        is_complete(alternative(store, table, options, data, config, assignment)),
    ensures
        all_alternatives(store, table, options, data, configs).contains(
            alternative(store, table, options, data, config, assignment),
        ),
{
    let found = alternative(store, table, options, data, config, assignment);
    let ways = assignments(store, table, config, data, generic_indices(table, data, options));
    let made = |assignment: AssignmentModel<RefModel<S>>|
        alternative(store, table, options, data, config, assignment);
    let all = ways.map_values(made);
    let keep = |found: AlternativeModel<RefModel<S>>| is_complete(found);
    let k = choose|k: int| 0 <= k < ways.len() && ways[k] == assignment;
    assert(all[k] == found);
    lemma_filter_contains(all, keep);
    assert(all.contains(found));
    assert(keep(found));
    let image = |config: Config| alternatives_of(store, table, options, data, config);
    let c = choose|c: int| 0 <= c < configs.len() && configs[c] == config;
    assert(image(configs[c]).contains(found));
    lemma_flat_map_contains(configs, image, found);
}

/// Whether the selections answer exactly these credential queries, in exactly this way.
pub open spec fn presents<R>(
    selections: Seq<SelectionModel<R>>,
    picks: Map<Text, SelectionModel<R>>,
) -> bool {
    &&& forall|t: int|
        0 <= t < selections.len() && (#[trigger] selections[t]).credential_id is Some
            ==> picks.contains_key(selections[t].dcql_id) && picks[selections[t].dcql_id]
            == selections[t]
    &&& forall|id: Text| #[trigger] picks.contains_key(id) ==> selections.contains(picks[id])
}

/// The choice in slots that presents given picks.
proof fn lemma_slots_offer<S: CredentialStore>(
    store: S,
    table: QueryTable,
    options: PlanOptionsModel,
    data: Seq<TransactionDataModel>,
    configs: Seq<Config>,
    group: Seq<AlternativeModel<RefModel<S>>>,
    slots: Seq<SlotModel>,
    found: AlternativeModel<RefModel<S>>,
    picks: Map<Text, SelectionModel<RefModel<S>>>,
) -> (choice: Seq<int>)
    requires
        group.contains(found),
        drawn(group, all_alternatives(store, table, options, data, configs)),
        is_factored(slots, combinations(group)),
        picks.dom() == found.dom(),
        forall|id: Text| #[trigger] picks.contains_key(id) ==> found[id].contains(picks[id]),
    ensures
        is_choice(factored(group, slots), choice) && presents(
            chosen(factored(group, slots), choice),
            picks,
        ),
{
    let set = factored(group, slots);
    lemma_complete(store, table, options, data, configs, group);
    lemma_factored(group, slots);
    let a = choose|a: int| 0 <= a < group.len() && group[a] == found;
    let config = found.dom();
    assert(combinations(group)[a] == config);
    assert(combinations(group).contains(config));
    assert(is_product(slots, config));
    let ids = choose|ids: Seq<Option<Text>>| #[trigger]
        valid_picks(slots, ids) && picked(ids) == config;
    let wanted = Seq::new(
        slots.len(),
        |t: int|
            match ids[t] {
                Some(id) => picks[id],
                None => no_selection(slots[t]),
            },
    );
    assert forall|t: int| 0 <= t < slots.len() implies set[t].contains(#[trigger] wanted[t]) && (
    ids[t] matches Some(id) ==> picks.contains_key(id) && wanted[t].dcql_id == id
        && wanted[t].credential_id is Some) by {
        match ids[t] {
            Some(id) => {
                assert(ids[t] == Some(id));
                assert(ids.contains(Some(id)));
                assert(picked(ids).contains(id));
                assert(picks.contains_key(id));
                assert(group[a].contains_key(id));
                assert(offers(group, id, picks[id]));
                lemma_offer_is_sound(store, table, options, data, configs, group, id, picks[id]);
                let k = choose|k: int| 0 <= k < slots[t].ids.len() && slots[t].ids[k] == id;
                assert(offers(group, slots[t].ids[k], picks[id]));
                lemma_slot_choices(group, slots[t], picks[id]);
            },
            None => {
                assert(ids[t] is None);
                lemma_slot_choices(group, slots[t], no_selection(slots[t]));
            },
        }
    }
    let choice = Seq::new(
        slots.len(),
        |t: int| choose|c: int| 0 <= c < set[t].len() && set[t][c] == wanted[t],
    );
    assert forall|t: int| 0 <= t < set.len() implies 0 <= #[trigger] choice[t] < set[t].len()
        && set[t][choice[t]] == wanted[t] by {
        assert(set[t].contains(wanted[t]));
    }
    let selections = chosen(set, choice);
    assert(selections =~= wanted);
    assert forall|id: Text| #[trigger] picks.contains_key(id) implies selections.contains(
        picks[id],
    ) by {
        assert(picked(ids).contains(id));
        let t = choose|t: int| 0 <= t < ids.len() && ids[t] == Some(id);
        assert(wanted[t] == picks[id]);
    }
    choice
}

/// The choice that presents given picks where an alternative is presented on its own.
proof fn lemma_unfactored_offers<S: CredentialStore>(
    store: S,
    credentials: Seq<CredentialQueryModel>,
    options: PlanOptionsModel,
    data: Seq<TransactionDataModel>,
    configs: Seq<Config>,
    found: AlternativeModel<RefModel<S>>,
    picks: Map<Text, SelectionModel<RefModel<S>>>,
) -> (choice: Seq<int>)
    requires
        all_alternatives(store, query_table(credentials), options, data, configs).contains(found),
        picks.dom() == found.dom(),
        forall|id: Text| #[trigger] picks.contains_key(id) ==> found[id].contains(picks[id]),
    ensures
        is_choice(unfactored(found), choice) && presents(
            chosen(unfactored(found), choice),
            picks,
        ),
{
    let set = unfactored(found);
    let ids = sorted_ids(found.dom());
    lemma_unfactored(store, credentials, options, data, configs, found);
    let choice = Seq::new(
        ids.len(),
        |t: int| choose|c: int| 0 <= c < set[t].len() && set[t][c] == picks[ids[t]],
    );
    assert forall|t: int| 0 <= t < set.len() implies 0 <= #[trigger] choice[t] < set[t].len()
        && set[t][choice[t]] == picks[ids[t]] && picks.contains_key(ids[t]) by {
        assert(found.contains_key(ids[t]));
        assert(picks.dom().contains(ids[t]));
        lemma_distinct(found[ids[t]]);
        assert(set[t].contains(picks[ids[t]]));
    }
    let selections = chosen(set, choice);
    assert forall|t: int| 0 <= t < selections.len() && (
    #[trigger] selections[t]).credential_id is Some implies picks.contains_key(
        selections[t].dcql_id,
    ) && picks[selections[t].dcql_id] == selections[t] by {
        let c = choice[t];
        assert(set[t][c].dcql_id == ids[t]);
    }
    assert forall|id: Text| #[trigger] picks.contains_key(id) implies selections.contains(
        picks[id],
    ) by {
        assert(found.dom().contains(id));
        assert(ids.to_set().contains(id));
        let t = choose|t: int| 0 <= t < ids.len() && ids[t] == id;
        let c = choice[t];
        assert(selections[t] == picks[id]);
    }
    choice
}

/// All valid combinations are offered: for every combination that answers the query, every way to
/// bind transaction data in it, and every pick of what can then be chosen for its credential
/// queries, some presentation set has exactly these picks among its choices.
pub proof fn lemma_combinations_are_offered<S: CredentialStore>(
    store: S,
    query: DcqlQueryModel,
    data: Option<Seq<TransactionDataModel>>,
    options: PlanOptionsModel,
    config: Config,
    assignment: AssignmentModel<RefModel<S>>,
    picks: Map<Text, SelectionModel<RefModel<S>>>,
)
    requires
        plan(store, query, data, options) is Ok,
        configs_of(
            query_table(query.credentials),
            query.credential_sets,
            matched_ids(store, query_table(query.credentials)),
            options,
        )->Ok_0.contains(config),
        assignments(
            store,
            query_table(query.credentials),
            config,
            data_or_none(data),
            generic_indices(query_table(query.credentials), data_or_none(data), options),
        ).contains(assignment),
        picks.dom() == config,
        forall|id: Text| #[trigger]
            picks.contains_key(id) ==> row(
                store,
                query_table(query.credentials),
                options,
                data_or_none(data),
                assignment,
                id,
            ).contains(picks[id]),
    ensures
        ({
            let output = plan(store, query, data, options)->Ok_0;
            exists|s: int, choice: Seq<int>|
                0 <= s < output.len() && #[trigger] is_choice(output[s], choice) && presents(
                    chosen(output[s], choice),
                    picks,
                )
        }),
{
    let output = plan(store, query, data, options)->Ok_0;
    let table = query_table(query.credentials);
    let entries = data_or_none(data);
    let matched = matched_ids(store, table);
    let configs = configs_of(table, query.credential_sets, matched, options)->Ok_0;
    let alternatives = all_alternatives(store, table, options, entries, configs);
    let has_ts12 = ts12_indices(table, entries, options).len() > 0;
    let found = alternative(store, table, options, entries, config, assignment);
    assert(found.dom() =~= config);
    assert forall|id: Text| #[trigger] found.contains_key(id) implies found[id].len() > 0 by {
        assert(picks.dom().contains(id));
        assert(picks.contains_key(id));
        assert(found[id].contains(picks[id]));
    }
    assert forall|id: Text| #[trigger] picks.contains_key(id) implies found[id].contains(
        picks[id],
    ) by {
        assert(found.contains_key(id));
    }
    lemma_alternative_found(store, table, options, entries, configs, config, assignment);
    let (s, group, slots) = lemma_alternatives_are_shown(
        table,
        query.credential_sets,
        alternatives,
        has_ts12,
        found,
    );
    let choice = match slots {
        Some(slots) => lemma_slots_offer(
            store,
            table,
            options,
            entries,
            configs,
            group,
            slots,
            found,
            picks,
        ),
        None => lemma_unfactored_offers(
            store,
            query.credentials,
            options,
            entries,
            configs,
            found,
            picks,
        ),
    };
    assert(is_choice(output[s], choice));
}

/// A credential query whose id an earlier query has does not matter to a plan.
pub proof fn lemma_duplicate_queries_do_not_matter<S: CredentialStore>(
    store: S,
    before: Seq<CredentialQueryModel>,
    duplicate: CredentialQueryModel,
    after: Seq<CredentialQueryModel>,
    credential_sets: Option<Seq<CredentialSetModel>>,
    data: Option<Seq<TransactionDataModel>>,
    options: PlanOptionsModel,
)
    requires
        duplicate.id() is Some,
        exists|i: int| 0 <= i < before.len() && (#[trigger] before[i]).id() == duplicate.id(),
    ensures
        plan(
            store,
            DcqlQueryModel { credentials: before.push(duplicate) + after, credential_sets },
            data,
            options,
        ) == plan(
            store,
            DcqlQueryModel { credentials: before + after, credential_sets },
            data,
            options,
        ),
{
    lemma_duplicate_ids_are_ignored(before, duplicate, after);
}

/// A credential query of an unknown format does not matter to a plan.
pub proof fn lemma_unknown_formats_do_not_matter<S: CredentialStore>(
    store: S,
    before: Seq<CredentialQueryModel>,
    after: Seq<CredentialQueryModel>,
    credential_sets: Option<Seq<CredentialSetModel>>,
    data: Option<Seq<TransactionDataModel>>,
    options: PlanOptionsModel,
)
    ensures
        plan(
            store,
            DcqlQueryModel {
                credentials: before.push(CredentialQueryModel::Unknown) + after,
                credential_sets,
            },
            data,
            options,
        ) == plan(
            store,
            DcqlQueryModel { credentials: before + after, credential_sets },
            data,
            options,
        ),
{
    lemma_unknown_formats_are_ignored(before, after);
}

/// Asked of one credential alone, a query selects the same claims as the credential is asked for.
pub proof fn lemma_claims_of_one_credential<S: CredentialStore>(
    store: S,
    query: CredentialQueryModel,
    cred: RefModel<S>,
)
    ensures
        ({
            let (claims, left) = claim_selection(store, query, seq![cred]);
            claims_of(store, cred, query) == if left.len() > 0 {
                Some(claims)
            } else {
                None
            }
        }),
{
    let one = seq![cred];
    assert forall|claims: Seq<ClaimModel>| (#[trigger] holding(store, claims, one)).len() > 0
        <==> claims_ok(store, cred, claims) by {
        lemma_holding(store, claims, one, cred);
        assert(one[0] == cred);
        let held = holding(store, claims, one);
        if held.len() > 0 {
            assert(held.contains(held[0]));
            lemma_holding(store, claims, one, held[0]);
        }
    }
    if let Some(written) = query.claims() {
        let claims = distinct_paths(written);
        if let Some(claim_sets) = query.claim_sets() {
            let held = |set: Seq<ClaimModel>| holding(store, set, one).len() > 0;
            let ok = |set: Seq<ClaimModel>| claims_ok(store, cred, set);
            assert(held =~= ok);
            let sets = valid_claim_sets(claims, claim_sets);
            lemma_first_where(sets, held);
        }
    }
}

/// A plan is given up as unsatisfied only where nothing answers the query: under no combination and
/// no way to bind transaction data can something be chosen for every credential query.
pub proof fn lemma_unsatisfied_plans_have_no_answer<S: CredentialStore>(
    store: S,
    query: DcqlQueryModel,
    data: Option<Seq<TransactionDataModel>>,
    options: PlanOptionsModel,
    config: Config,
    assignment: AssignmentModel<RefModel<S>>,
)
    requires
        plan(store, query, data, options) == Err::<
            OutputModel<RefModel<S>>,
            PlanErrorModel,
        >(PlanErrorModel::Unsatisfied),
        configs_of(
            query_table(query.credentials),
            query.credential_sets,
            matched_ids(store, query_table(query.credentials)),
            options,
        ) matches Ok(configs) && configs.contains(config),
        assignments(
            store,
            query_table(query.credentials),
            config,
            data_or_none(data),
            generic_indices(query_table(query.credentials), data_or_none(data), options),
        ).contains(assignment),
    ensures
        !is_complete(
            alternative(
                store,
                query_table(query.credentials),
                options,
                data_or_none(data),
                config,
                assignment,
            ),
        ),
{
    let table = query_table(query.credentials);
    let entries = data_or_none(data);
    let configs = configs_of(
        table,
        query.credential_sets,
        matched_ids(store, table),
        options,
    )->Ok_0;
    let found = alternative(store, table, options, entries, config, assignment);
    if is_complete(found) {
        lemma_alternative_found(store, table, options, entries, configs, config, assignment);
        let alternatives = all_alternatives(store, table, options, entries, configs);
        assert(alternatives.len() > 0);
    }
}

/// Only TS12 transaction data makes a query invalid.
pub proof fn lemma_only_ts12_makes_queries_invalid<S: CredentialStore>(
    store: S,
    query: DcqlQueryModel,
    data: Option<Seq<TransactionDataModel>>,
    options: PlanOptionsModel,
)
    requires
        plan(store, query, data, options) matches Err(error) && error is InvalidQuery,
    ensures
        exists|i: int|
            0 <= i < data_or_none(data).len() && options.is_ts12(
                (#[trigger] data_or_none(data)[i]).data_type,
            ) && usable(query_table(query.credentials), data_or_none(data)[i]),
        plan(store, query, data, options) == Err::<OutputModel<RefModel<S>>, PlanErrorModel>(
            PlanErrorModel::InvalidQuery(SPREAD_OVER_SETS@),
        ) || plan(store, query, data, options) == Err::<OutputModel<RefModel<S>>, PlanErrorModel>(
            PlanErrorModel::InvalidQuery(NOT_TRANSPOSABLE@),
        ),
{
    let table = query_table(query.credentials);
    let entries = data_or_none(data);
    let indices = ts12_indices(table, entries, options);
    let wanted = |i: int| usable(table, entries[i]) && options.is_ts12(entries[i].data_type);
    let ids = ts12_ids(table, entries, indices);
    if indices.len() == 0 {
        assert(ids =~= Set::<Text>::empty());
    } else {
        lemma_indices_where(entries.len(), wanted, 0);
        let i = indices[0];
        assert(options.is_ts12(entries[i].data_type));
    }
}

/// Without prefixes nothing is TS12 transaction data.
pub proof fn lemma_no_prefixes_disable_ts12(
    table: QueryTable,
    data: Seq<TransactionDataModel>,
    options: PlanOptionsModel,
)
    requires
        options.ts12_prefixes.len() == 0,
    ensures
        ts12_indices(table, data, options).len() == 0,
{
    let wanted = |i: int| usable(table, data[i]) && options.is_ts12(data[i].data_type);
    if ts12_indices(table, data, options).len() > 0 {
        lemma_indices_where(data.len(), wanted, 0);
    }
}

} // verus!
