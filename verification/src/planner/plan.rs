//! The planner: from a query, transaction data and a store to presentation sets.

use crate::idset::{lemma_sorted_ids, sorted_ids, strictly_sorted, IdSet};
use crate::models::{CredentialSetModel, CredentialSetQuery, DcqlQuery, DcqlQueryModel};
use crate::models::{TransactionData, TransactionDataModel};
use crate::planner::by_id::ById;
use crate::planner::configs::{build_configs, configs_of, Config};
use crate::planner::constraints::{as_ints, generic_indices, lemma_indices_where, ts12_fault};
use crate::planner::constraints::{ts12_ids, ts12_indices, usable, TransactionConstraints};
use crate::planner::error::{PlanError, PlanErrorModel};
use crate::planner::index::{query_table, QueryIndex, QueryTable};
use crate::planner::matching::{candidates, claim_selection, match_claim_selection, match_query};
use crate::planner::matching::{result_view, QueryMatches};
use crate::planner::options::{PlanOptions, PlanOptionsModel};
use crate::planner::presentation::{build_presentation_sets, presented, AlternativeModel};
use crate::planner::presentation::{DcqlOutput, OutputModel, SelectionAlternative};
use crate::planner::selections::{selections, selections_for_query, CredentialSelection};
use crate::planner::selections::SelectionModel;
use crate::planner::slots::dedupe_order;
use crate::planner::transactions::{assignments, clone_refs, copy_bindings};
use crate::planner::transactions::{enumerate_transaction_assignments, has_match, matched_ids, tabled, AssignmentModel};
use crate::planner::transactions::TransactionAssignment;
use crate::seqs::{distinct, first_where, lemma_add_contains, lemma_distinct};
use crate::seqs::{lemma_filter_contains, lemma_filter_step, lemma_first_where};
use crate::seqs::{lemma_first_where_is, lemma_flat_map_contains, lemma_flat_map_empty};
use crate::seqs::{lemma_flat_map_step, lemma_take_all};
use crate::store::{lawful_refs, CredentialStore, RefModel};
use crate::text::Text;
use vstd::prelude::*;

verus! {

broadcast use vstd::string::group_string_axioms;

/// The first option of a credential set that a combination holds, as it is written.
pub open spec fn first_option(set: CredentialSetModel, config: Config) -> Seq<Text> {
    match first_where(set.options, |option: Seq<Text>| option.to_set().subset_of(config)) {
        Some(k) => set.options[k],
        None => Seq::empty(),
    }
}

/// The first options of all credential sets, one after the other.
pub open spec fn first_options(
    credential_sets: Option<Seq<CredentialSetModel>>,
    config: Config,
) -> Seq<Text> {
    match credential_sets {
        Some(sets) => sets.flat_map(|set: CredentialSetModel| first_option(set, config)),
        None => Seq::empty(),
    }
}

/// The ids of a combination in the order in which they are worked on: as the options name them,
/// then as the credential queries are listed, then by name.
pub open spec fn config_order(
    table: QueryTable,
    credential_sets: Option<Seq<CredentialSetModel>>,
    config: Config,
) -> Seq<Text> {
    distinct(
        first_options(credential_sets, config) + table.order.filter(
            |id: Text| config.contains(id),
        ) + sorted_ids(config),
    )
}

/// What can be chosen for a credential query under an assignment of transaction data.
pub open spec fn row<S: CredentialStore>(
    store: S,
    table: QueryTable,
    options: PlanOptionsModel,
    data: Seq<TransactionDataModel>,
    assignment: AssignmentModel<RefModel<S>>,
    id: Text,
) -> Seq<SelectionModel<RefModel<S>>> {
    if table.queries.contains_key(id) && assignment.domains.contains_key(id) {
        let (claims, creds) = claim_selection(
            store,
            table.queries[id],
            assignment.domains[id],
        );
        selections(
            store,
            options,
            data,
            ts12_indices(table, data, options),
            assignment.bindings,
            id,
            claims,
            creds,
        )
    } else {
        Seq::empty()
    }
}

/// What can be chosen for the credential queries of a combination under an assignment.
pub open spec fn alternative<S: CredentialStore>(
    store: S,
    table: QueryTable,
    options: PlanOptionsModel,
    data: Seq<TransactionDataModel>,
    config: Config,
    assignment: AssignmentModel<RefModel<S>>,
) -> AlternativeModel<RefModel<S>> {
    AlternativeModel {
        choices: Map::new(
            |id: Text| config.contains(id),
            |id: Text| row(store, table, options, data, assignment, id),
        ),
        bindings: assignment.bindings,
    }
}

/// Whether something can be chosen for every credential query.
pub open spec fn is_complete<R>(alternative: AlternativeModel<R>) -> bool {
    forall|id: Text| #[trigger] alternative.contains_key(id) ==> alternative[id].len() > 0
}

/// The alternatives of a combination.
pub open spec fn alternatives_of<S: CredentialStore>(
    store: S,
    table: QueryTable,
    options: PlanOptionsModel,
    data: Seq<TransactionDataModel>,
    config: Config,
) -> Seq<AlternativeModel<RefModel<S>>> {
    assignments(store, table, config, data, generic_indices(table, data, options)).map_values(
        |assignment: AssignmentModel<RefModel<S>>|
            alternative(store, table, options, data, config, assignment),
    ).filter(|found: AlternativeModel<RefModel<S>>| is_complete(found))
}

/// The alternatives of all combinations, those of the first combination first.
pub open spec fn all_alternatives<S: CredentialStore>(
    store: S,
    table: QueryTable,
    options: PlanOptionsModel,
    data: Seq<TransactionDataModel>,
    configs: Seq<Config>,
) -> Seq<AlternativeModel<RefModel<S>>> {
    configs.flat_map(|config: Config| alternatives_of(store, table, options, data, config))
}

/// The plan for the credential queries of a table.
pub open spec fn plan_table<S: CredentialStore>(
    store: S,
    table: QueryTable,
    credential_sets: Option<Seq<CredentialSetModel>>,
    data: Seq<TransactionDataModel>,
    options: PlanOptionsModel,
) -> Result<OutputModel<RefModel<S>>, PlanErrorModel> {
    match configs_of(table, credential_sets, matched_ids(store, table), options) {
        Err(error) => Err(error),
        Ok(configs) => if configs.len() == 0 {
            Err(PlanErrorModel::Unsatisfied)
        } else {
            let ts12 = ts12_indices(table, data, options);
            match ts12_fault(credential_sets, ts12_ids(table, data, ts12)) {
                Some(reason) => Err(PlanErrorModel::InvalidQuery(reason)),
                None => {
                    let alternatives = all_alternatives(store, table, options, data, configs);
                    if alternatives.len() == 0 {
                        Err(PlanErrorModel::Unsatisfied)
                    } else {
                        presented(table, credential_sets, alternatives, ts12.len() > 0)
                    }
                },
            }
        },
    }
}

/// The transaction data of a request that may have none.
pub open spec fn data_or_none(data: Option<Seq<TransactionDataModel>>) -> Seq<
    TransactionDataModel,
> {
    match data {
        Some(data) => data,
        None => Seq::empty(),
    }
}

/// The plan for a query.
pub open spec fn plan<S: CredentialStore>(
    store: S,
    query: DcqlQueryModel,
    data: Option<Seq<TransactionDataModel>>,
    options: PlanOptionsModel,
) -> Result<OutputModel<RefModel<S>>, PlanErrorModel> {
    plan_table(
        store,
        query_table(query.credentials),
        query.credential_sets,
        data_or_none(data),
        options,
    )
}

/// The first option of `set` that `config` holds.
fn option_within<'a>(
    set: &'a CredentialSetQuery,
    config: &IdSet,
) -> (option: Option<&'a Vec<String>>)
    ensures
        match option {
            Some(option) => option.deep_view() == first_option(set.deep_view(), config@),
            None => first_option(set.deep_view(), config@) == Seq::<Text>::empty(),
        },
{
    let ghost all = set.deep_view().options;
    let ghost within = |option: Seq<Text>| option.to_set().subset_of(config@);
    let mut i: usize = 0;
    while i < set.options.len()
        invariant
            i <= set.options.len(),
            all == set.deep_view().options,
            within == (|option: Seq<Text>| option.to_set().subset_of(config@)),
            forall|j: int| 0 <= j < i ==> !within(#[trigger] all[j]),
        decreases set.options.len() - i,
    {
        let option = &set.options[i];
        assert(all[i as int] == option.deep_view());
        if IdSet::collect(option.as_slice()).is_subset(config) {
            proof {
                lemma_first_where_is(all, within, i as int);
            }
            return Some(option);
        }
        i = i + 1;
    }
    proof {
        lemma_first_where(all, within);
    }
    None
}

/// The ids of `config` in the order in which they are worked on.
pub fn order_config_ids(
    index: &QueryIndex<'_>,
    credential_sets: &Option<Vec<CredentialSetQuery>>,
    config: &IdSet,
) -> (ordered: Vec<String>)
    requires
        index.well_formed(),
    ensures
        ordered.deep_view() == config_order(index@, credential_sets.deep_view(), config@),
        ordered.deep_view().no_duplicates(),
        ordered.deep_view().to_set() == config@,
{
    let mut ids: Vec<String> = Vec::new();
    assert(ids.deep_view() =~= Seq::<Text>::empty());
    if let Some(sets) = credential_sets {
        let ghost all = sets.deep_view();
        let ghost image = |set: CredentialSetModel| first_option(set, config@);
        proof {
            lemma_flat_map_empty(all.take(0), image);
        }
        let mut i: usize = 0;
        while i < sets.len()
            invariant
                i <= sets.len(),
                all == sets.deep_view(),
                image == (|set: CredentialSetModel| first_option(set, config@)),
                ids.deep_view() == all.take(i as int).flat_map(image),
            decreases sets.len() - i,
        {
            let ghost before = ids.deep_view();
            proof {
                assert(all[i as int] == sets@[i as int].deep_view());
                lemma_flat_map_step(all, image, i as int);
            }
            match option_within(&sets[i], config) {
                Some(option) => {
                    let mut copy = option.clone();
                    assert(copy.deep_view() =~= option.deep_view());
                    let ghost added = copy.deep_view();
                    ids.append(&mut copy);
                    assert(ids.deep_view() =~= before + added);
                },
                None => {
                    assert(ids.deep_view() =~= before + Seq::empty());
                },
            }
            i = i + 1;
        }
        proof {
            lemma_take_all(all);
        }
    }
    let ghost first = ids.deep_view();
    let ghost order = index@.order;
    let ghost keep = |id: Text| config@.contains(id);
    let mut j: usize = 0;
    assert(order.take(0).filter(keep) =~= Seq::<Text>::empty());
    assert(ids.deep_view() =~= first + order.take(0).filter(keep));
    while j < index.ids.len()
        invariant
            j <= index.ids.len(),
            index.well_formed(),
            order == index@.order,
            keep == (|id: Text| config@.contains(id)),
            ids.deep_view() == first + order.take(j as int).filter(keep),
        decreases index.ids.len() - j,
    {
        let ghost before = ids.deep_view();
        proof {
            assert(order[j as int] == index.ids@[j as int]@);
            lemma_filter_step(order, keep, j as int);
        }
        if config.contains(index.ids[j].as_str()) {
            ids.push(index.ids[j].clone());
            assert(ids.deep_view() =~= before.push(order[j as int]));
            assert(ids.deep_view() =~= first + order.take(j + 1).filter(keep));
        }
        j = j + 1;
    }
    proof {
        lemma_take_all(order);
    }
    let ghost middle = ids.deep_view();
    let listed = config.ids();
    let mut names = listed.clone();
    assert(names.deep_view() =~= listed.deep_view());
    ids.append(&mut names);
    assert(ids.deep_view() =~= middle + sorted_ids(config@));
    proof {
        lemma_config_order(index@, credential_sets.deep_view(), listed.deep_view());
    }
    dedupe_order(ids)
}

/// The order of a combination lists all of its ids, each once, and no other.
pub proof fn lemma_config_order(
    table: QueryTable,
    credential_sets: Option<Seq<CredentialSetModel>>,
    ids: Seq<Text>,
)
    requires
        strictly_sorted(ids),
    ensures
        config_order(table, credential_sets, ids.to_set()).no_duplicates(),
        config_order(table, credential_sets, ids.to_set()).to_set() == ids.to_set(),
{
    let config = ids.to_set();
    lemma_sorted_ids(ids);
    let keep = |id: Text| config.contains(id);
    let first = first_options(credential_sets, config);
    let second = table.order.filter(keep);
    let all = first + second + sorted_ids(config);
    lemma_distinct(all);
    lemma_filter_contains(table.order, keep);
    assert forall|id: Text| all.contains(id) <==> config.contains(id) by {
        lemma_add_contains(first + second, sorted_ids(config), id);
        lemma_add_contains(first, second, id);
        assert(ids.to_set().contains(id) <==> ids.contains(id));
        if first.contains(id) {
            let sets = credential_sets->0;
            let image = |set: CredentialSetModel| first_option(set, config);
            lemma_flat_map_contains(sets, image, id);
            let i = choose|i: int| 0 <= i < sets.len() && image(#[trigger] sets[i]).contains(id);
            let within = |option: Seq<Text>| option.to_set().subset_of(config);
            lemma_first_where(sets[i].options, within);
            let option = first_option(sets[i], config);
            assert(option.contains(id));
            assert(within(option));
            assert(option.to_set().contains(id));
        }
    }
    let order = config_order(table, credential_sets, config);
    assert(order == distinct(all));
    assert(order.to_set() =~= config) by {
        assert forall|id: Text| order.to_set().contains(id) <==> config.contains(id) by {
            assert(order.to_set().contains(id) <==> order.contains(id));
        }
    }
}

/// What can be chosen for `id` under `assignment`.
fn build_row<S: CredentialStore>(
    store: &S,
    options: &PlanOptions,
    index: &QueryIndex<'_>,
    constraints: &TransactionConstraints<'_>,
    assignment: &TransactionAssignment<S::CredentialRef>,
    id: &str,
) -> (out: Vec<CredentialSelection<S::CredentialRef>>)
    requires
        lawful_refs::<S::CredentialRef>(),
        index.well_formed(),
        constraints.sorted_for(index@, options.deep_view()),
        assignment.domains.well_formed(),
    ensures
        out.deep_view() == row(
            *store,
            index@,
            options.deep_view(),
            constraints.data.deep_view(),
            assignment.deep_view(),
            id@,
        ),
{
    let nothing: Vec<CredentialSelection<S::CredentialRef>> = Vec::new();
    assert(nothing.deep_view() =~= Seq::<SelectionModel<RefModel<S>>>::empty());
    let query = match index.position(id) {
        Some(at) => index.queries[at],
        None => return nothing,
    };
    let at = match assignment.domains.position(id) {
        Some(at) => at,
        None => return nothing,
    };
    proof {
        let data = constraints.data.deep_view();
        let table = index@;
        let knobs = options.deep_view();
        let wanted = |i: int| usable(table, data[i]) && knobs.is_ts12(data[i].data_type);
        assert forall|k: int| 0 <= k < constraints.ts12_indices.len() implies (
        #[trigger] constraints.ts12_indices@[k]) < constraints.data@.len() by {
            assert(as_ints(constraints.ts12_indices@)[k] == constraints.ts12_indices@[k]);
            lemma_indices_where(data.len(), wanted, k);
        }
    }
    let domain = clone_refs(&assignment.domains.rows[at]);
    let (claims, creds) = match_claim_selection(store, query, domain);
    selections_for_query(
        store,
        options,
        constraints.data,
        &constraints.ts12_indices,
        &assignment.transaction_credential_ids,
        id,
        &claims,
        &creds,
    )
}

/// What can be chosen for the credential queries of `config` under `assignment`, if something can
/// be chosen for each.
fn build_alternative<S: CredentialStore>(
    store: &S,
    options: &PlanOptions,
    index: &QueryIndex<'_>,
    credential_sets: &Option<Vec<CredentialSetQuery>>,
    constraints: &TransactionConstraints<'_>,
    config: &IdSet,
    assignment: &TransactionAssignment<S::CredentialRef>,
) -> (found: Option<SelectionAlternative<S::CredentialRef>>)
    requires
        lawful_refs::<S::CredentialRef>(),
        index.well_formed(),
        constraints.sorted_for(index@, options.deep_view()),
        assignment.domains.well_formed(),
    ensures
        ({
            let model = alternative(
                *store,
                index@,
                options.deep_view(),
                constraints.data.deep_view(),
                config@,
                assignment.deep_view(),
            );
            match found {
                Some(found) => found.well_formed() && found.deep_view() == model && is_complete(
                    model,
                ),
                None => !is_complete(model),
            }
        }),
{
    let ghost model = alternative(
        *store,
        index@,
        options.deep_view(),
        constraints.data.deep_view(),
        config@,
        assignment.deep_view(),
    );
    let ids = order_config_ids(index, credential_sets, config);
    let ghost order = ids.deep_view();
    let mut rows: Vec<Vec<CredentialSelection<S::CredentialRef>>> = Vec::new();
    let mut i: usize = 0;
    while i < ids.len()
        invariant
            lawful_refs::<S::CredentialRef>(),
            i <= ids.len(),
            index.well_formed(),
            constraints.sorted_for(index@, options.deep_view()),
            assignment.domains.well_formed(),
            order == ids.deep_view(),
            order.to_set() == config@,
            model == alternative(
                *store,
                index@,
                options.deep_view(),
                constraints.data.deep_view(),
                config@,
                assignment.deep_view(),
            ),
            rows.len() == i,
            forall|k: int|
                0 <= k < i ==> model[#[trigger] order[k]] == rows@[k].deep_view()
                    && model[order[k]].len() > 0,
        decreases ids.len() - i,
    {
        let found = build_row(store, options, index, constraints, assignment, ids[i].as_str());
        proof {
            assert(order[i as int] == ids@[i as int]@);
            assert(order.to_set().contains(order[i as int]));
            assert(model.contains_key(order[i as int]));
            assert(model[order[i as int]] == found.deep_view());
            assert(found.deep_view().len() == found.len());
        }
        if found.is_empty() {
            return None;
        }
        rows.push(found);
        i = i + 1;
    }
    let choices = ById { ids, rows };
    proof {
        assert forall|id: Text| #[trigger] model.contains_key(id) implies model[id].len() > 0 by {
            assert(order.to_set().contains(id));
            let k = choose|k: int| 0 <= k < order.len() && order[k] == id;
            assert(model[order[k]].len() > 0);
        }
        assert(choices.deep_view() =~= model.choices) by {
            assert forall|id: Text| #[trigger]
                choices.deep_view().contains_key(id) <==> model.contains_key(id) by {
                assert(order.to_set().contains(id) <==> order.contains(id));
            }
            assert forall|id: Text| #[trigger]
                choices.deep_view().contains_key(id) implies choices.deep_view()[id]
                == model[id] by {
                let k = choose|k: int| 0 <= k < order.len() && order[k] == id;
                choices.lemma_at(k);
                assert(order[k] == choices.ids@[k]@);
            }
        }
    }
    Some(
        SelectionAlternative {
            choices,
            bindings: copy_bindings(&assignment.transaction_credential_ids),
        },
    )
}

/// The alternatives of `config`.
fn build_alternatives<S: CredentialStore>(
    store: &S,
    options: &PlanOptions,
    index: &QueryIndex<'_>,
    credential_sets: &Option<Vec<CredentialSetQuery>>,
    matches: &Vec<QueryMatches<S::CredentialRef>>,
    constraints: &TransactionConstraints<'_>,
    config: &IdSet,
) -> (out: Vec<SelectionAlternative<S::CredentialRef>>)
    requires
        lawful_refs::<S::CredentialRef>(),
        index.well_formed(),
        tabled(*store, *index, matches@),
        constraints.sorted_for(index@, options.deep_view()),
    ensures
        out.deep_view() == alternatives_of(
            *store,
            index@,
            options.deep_view(),
            constraints.data.deep_view(),
            config@,
        ),
        forall|k: int| 0 <= k < out.len() ==> (#[trigger] out@[k]).well_formed(),
{
    let ghost data = constraints.data.deep_view();
    let ghost table = index@;
    let ghost knobs = options.deep_view();
    proof {
        let wanted = |i: int| usable(table, data[i]) && !knobs.is_ts12(data[i].data_type);
        assert forall|k: int| 0 <= k < constraints.generic_indices.len() implies (
        #[trigger] constraints.generic_indices@[k]) < constraints.data@.len() by {
            assert(as_ints(constraints.generic_indices@)[k] == constraints.generic_indices@[k]);
            lemma_indices_where(data.len(), wanted, k);
        }
    }
    let found = enumerate_transaction_assignments(
        store,
        config,
        index,
        matches,
        constraints.data,
        &constraints.generic_indices,
    );
    let ghost image = |assignment: AssignmentModel<RefModel<S>>|
        alternative(*store, table, knobs, data, config@, assignment);
    let ghost keep = |found: AlternativeModel<RefModel<S>>| is_complete(found);
    let ghost all = found.deep_view().map_values(image);
    let mut out: Vec<SelectionAlternative<S::CredentialRef>> = Vec::new();
    assert(out.deep_view() =~= all.take(0).filter(keep));
    let mut i: usize = 0;
    while i < found.len()
        invariant
            lawful_refs::<S::CredentialRef>(),
            i <= found.len(),
            index.well_formed(),
            constraints.sorted_for(index@, options.deep_view()),
            data == constraints.data.deep_view(),
            table == index@,
            knobs == options.deep_view(),
            image == (|assignment: AssignmentModel<RefModel<S>>|
                alternative(*store, table, knobs, data, config@, assignment)),
            keep == (|found: AlternativeModel<RefModel<S>>| is_complete(found)),
            all == found.deep_view().map_values(image),
            forall|k: int| 0 <= k < found.len() ==> (#[trigger] found@[k]).domains.well_formed(),
            forall|k: int| 0 <= k < out.len() ==> (#[trigger] out@[k]).well_formed(),
            out.deep_view() == all.take(i as int).filter(keep),
        decreases found.len() - i,
    {
        let assignment = &found[i];
        proof {
            assert(found.deep_view()[i as int] == assignment.deep_view());
            lemma_filter_step(all, keep, i as int);
        }
        match build_alternative(
            store,
            options,
            index,
            credential_sets,
            constraints,
            config,
            assignment,
        ) {
            Some(built) => {
                let ghost before = out.deep_view();
                out.push(built);
                assert(out.deep_view() =~= before.push(all[i as int]));
            },
            None => {},
        }
        i = i + 1;
    }
    proof {
        lemma_take_all(all);
    }
    out
}

/// What the credential queries of `index` match.
fn match_queries<S: CredentialStore>(
    store: &S,
    index: &QueryIndex<'_>,
) -> (matches: Vec<QueryMatches<S::CredentialRef>>)
    requires
        lawful_refs::<S::CredentialRef>(),
        index.well_formed(),
    ensures
        tabled(*store, *index, matches@),
{
    let mut matches: Vec<QueryMatches<S::CredentialRef>> = Vec::new();
    let mut i: usize = 0;
    while i < index.queries.len()
        invariant
            lawful_refs::<S::CredentialRef>(),
            i <= index.queries.len(),
            index.well_formed(),
            matches.len() == i,
            forall|k: int|
                0 <= k < i ==> (#[trigger] matches@[k]).credentials.deep_view() == candidates(
                    *store,
                    index@.queries[index.ids@[k]@],
                ),
        decreases index.queries.len() - i,
    {
        proof {
            let id = index@.order[i as int];
            assert(id == index.ids@[i as int]@);
            assert(index@.order.contains(id));
            assert(index@.queries.contains_key(id));
            assert(index@.queries[id].id() is Some);
        }
        match match_query(store, index.queries[i]) {
            Ok(found) => matches.push(found),
            Err(_) => {
                assert(false);
            },
        }
        i = i + 1;
    }
    matches
}

/// The credential queries that some credential answers, claims aside.
fn matched_set<S: CredentialStore>(
    store: &S,
    index: &QueryIndex<'_>,
    matches: &Vec<QueryMatches<S::CredentialRef>>,
) -> (matched: IdSet)
    requires
        index.well_formed(),
        tabled(*store, *index, matches@),
    ensures
        matched@ == matched_ids(*store, index@),
{
    let ghost order = index@.order;
    let mut matched = IdSet::new();
    let mut i: usize = 0;
    while i < matches.len()
        invariant
            i <= matches.len(),
            index.well_formed(),
            tabled(*store, *index, matches@),
            order == index@.order,
            forall|id: Text| #[trigger]
                matched@.contains(id) <==> order.take(i as int).contains(id) && has_match(
                    *store,
                    index@,
                    id,
                ),
        decreases matches.len() - i,
    {
        let ghost before = matched@;
        let ghost earlier = order.take(i as int);
        let ghost now = order.take(i + 1);
        let ghost own = order[i as int];
        proof {
            assert(own == index.ids@[i as int]@);
            assert(order.contains(own));
            assert(now =~= earlier.push(own));
            assert(matches@[i as int].credentials.deep_view().len() == matches@[i as int].credentials.len());
        }
        if !matches[i].credentials.is_empty() {
            matched = matched.with(index.ids[i].clone());
        }
        proof {
            assert forall|id: Text| #[trigger]
                matched@.contains(id) <==> now.contains(id) && has_match(*store, index@, id) by {
                crate::seqs::lemma_push_contains(earlier, own, id);
                assert(before.contains(id) <==> earlier.contains(id) && has_match(
                    *store,
                    index@,
                    id,
                ));
            }
        }
        i = i + 1;
    }
    proof {
        lemma_take_all(order);
        assert(matched@ =~= matched_ids(*store, index@)) by {
            assert forall|id: Text| has_match(*store, index@, id) implies order.contains(id) by {
                assert(index@.order.contains(id) <==> index@.queries.contains_key(id));
            }
        }
    }
    matched
}

/// Builds a UI-oriented presentation plan from DCQL and optional transaction data.
///
/// The output is a list of presentation sets. Each set contains independent slots with alternative
/// credentials, and all transaction-data constraints are preserved.
pub fn plan_selection<S: CredentialStore>(
    query: &DcqlQuery,
    transaction_data: Option<&[TransactionData]>,
    store: &S,
    options: &PlanOptions,
) -> (output: Result<DcqlOutput<S::CredentialRef>, PlanError>)
    requires
        lawful_refs::<S::CredentialRef>(),
    ensures
        result_view(output) == plan(
            *store,
            query.deep_view(),
            transaction_data.deep_view(),
            options.deep_view(),
        ),
{
    let nothing: Vec<TransactionData> = Vec::new();
    let data = match transaction_data {
        Some(data) => data,
        None => nothing.as_slice(),
    };
    assert(data.deep_view() =~= data_or_none(transaction_data.deep_view()));
    let credentials = query.credentials.as_slice();
    assert(credentials.deep_view() =~= query.deep_view().credentials);
    let index = QueryIndex::build(credentials);
    let matches = match_queries(store, &index);
    let matched = matched_set(store, &index, &matches);
    let configs = match build_configs(&index, &query.credential_sets, &matched, options) {
        Ok(configs) => configs,
        Err(error) => return Err(error),
    };
    assert(configs.deep_view().len() == configs.len());
    if configs.is_empty() {
        return Err(PlanError::Unsatisfied);
    }
    let constraints = match TransactionConstraints::build(
        &query.credential_sets,
        &index,
        data,
        options,
    ) {
        Ok(constraints) => constraints,
        Err(error) => return Err(error),
    };
    let ghost all = configs.deep_view();
    let ghost table = index@;
    let ghost knobs = options.deep_view();
    let ghost image = |config: Config|
        alternatives_of(*store, table, knobs, data.deep_view(), config);
    let mut alternatives: Vec<SelectionAlternative<S::CredentialRef>> = Vec::new();
    proof {
        lemma_flat_map_empty(all.take(0), image);
        assert(alternatives.deep_view() =~= all.take(0).flat_map(image));
    }
    let mut i: usize = 0;
    while i < configs.len()
        invariant
            lawful_refs::<S::CredentialRef>(),
            i <= configs.len(),
            index.well_formed(),
            tabled(*store, index, matches@),
            constraints.data == data,
            constraints.sorted_for(index@, options.deep_view()),
            all == configs.deep_view(),
            table == index@,
            knobs == options.deep_view(),
            image == (|config: Config|
                alternatives_of(*store, table, knobs, data.deep_view(), config)),
            alternatives.deep_view() == all.take(i as int).flat_map(image),
            forall|k: int|
                0 <= k < alternatives.len() ==> (#[trigger] alternatives@[k]).well_formed(),
        decreases configs.len() - i,
    {
        let ghost before = alternatives.deep_view();
        let ghost earlier = alternatives@;
        let mut found = build_alternatives(
            store,
            options,
            &index,
            &query.credential_sets,
            &matches,
            &constraints,
            &configs[i],
        );
        let ghost added = found.deep_view();
        let ghost built = found@;
        proof {
            assert(all[i as int] == configs@[i as int]@);
            lemma_flat_map_step(all, image, i as int);
        }
        alternatives.append(&mut found);
        proof {
            assert(alternatives.deep_view() =~= before + added);
            assert forall|k: int| 0 <= k < alternatives.len() implies (
            #[trigger] alternatives@[k]).well_formed() by {
                if k < earlier.len() {
                    assert(alternatives@[k] == earlier[k]);
                } else {
                    assert(alternatives@[k] == built[k - earlier.len()]);
                }
            }
        }
        i = i + 1;
    }
    proof {
        lemma_take_all(all);
        assert(alternatives.deep_view().len() == alternatives.len());
        assert(as_ints(constraints.ts12_indices@).len() == constraints.ts12_indices@.len());
    }
    if alternatives.is_empty() {
        return Err(PlanError::Unsatisfied);
    }
    build_presentation_sets(&index, &query.credential_sets, &alternatives, constraints.has_ts12())
}

} // verus!
