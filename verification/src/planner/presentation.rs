//! What is shown to a user: presentation sets, made of slots with alternatives.

use crate::idset::{sorted_ids, IdSet};
use crate::models::{same_optional_text, CredentialSetModel, CredentialSetQuery};
use crate::planner::by_id::ById;
use crate::planner::configs::Config;
use crate::planner::constraints::{flatten_options, written_ids, NOT_TRANSPOSABLE};
use crate::planner::error::{PlanError, PlanErrorModel};
use crate::planner::index::{QueryIndex, QueryTable};
use crate::planner::matching::result_view;
use crate::planner::selections::{CredentialSelection, SelectionModel};
use crate::planner::slots::{decompose_slots, decomposition, dedupe_order, in_some};
use crate::planner::slots::{retain_present, touches, touches_any, SlotModel, SlotSpec};
use crate::seqs::{distinct, lemma_distinct_step, lemma_filter_step, lemma_flat_map_empty};
use crate::seqs::{lemma_flat_map_step, lemma_take_all};
use crate::store::lawful_refs;
use crate::text::Text;
use vstd::prelude::*;

verus! {

broadcast use vstd::string::group_string_axioms;

/// One independent credential choice slot inside a presentation set.
#[derive(Debug)]
pub struct SetAlternative<C> {
    /// Alternative credentials for this slot.
    pub alternatives: Vec<CredentialSelection<C>>,
}

impl<C: DeepView> DeepView for SetAlternative<C> {
    type V = Seq<SelectionModel<C::V>>;

    open spec fn deep_view(&self) -> Seq<SelectionModel<C::V>> {
        self.alternatives.deep_view()
    }
}

/// A presentation set is a list of slots presented together.
pub type PresentationSet<C> = Vec<SetAlternative<C>>;

/// DCQL planner output, optimized for credential selection UI.
#[derive(Debug)]
pub struct DcqlOutput<C> {
    /// Presentation sets covering all valid DCQL combinations.
    pub presentation_sets: Vec<PresentationSet<C>>,
}

/// Model of [`DcqlOutput`]: presentation sets of slots of selections.
pub type OutputModel<R> = Seq<Seq<Seq<SelectionModel<R>>>>;

impl<C: DeepView> DeepView for DcqlOutput<C> {
    type V = OutputModel<C::V>;

    open spec fn deep_view(&self) -> OutputModel<C::V> {
        self.presentation_sets.deep_view()
    }
}

/// Credentials presented together with bound transaction data.
#[derive(Debug)]
pub struct SelectionAlternative<C> {
    /// What can be chosen for each credential query of a combination.
    pub choices: ById<CredentialSelection<C>>,
    /// For each transaction data the credential query that authorizes it, if it is bound.
    pub bindings: Vec<Option<String>>,
}

/// Model of [`SelectionAlternative`].
#[verifier::ext_equal]
pub struct AlternativeModel<R> {
    pub choices: Map<Text, Seq<SelectionModel<R>>>,
    pub bindings: Seq<Option<Text>>,
}

impl<R> AlternativeModel<R> {
    /// The credential queries of the alternative.
    #[verifier::inline]
    pub open spec fn dom(self) -> Config {
        self.choices.dom()
    }

    /// Whether the alternative has a credential query.
    #[verifier::inline]
    pub open spec fn contains_key(self, id: Text) -> bool {
        self.choices.contains_key(id)
    }

    /// What can be chosen for a credential query.
    #[verifier::inline]
    pub open spec fn spec_index(self, id: Text) -> Seq<SelectionModel<R>> {
        self.choices[id]
    }
}

impl<C: DeepView> DeepView for SelectionAlternative<C> {
    type V = AlternativeModel<C::V>;

    open spec fn deep_view(&self) -> AlternativeModel<C::V> {
        AlternativeModel {
            choices: self.choices.deep_view(),
            bindings: self.bindings.deep_view(),
        }
    }
}

impl<C: DeepView> SelectionAlternative<C> {
    /// Every credential query occurs once.
    pub open spec fn well_formed(&self) -> bool {
        self.choices.well_formed()
    }
}

/// The ids that the credential sets of a query mention, in the order in which they are written.
pub open spec fn mentioned(credential_sets: Option<Seq<CredentialSetModel>>) -> Seq<Text> {
    match credential_sets {
        Some(sets) => sets.flat_map(|set: CredentialSetModel| written_ids(set.options)),
        None => Seq::empty(),
    }
}

/// The order in which ids are shown: as the credential sets mention them, then as the credential
/// queries are listed. Ids that are in no alternative are left out.
pub open spec fn display_order(
    table: QueryTable,
    credential_sets: Option<Seq<CredentialSetModel>>,
    alternatives: Seq<Config>,
) -> Seq<Text> {
    distinct(
        (mentioned(credential_sets) + table.order).filter(|id: Text| in_some(alternatives, id)),
    )
}

/// What can be chosen for a credential query over all alternatives.
pub open spec fn choices_for<R>(
    alternatives: Seq<AlternativeModel<R>>,
    id: Text,
) -> Seq<SelectionModel<R>> {
    alternatives.flat_map(
        |alternative: AlternativeModel<R>|
            if alternative.contains_key(id) {
                alternative[id]
            } else {
                Seq::empty()
            },
    )
}

/// The choice to present nothing in a slot.
pub open spec fn no_selection<R>(slot: SlotModel) -> SelectionModel<R> {
    SelectionModel {
        dcql_id: if slot.ids.len() > 0 {
            slot.ids[0]
        } else {
            Seq::empty()
        },
        credential_id: None,
        selected_claims: Seq::empty(),
        transaction_data_ids: Seq::empty(),
    }
}

/// Whether the first alternative presents nothing in a slot.
pub open spec fn empty_at_first<R>(
    alternatives: Seq<AlternativeModel<R>>,
    slot: SlotModel,
) -> bool {
    alternatives.len() > 0 && !touches(alternatives[0].dom(), slot.ids)
}

/// What can be chosen in a slot, each choice once. Where the slot is optional, nothing can be
/// chosen too: first where the first alternative presents nothing in the slot, and else last.
pub open spec fn slot_choices<R>(
    alternatives: Seq<AlternativeModel<R>>,
    slot: SlotModel,
) -> Seq<SelectionModel<R>> {
    let all = distinct(slot.ids.flat_map(|id: Text| choices_for(alternatives, id)));
    if !slot.optional {
        all
    } else if empty_at_first(alternatives, slot) {
        seq![no_selection(slot)] + all
    } else {
        all.push(no_selection(slot))
    }
}

/// The alternatives as one presentation set of independent slots. Slots without a choice are left
/// out.
pub open spec fn factored<R>(
    alternatives: Seq<AlternativeModel<R>>,
    slots: Seq<SlotModel>,
) -> Seq<Seq<SelectionModel<R>>> {
    slots.map_values(|slot: SlotModel| slot_choices(alternatives, slot)).filter(
        |choices: Seq<SelectionModel<R>>| choices.len() > 0,
    )
}

/// One alternative as a presentation set of its own, with a slot for each credential query.
pub open spec fn unfactored<R>(alternative: AlternativeModel<R>) -> Seq<Seq<SelectionModel<R>>> {
    sorted_ids(alternative.dom()).map_values(|id: Text| distinct(alternative[id]))
}

/// The combinations that alternatives stand for.
pub open spec fn combinations<R>(alternatives: Seq<AlternativeModel<R>>) -> Seq<Config> {
    alternatives.map_values(|alternative: AlternativeModel<R>| alternative.dom())
}

/// Whether an alternative binds to the credential queries that it has in common with another what
/// the other binds to them.
pub open spec fn keeps_bindings<R>(other: AlternativeModel<R>, own: AlternativeModel<R>) -> bool {
    forall|i: int|
        0 <= i < other.bindings.len() ==> match #[trigger] other.bindings[i] {
            Some(id) => own.contains_key(id) ==> i < own.bindings.len() && own.bindings[i] == Some(
                id,
            ),
            None => true,
        }
}

/// Whether alternatives agree on the transaction data of the credential queries that they share:
/// what is chosen for a query can then be taken from any of them.
pub open spec fn bound_alike<R>(alternatives: Seq<AlternativeModel<R>>) -> bool {
    forall|a: int, b: int|
        0 <= a < alternatives.len() && 0 <= b < alternatives.len() ==> keeps_bindings(
            #[trigger] alternatives[a],
            #[trigger] alternatives[b],
        )
}

/// The ways in which alternatives bind transaction data, in the order of first appearance.
pub open spec fn ways_to_bind<R>(alternatives: Seq<AlternativeModel<R>>) -> Seq<
    Seq<Option<Text>>,
> {
    distinct(alternatives.map_values(|alternative: AlternativeModel<R>| alternative.bindings))
}

/// The alternatives that bind transaction data in a given way.
pub open spec fn bound_as<R>(
    alternatives: Seq<AlternativeModel<R>>,
    bindings: Seq<Option<Text>>,
) -> Seq<AlternativeModel<R>> {
    alternatives.filter(|alternative: AlternativeModel<R>| alternative.bindings == bindings)
}

/// The slots that alternatives factor into, if they do.
pub open spec fn slots_of<R>(
    table: QueryTable,
    credential_sets: Option<Seq<CredentialSetModel>>,
    alternatives: Seq<AlternativeModel<R>>,
) -> Option<Seq<SlotModel>> {
    let configs = combinations(alternatives);
    decomposition(configs, display_order(table, credential_sets, configs))
}

/// Every alternative as a presentation set of its own.
pub open spec fn one_by_one<R>(alternatives: Seq<AlternativeModel<R>>) -> OutputModel<R> {
    alternatives.map_values(|alternative: AlternativeModel<R>| unfactored(alternative))
}

/// Alternatives in independent slots where they factor into slots, and one by one where they do
/// not.
pub open spec fn arranged<R>(
    table: QueryTable,
    credential_sets: Option<Seq<CredentialSetModel>>,
    alternatives: Seq<AlternativeModel<R>>,
) -> OutputModel<R> {
    match slots_of(table, credential_sets, alternatives) {
        Some(slots) => seq![factored(alternatives, slots)],
        None => one_by_one(alternatives),
    }
}

/// How alternatives are presented: in independent slots where that is faithful, one by one where
/// it is not. TS12 transaction data needs slots.
///
/// Slots leave every choice free, so they hold together only alternatives that agree on their
/// transaction data. Alternatives that do not are presented apart, by the way in which they bind
/// it.
pub open spec fn presented<R>(
    table: QueryTable,
    credential_sets: Option<Seq<CredentialSetModel>>,
    alternatives: Seq<AlternativeModel<R>>,
    has_ts12: bool,
) -> Result<OutputModel<R>, PlanErrorModel> {
    match slots_of(table, credential_sets, alternatives) {
        Some(slots) => Ok(
            if bound_alike(alternatives) {
                seq![factored(alternatives, slots)]
            } else {
                ways_to_bind(alternatives).flat_map(
                    |bindings: Seq<Option<Text>>|
                        arranged(table, credential_sets, bound_as(alternatives, bindings)),
                )
            },
        ),
        None => if has_ts12 {
            Err(PlanErrorModel::InvalidQuery(NOT_TRANSPOSABLE@))
        } else {
            Ok(one_by_one(alternatives))
        },
    }
}

/// The ids that the credential sets of a query mention, in the order in which they are written.
fn mentioned_ids(credential_sets: &Option<Vec<CredentialSetQuery>>) -> (ids: Vec<String>)
    ensures
        ids.deep_view() == mentioned(credential_sets.deep_view()),
{
    let mut ids: Vec<String> = Vec::new();
    let sets = match credential_sets {
        Some(sets) => sets,
        None => {
            assert(ids.deep_view() =~= Seq::<Text>::empty());
            return ids;
        },
    };
    let ghost all = sets.deep_view();
    let ghost image = |set: CredentialSetModel| written_ids(set.options);
    proof {
        lemma_flat_map_empty(all.take(0), image);
        assert(ids.deep_view() =~= all.take(0).flat_map(image));
    }
    let mut i: usize = 0;
    while i < sets.len()
        invariant
            i <= sets.len(),
            all == sets.deep_view(),
            image == (|set: CredentialSetModel| written_ids(set.options)),
            ids.deep_view() == all.take(i as int).flat_map(image),
        decreases sets.len() - i,
    {
        let ghost before = ids.deep_view();
        let mut written = flatten_options(&sets[i].options);
        let ghost added = written.deep_view();
        proof {
            assert(all[i as int] == sets@[i as int].deep_view());
            lemma_flat_map_step(all, image, i as int);
        }
        ids.append(&mut written);
        assert(ids.deep_view() =~= before + added);
        i = i + 1;
    }
    proof {
        lemma_take_all(all);
    }
    ids
}

/// The order in which ids are shown.
pub fn query_id_display_order(
    index: &QueryIndex<'_>,
    credential_sets: &Option<Vec<CredentialSetQuery>>,
    alternatives: &Vec<IdSet>,
) -> (order: Vec<String>)
    requires
        index.well_formed(),
    ensures
        order.deep_view() == display_order(
            index@,
            credential_sets.deep_view(),
            alternatives.deep_view(),
        ),
{
    let mut ids = mentioned_ids(credential_sets);
    let ghost first = ids.deep_view();
    let mut listed = index.ids.clone();
    assert(listed.deep_view() =~= index@.order);
    ids.append(&mut listed);
    assert(ids.deep_view() =~= first + index@.order);
    dedupe_order(retain_present(&ids, alternatives))
}

/// Keeps the first occurrence of every selection.
pub fn build_slot_alternatives<C: DeepView + Clone + Eq>(
    selections: &Vec<CredentialSelection<C>>,
) -> (kept: Vec<CredentialSelection<C>>)
    requires
        lawful_refs::<C>(),
    ensures
        kept.deep_view() == distinct(selections.deep_view()),
{
    let ghost all = selections.deep_view();
    let mut kept: Vec<CredentialSelection<C>> = Vec::new();
    assert(kept.deep_view() =~= distinct(all.take(0)));
    let mut i: usize = 0;
    while i < selections.len()
        invariant
            i <= selections.len(),
            lawful_refs::<C>(),
            all == selections.deep_view(),
            kept.deep_view() == distinct(all.take(i as int)),
        decreases selections.len() - i,
    {
        let selection = &selections[i];
        let ghost before = kept.deep_view();
        let mut seen = false;
        let mut k: usize = 0;
        while k < kept.len() && !seen
            invariant
                k <= kept.len(),
                lawful_refs::<C>(),
                before == kept.deep_view(),
                seen ==> before.contains(selection.deep_view()),
                !seen ==> forall|j: int| 0 <= j < k ==> #[trigger] before[j] != selection.deep_view(),
            decreases kept.len() - k,
        {
            assert(before[k as int] == kept@[k as int].deep_view());
            seen = kept[k].same(selection);
            k = k + 1;
        }
        proof {
            assert(all[i as int] == selection.deep_view());
            lemma_distinct_step(all, i as int);
        }
        if !seen {
            kept.push(selection.copy());
            assert(kept.deep_view() =~= before.push(selection.deep_view()));
        }
        i = i + 1;
    }
    proof {
        lemma_take_all(all);
    }
    kept
}

/// Copies selections.
fn copy_selections<C: DeepView + Clone + Eq>(
    selections: &Vec<CredentialSelection<C>>,
) -> (copies: Vec<CredentialSelection<C>>)
    requires
        lawful_refs::<C>(),
    ensures
        copies.deep_view() == selections.deep_view(),
{
    let mut copies: Vec<CredentialSelection<C>> = Vec::new();
    let mut i: usize = 0;
    while i < selections.len()
        invariant
            i <= selections.len(),
            lawful_refs::<C>(),
            copies.len() == i,
            forall|k: int|
                0 <= k < i ==> (#[trigger] copies@[k]).deep_view() == selections@[k].deep_view(),
        decreases selections.len() - i,
    {
        copies.push(selections[i].copy());
        i = i + 1;
    }
    assert(copies.deep_view() =~= selections.deep_view());
    copies
}

/// What can be chosen for `id` over all alternatives.
fn gather_choices<C: DeepView + Clone + Eq>(
    alternatives: &Vec<&SelectionAlternative<C>>,
    id: &str,
) -> (choices: Vec<CredentialSelection<C>>)
    requires
        lawful_refs::<C>(),
        forall|k: int| 0 <= k < alternatives.len() ==> (#[trigger] alternatives@[k]).well_formed(),
    ensures
        choices.deep_view() == choices_for(alternatives.deep_view(), id@),
{
    let ghost all = alternatives.deep_view();
    let ghost image = |alternative: AlternativeModel<C::V>|
        if alternative.contains_key(id@) {
            alternative[id@]
        } else {
            Seq::empty()
        };
    let mut choices: Vec<CredentialSelection<C>> = Vec::new();
    proof {
        lemma_flat_map_empty(all.take(0), image);
        assert(choices.deep_view() =~= all.take(0).flat_map(image));
    }
    let mut i: usize = 0;
    while i < alternatives.len()
        invariant
            i <= alternatives.len(),
            lawful_refs::<C>(),
            forall|k: int|
                0 <= k < alternatives.len() ==> (#[trigger] alternatives@[k]).well_formed(),
            all == alternatives.deep_view(),
            image == (|alternative: AlternativeModel<C::V>|
                if alternative.contains_key(id@) {
                    alternative[id@]
                } else {
                    Seq::empty()
                }),
            choices.deep_view() == all.take(i as int).flat_map(image),
        decreases alternatives.len() - i,
    {
        let alternative = alternatives[i];
        let ghost before = choices.deep_view();
        proof {
            assert(all[i as int] == alternative.deep_view());
            lemma_flat_map_step(all, image, i as int);
        }
        match alternative.choices.position(id) {
            Some(at) => {
                let mut copies = copy_selections(&alternative.choices.rows[at]);
                let ghost added = copies.deep_view();
                choices.append(&mut copies);
                assert(choices.deep_view() =~= before + added);
            },
            None => {
                assert(choices.deep_view() =~= before + Seq::empty());
            },
        }
        i = i + 1;
    }
    proof {
        lemma_take_all(all);
    }
    choices
}

/// What can be chosen in `slot`.
fn choices_in_slot<C: DeepView + Clone + Eq>(
    alternatives: &Vec<&SelectionAlternative<C>>,
    slot: &SlotSpec,
) -> (choices: Vec<CredentialSelection<C>>)
    requires
        lawful_refs::<C>(),
        forall|k: int| 0 <= k < alternatives.len() ==> (#[trigger] alternatives@[k]).well_formed(),
    ensures
        choices.deep_view() == slot_choices(alternatives.deep_view(), slot.deep_view()),
{
    let ghost alts = alternatives.deep_view();
    let ghost ids = slot.ids.deep_view();
    let ghost image = |id: Text| choices_for(alts, id);
    let mut all: Vec<CredentialSelection<C>> = Vec::new();
    proof {
        lemma_flat_map_empty(ids.take(0), image);
        assert(all.deep_view() =~= ids.take(0).flat_map(image));
    }
    let mut i: usize = 0;
    while i < slot.ids.len()
        invariant
            i <= slot.ids.len(),
            lawful_refs::<C>(),
            forall|k: int|
                0 <= k < alternatives.len() ==> (#[trigger] alternatives@[k]).well_formed(),
            alts == alternatives.deep_view(),
            ids == slot.ids.deep_view(),
            image == (|id: Text| choices_for(alts, id)),
            all.deep_view() == ids.take(i as int).flat_map(image),
        decreases slot.ids.len() - i,
    {
        let ghost before = all.deep_view();
        let mut found = gather_choices(alternatives, slot.ids[i].as_str());
        let ghost added = found.deep_view();
        proof {
            assert(ids[i as int] == slot.ids@[i as int]@);
            lemma_flat_map_step(ids, image, i as int);
        }
        all.append(&mut found);
        assert(all.deep_view() =~= before + added);
        i = i + 1;
    }
    proof {
        lemma_take_all(ids);
    }
    let mut choices = build_slot_alternatives(&all);
    if slot.optional {
        let none = CredentialSelection {
            dcql_id: if slot.ids.len() > 0 {
                slot.ids[0].clone()
            } else {
                String::new()
            },
            credential_id: None,
            selected_claims: Vec::new(),
            transaction_data_ids: Vec::new(),
        };
        let ghost before = choices.deep_view();
        let ghost model = none.deep_view();
        proof {
            assert(model.selected_claims =~= Seq::empty());
            assert(model.transaction_data_ids =~= Seq::<int>::empty());
            assert(slot.ids.len() == 0 ==> model.dcql_id =~= Seq::<char>::empty());
            assert(slot.ids.len() > 0 ==> ids[0] == slot.ids@[0]@);
            assert(model == no_selection::<C::V>(slot.deep_view()));
        }
        if alternatives.len() > 0 && !touches_any(&key_set(alternatives[0]), &slot.ids) {
            let mut rest = choices;
            choices = vec![none];
            choices.append(&mut rest);
            assert(choices.deep_view() =~= seq![model] + before);
        } else {
            choices.push(none);
            assert(choices.deep_view() =~= before.push(model));
        }
    }
    choices
}

/// Presents every alternative as a presentation set of its own.
pub fn build_unfactored_presentation_sets<C: DeepView + Clone + Eq>(
    alternatives: &Vec<&SelectionAlternative<C>>,
) -> (sets: Vec<PresentationSet<C>>)
    requires
        lawful_refs::<C>(),
        forall|k: int| 0 <= k < alternatives.len() ==> (#[trigger] alternatives@[k]).well_formed(),
    ensures
        sets.deep_view() == one_by_one(alternatives.deep_view()),
{
    let mut sets: Vec<PresentationSet<C>> = Vec::new();
    let mut i: usize = 0;
    while i < alternatives.len()
        invariant
            i <= alternatives.len(),
            lawful_refs::<C>(),
            forall|k: int|
                0 <= k < alternatives.len() ==> (#[trigger] alternatives@[k]).well_formed(),
            sets.len() == i,
            forall|k: int|
                0 <= k < i ==> (#[trigger] sets@[k]).deep_view() == unfactored(
                    alternatives@[k].deep_view(),
                ),
        decreases alternatives.len() - i,
    {
        let alternative = alternatives[i];
        let keys = key_set(alternative);
        let ids = keys.ids();
        let ghost order = ids.deep_view();
        let ghost wanted = unfactored(alternative.deep_view());
        let mut set: PresentationSet<C> = Vec::new();
        let mut j: usize = 0;
        while j < ids.len()
            invariant
                j <= ids.len(),
                lawful_refs::<C>(),
                alternative.well_formed(),
                order == ids.deep_view(),
                order == sorted_ids(alternative.deep_view().dom()),
                order.to_set() == alternative.deep_view().dom(),
                wanted == unfactored(alternative.deep_view()),
                set.len() == j,
                forall|k: int| 0 <= k < j ==> (#[trigger] set@[k]).deep_view() == wanted[k],
            decreases ids.len() - j,
        {
            proof {
                assert(order[j as int] == ids@[j as int]@);
                assert(order.to_set().contains(order[j as int]));
            }
            let choices = match alternative.choices.position(ids[j].as_str()) {
                Some(at) => build_slot_alternatives(&alternative.choices.rows[at]),
                None => Vec::new(),
            };
            set.push(SetAlternative { alternatives: choices });
            j = j + 1;
        }
        assert(set.deep_view() =~= wanted);
        sets.push(set);
        i = i + 1;
    }
    assert(sets.deep_view() =~= one_by_one(alternatives.deep_view()));
    sets
}

/// The credential query ids of an alternative.
fn key_set<C: DeepView>(alternative: &SelectionAlternative<C>) -> (keys: IdSet)
    requires
        alternative.well_formed(),
    ensures
        keys@ == alternative.deep_view().dom(),
{
    let listed = alternative.choices.ids.as_slice();
    let keys = IdSet::collect(listed);
    assert(listed.deep_view() =~= alternative.choices.ids.deep_view());
    assert(keys@ =~= alternative.deep_view().dom());
    keys
}

/// The slots that `alternatives` factor into, if they do.
fn factor<C: DeepView>(
    index: &QueryIndex<'_>,
    credential_sets: &Option<Vec<CredentialSetQuery>>,
    alternatives: &Vec<&SelectionAlternative<C>>,
) -> (slots: Option<Vec<SlotSpec>>)
    requires
        index.well_formed(),
        forall|k: int| 0 <= k < alternatives.len() ==> (#[trigger] alternatives@[k]).well_formed(),
    ensures
        slots.deep_view() == slots_of(
            index@,
            credential_sets.deep_view(),
            alternatives.deep_view(),
        ),
{
    let mut configs: Vec<IdSet> = Vec::new();
    let mut i: usize = 0;
    while i < alternatives.len()
        invariant
            i <= alternatives.len(),
            forall|k: int|
                0 <= k < alternatives.len() ==> (#[trigger] alternatives@[k]).well_formed(),
            configs.len() == i,
            forall|k: int|
                0 <= k < i ==> (#[trigger] configs@[k])@ == alternatives@[k].deep_view().dom(),
        decreases alternatives.len() - i,
    {
        configs.push(key_set(alternatives[i]));
        i = i + 1;
    }
    assert(configs.deep_view() =~= combinations(alternatives.deep_view()));
    let order = query_id_display_order(index, credential_sets, &configs);
    decompose_slots(&configs, &order)
}

/// Presents `alternatives` in `slots`.
fn build_factored_presentation_set<C: DeepView + Clone + Eq>(
    alternatives: &Vec<&SelectionAlternative<C>>,
    slots: &Vec<SlotSpec>,
) -> (set: PresentationSet<C>)
    requires
        lawful_refs::<C>(),
        forall|k: int| 0 <= k < alternatives.len() ==> (#[trigger] alternatives@[k]).well_formed(),
    ensures
        set.deep_view() == factored(alternatives.deep_view(), slots.deep_view()),
{
    let ghost alts = alternatives.deep_view();
    let ghost models = slots.deep_view();
    let ghost every = models.map_values(|slot: SlotModel| slot_choices(alts, slot));
    let ghost keep = |choices: Seq<SelectionModel<C::V>>| choices.len() > 0;
    let mut set: PresentationSet<C> = Vec::new();
    assert(set.deep_view() =~= every.take(0).filter(keep));
    let mut j: usize = 0;
    while j < slots.len()
        invariant
            j <= slots.len(),
            lawful_refs::<C>(),
            forall|k: int|
                0 <= k < alternatives.len() ==> (#[trigger] alternatives@[k]).well_formed(),
            alts == alternatives.deep_view(),
            models == slots.deep_view(),
            every == models.map_values(|slot: SlotModel| slot_choices(alts, slot)),
            keep == (|choices: Seq<SelectionModel<C::V>>| choices.len() > 0),
            set.deep_view() == every.take(j as int).filter(keep),
        decreases slots.len() - j,
    {
        let choices = choices_in_slot(alternatives, &slots[j]);
        proof {
            assert(models[j as int] == slots@[j as int].deep_view());
            assert(every[j as int] == choices.deep_view());
            assert(choices.deep_view().len() == choices.len());
            lemma_filter_step(every, keep, j as int);
        }
        if !choices.is_empty() {
            let ghost before = set.deep_view();
            set.push(SetAlternative { alternatives: choices });
            assert(set.deep_view() =~= before.push(choices.deep_view()));
        }
        j = j + 1;
    }
    proof {
        lemma_take_all(every);
    }
    set
}

/// Whether transaction data is bound in the same way.
fn same_bindings(left: &Vec<Option<String>>, right: &Vec<Option<String>>) -> (same: bool)
    ensures
        same == (left.deep_view() == right.deep_view()),
{
    if left.len() != right.len() {
        assert(left.deep_view().len() != right.deep_view().len());
        return false;
    }
    let mut i: usize = 0;
    while i < left.len()
        invariant
            i <= left.len(),
            left.len() == right.len(),
            forall|k: int| 0 <= k < i ==> #[trigger] left.deep_view()[k] == right.deep_view()[k],
        decreases left.len() - i,
    {
        proof {
            assert(left.deep_view()[i as int] == left@[i as int].deep_view());
            assert(right.deep_view()[i as int] == right@[i as int].deep_view());
        }
        if !same_optional_text(&left[i], &right[i]) {
            return false;
        }
        i = i + 1;
    }
    assert(left.deep_view() =~= right.deep_view());
    true
}

/// Whether `own` binds to the credential queries that it has in common with `other` what `other`
/// binds to them.
fn keeps_bindings_of<C: DeepView>(
    other: &SelectionAlternative<C>,
    own: &SelectionAlternative<C>,
) -> (keeps: bool)
    requires
        own.well_formed(),
    ensures
        keeps == keeps_bindings(other.deep_view(), own.deep_view()),
{
    let ghost theirs = other.deep_view();
    let ghost ours = own.deep_view();
    let mut i: usize = 0;
    while i < other.bindings.len()
        invariant
            i <= other.bindings.len(),
            own.well_formed(),
            theirs == other.deep_view(),
            ours == own.deep_view(),
            forall|k: int|
                0 <= k < i ==> match #[trigger] theirs.bindings[k] {
                    Some(id) => ours.contains_key(id) ==> k < ours.bindings.len()
                        && ours.bindings[k] == Some(id),
                    None => true,
                },
        decreases other.bindings.len() - i,
    {
        let bound = &other.bindings[i];
        assert(theirs.bindings[i as int] == bound.deep_view());
        if let Some(id) = bound {
            if own.choices.position(id.as_str()).is_some() {
                if i >= own.bindings.len() {
                    return false;
                }
                assert(ours.bindings[i as int] == own.bindings@[i as int].deep_view());
                if !same_optional_text(&own.bindings[i], bound) {
                    return false;
                }
            }
        }
        i = i + 1;
    }
    true
}

/// Whether `alternatives` agree on the transaction data of the credential queries that they share.
fn agree_on_bindings<C: DeepView>(alternatives: &Vec<&SelectionAlternative<C>>) -> (agree: bool)
    requires
        forall|k: int| 0 <= k < alternatives.len() ==> (#[trigger] alternatives@[k]).well_formed(),
    ensures
        agree == bound_alike(alternatives.deep_view()),
{
    let ghost all = alternatives.deep_view();
    let mut i: usize = 0;
    while i < alternatives.len()
        invariant
            i <= alternatives.len(),
            all == alternatives.deep_view(),
            forall|k: int|
                0 <= k < alternatives.len() ==> (#[trigger] alternatives@[k]).well_formed(),
            forall|a: int, b: int|
                0 <= a < i && 0 <= b < all.len() ==> keeps_bindings(
                    #[trigger] all[a],
                    #[trigger] all[b],
                ),
        decreases alternatives.len() - i,
    {
        let mut j: usize = 0;
        while j < alternatives.len()
            invariant
                i < alternatives.len(),
                j <= alternatives.len(),
                all == alternatives.deep_view(),
                forall|k: int|
                    0 <= k < alternatives.len() ==> (#[trigger] alternatives@[k]).well_formed(),
                forall|b: int| 0 <= b < j ==> keeps_bindings(all[i as int], #[trigger] all[b]),
            decreases alternatives.len() - j,
        {
            proof {
                assert(all[i as int] == alternatives@[i as int].deep_view());
                assert(all[j as int] == alternatives@[j as int].deep_view());
            }
            if !keeps_bindings_of(alternatives[i], alternatives[j]) {
                return false;
            }
            j = j + 1;
        }
        i = i + 1;
    }
    true
}

/// The first alternative of each way in which `alternatives` bind transaction data.
fn first_of_each_way<'a, C: DeepView>(
    alternatives: &Vec<&'a SelectionAlternative<C>>,
) -> (firsts: Vec<&'a SelectionAlternative<C>>)
    ensures
        firsts.deep_view().map_values(
            |alternative: AlternativeModel<C::V>| alternative.bindings,
        ) == ways_to_bind(alternatives.deep_view()),
{
    let ghost way = |alternative: AlternativeModel<C::V>| alternative.bindings;
    let ghost all = alternatives.deep_view().map_values(way);
    let mut firsts: Vec<&'a SelectionAlternative<C>> = Vec::new();
    assert(firsts.deep_view().map_values(way) =~= distinct(all.take(0)));
    let mut i: usize = 0;
    while i < alternatives.len()
        invariant
            i <= alternatives.len(),
            way == (|alternative: AlternativeModel<C::V>| alternative.bindings),
            all == alternatives.deep_view().map_values(way),
            firsts.deep_view().map_values(way) == distinct(all.take(i as int)),
        decreases alternatives.len() - i,
    {
        let alternative = alternatives[i];
        let ghost ways = firsts.deep_view().map_values(way);
        let mut seen = false;
        let mut k: usize = 0;
        while k < firsts.len() && !seen
            invariant
                k <= firsts.len(),
                way == (|alternative: AlternativeModel<C::V>| alternative.bindings),
                ways == firsts.deep_view().map_values(way),
                seen ==> ways.contains(alternative.deep_view().bindings),
                !seen ==> forall|j: int|
                    0 <= j < k ==> #[trigger] ways[j] != alternative.deep_view().bindings,
            decreases firsts.len() - k,
        {
            assert(firsts.deep_view()[k as int] == firsts@[k as int].deep_view());
            assert(ways[k as int] == firsts@[k as int].bindings.deep_view());
            seen = same_bindings(&firsts[k].bindings, &alternative.bindings);
            k = k + 1;
        }
        proof {
            assert(alternatives.deep_view()[i as int] == alternative.deep_view());
            assert(all[i as int] == alternative.deep_view().bindings);
            lemma_distinct_step(all, i as int);
        }
        if !seen {
            firsts.push(alternative);
            assert(firsts.deep_view().map_values(way) =~= ways.push(
                alternative.deep_view().bindings,
            ));
        }
        i = i + 1;
    }
    proof {
        lemma_take_all(all);
    }
    firsts
}

/// Those of `alternatives` that bind transaction data in a given way.
fn alternatives_bound_as<'a, C: DeepView>(
    alternatives: &Vec<&'a SelectionAlternative<C>>,
    bindings: &Vec<Option<String>>,
) -> (group: Vec<&'a SelectionAlternative<C>>)
    requires
        forall|k: int| 0 <= k < alternatives.len() ==> (#[trigger] alternatives@[k]).well_formed(),
    ensures
        group.deep_view() == bound_as(alternatives.deep_view(), bindings.deep_view()),
        forall|k: int| 0 <= k < group.len() ==> (#[trigger] group@[k]).well_formed(),
{
    let ghost all = alternatives.deep_view();
    let ghost keep = |alternative: AlternativeModel<C::V>|
        alternative.bindings == bindings.deep_view();
    let mut group: Vec<&'a SelectionAlternative<C>> = Vec::new();
    assert(group.deep_view() =~= all.take(0).filter(keep));
    let mut i: usize = 0;
    while i < alternatives.len()
        invariant
            i <= alternatives.len(),
            all == alternatives.deep_view(),
            keep == (|alternative: AlternativeModel<C::V>|
                alternative.bindings == bindings.deep_view()),
            forall|k: int|
                0 <= k < alternatives.len() ==> (#[trigger] alternatives@[k]).well_formed(),
            forall|k: int| 0 <= k < group.len() ==> (#[trigger] group@[k]).well_formed(),
            group.deep_view() == all.take(i as int).filter(keep),
        decreases alternatives.len() - i,
    {
        let alternative = alternatives[i];
        proof {
            assert(all[i as int] == alternative.deep_view());
            lemma_filter_step(all, keep, i as int);
        }
        if same_bindings(&alternative.bindings, bindings) {
            let ghost before = group.deep_view();
            group.push(alternative);
            assert(group.deep_view() =~= before.push(alternative.deep_view()));
        }
        i = i + 1;
    }
    proof {
        lemma_take_all(all);
    }
    group
}

/// Presents `alternatives` in independent slots where they factor into slots, and one by one where
/// they do not.
fn arrange<C: DeepView + Clone + Eq>(
    index: &QueryIndex<'_>,
    credential_sets: &Option<Vec<CredentialSetQuery>>,
    alternatives: &Vec<&SelectionAlternative<C>>,
) -> (sets: Vec<PresentationSet<C>>)
    requires
        index.well_formed(),
        lawful_refs::<C>(),
        forall|k: int| 0 <= k < alternatives.len() ==> (#[trigger] alternatives@[k]).well_formed(),
    ensures
        sets.deep_view() == arranged(
            index@,
            credential_sets.deep_view(),
            alternatives.deep_view(),
        ),
{
    match factor(index, credential_sets, alternatives) {
        Some(slots) => {
            let set = build_factored_presentation_set(alternatives, &slots);
            let ghost only = set.deep_view();
            let sets = vec![set];
            assert(sets.deep_view() =~= seq![only]);
            sets
        },
        None => build_unfactored_presentation_sets(alternatives),
    }
}

/// Presents `alternatives` apart by the way in which they bind transaction data.
fn arrange_by_bindings<C: DeepView + Clone + Eq>(
    index: &QueryIndex<'_>,
    credential_sets: &Option<Vec<CredentialSetQuery>>,
    alternatives: &Vec<&SelectionAlternative<C>>,
) -> (sets: Vec<PresentationSet<C>>)
    requires
        index.well_formed(),
        lawful_refs::<C>(),
        forall|k: int| 0 <= k < alternatives.len() ==> (#[trigger] alternatives@[k]).well_formed(),
    ensures
        sets.deep_view() == ways_to_bind(alternatives.deep_view()).flat_map(
            |bindings: Seq<Option<Text>>|
                arranged(
                    index@,
                    credential_sets.deep_view(),
                    bound_as(alternatives.deep_view(), bindings),
                ),
        ),
{
    let ghost all = alternatives.deep_view();
    let ghost ways = ways_to_bind(all);
    let ghost image = |bindings: Seq<Option<Text>>|
        arranged(index@, credential_sets.deep_view(), bound_as(all, bindings));
    let firsts = first_of_each_way(alternatives);
    let mut sets: Vec<PresentationSet<C>> = Vec::new();
    proof {
        assert(ways.len() == firsts.len());
        lemma_flat_map_empty(ways.take(0), image);
        assert(sets.deep_view() =~= ways.take(0).flat_map(image));
    }
    let mut i: usize = 0;
    while i < firsts.len()
        invariant
            i <= firsts.len(),
            index.well_formed(),
            lawful_refs::<C>(),
            forall|k: int|
                0 <= k < alternatives.len() ==> (#[trigger] alternatives@[k]).well_formed(),
            all == alternatives.deep_view(),
            ways == firsts.deep_view().map_values(
                |alternative: AlternativeModel<C::V>| alternative.bindings,
            ),
            ways.len() == firsts.len(),
            image == (|bindings: Seq<Option<Text>>|
                arranged(index@, credential_sets.deep_view(), bound_as(all, bindings))),
            sets.deep_view() == ways.take(i as int).flat_map(image),
        decreases firsts.len() - i,
    {
        let ghost before = sets.deep_view();
        let group = alternatives_bound_as(alternatives, &firsts[i].bindings);
        let mut found = arrange(index, credential_sets, &group);
        let ghost added = found.deep_view();
        proof {
            assert(firsts.deep_view()[i as int] == firsts@[i as int].deep_view());
            assert(ways[i as int] == firsts@[i as int].bindings.deep_view());
            lemma_flat_map_step(ways, image, i as int);
        }
        sets.append(&mut found);
        assert(sets.deep_view() =~= before + added);
        i = i + 1;
    }
    proof {
        lemma_take_all(ways);
    }
    sets
}

/// Presents alternatives in independent slots where that is faithful, and one by one where it is
/// not. Alternatives that do not agree on the transaction data of a credential query do not share
/// slots.
pub fn build_presentation_sets<C: DeepView + Clone + Eq>(
    index: &QueryIndex<'_>,
    credential_sets: &Option<Vec<CredentialSetQuery>>,
    alternatives: &Vec<SelectionAlternative<C>>,
    has_ts12: bool,
) -> (output: Result<DcqlOutput<C>, PlanError>)
    requires
        index.well_formed(),
        lawful_refs::<C>(),
        forall|k: int| 0 <= k < alternatives.len() ==> (#[trigger] alternatives@[k]).well_formed(),
    ensures
        result_view(output) == presented(
            index@,
            credential_sets.deep_view(),
            alternatives.deep_view(),
            has_ts12,
        ),
{
    let mut every: Vec<&SelectionAlternative<C>> = Vec::new();
    let mut i: usize = 0;
    while i < alternatives.len()
        invariant
            i <= alternatives.len(),
            every.len() == i,
            forall|k: int| 0 <= k < i ==> *(#[trigger] every@[k]) == alternatives@[k],
        decreases alternatives.len() - i,
    {
        every.push(&alternatives[i]);
        i = i + 1;
    }
    assert(every.deep_view() =~= alternatives.deep_view());
    let sets = match factor(index, credential_sets, &every) {
        Some(slots) => {
            if agree_on_bindings(&every) {
                let set = build_factored_presentation_set(&every, &slots);
                let ghost only = set.deep_view();
                let sets = vec![set];
                assert(sets.deep_view() =~= seq![only]);
                sets
            } else {
                arrange_by_bindings(index, credential_sets, &every)
            }
        },
        None => {
            if has_ts12 {
                return Err(PlanError::InvalidQuery(NOT_TRANSPOSABLE.to_owned()));
            }
            build_unfactored_presentation_sets(&every)
        },
    };
    Ok(DcqlOutput { presentation_sets: sets })
}

} // verus!
