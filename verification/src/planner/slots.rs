//! Splitting combinations into independent slots.
//!
//! A list of combinations is shown to a user as a list of slots, each with alternative ids, of
//! which one is chosen. That is faithful when the combinations are exactly what the free choice
//! of one id per slot gives; a slot may then also be left empty when it is optional.

use crate::hashsets::{text_pair_set_contents, text_set_contents, TextPairSet, TextSet};
use crate::idset::IdSet;
use crate::planner::configs::Config;
use crate::seqs::{distinct, first_where, lemma_distinct_step, lemma_filter_step};
use crate::seqs::{lemma_filter_no_duplicates, lemma_first_where, lemma_push_contains, lemma_take_all};
use crate::text::{lemma_precedes_irreflexive, lemma_precedes_total, precedes, text_precedes, Text};
use vstd::prelude::*;

verus! {

broadcast use vstd::string::group_string_axioms;

/// One slot: the ids to choose from, and whether it may stay empty.
#[derive(Debug)]
pub struct SlotSpec {
    /// The ids to choose from.
    pub ids: Vec<String>,
    /// Whether no id need be chosen.
    pub optional: bool,
}

/// Model of [`SlotSpec`].
pub struct SlotModel {
    pub ids: Seq<Text>,
    pub optional: bool,
}

impl DeepView for SlotSpec {
    type V = SlotModel;

    open spec fn deep_view(&self) -> SlotModel {
        SlotModel { ids: self.ids.deep_view(), optional: self.optional }
    }
}

/// Whether some combination holds this id.
pub open spec fn in_some(alternatives: Seq<Config>, id: Text) -> bool {
    exists|i: int| 0 <= i < alternatives.len() && (#[trigger] alternatives[i]).contains(id)
}

/// Whether two different ids occur together in some combination.
pub open spec fn cooccur(alternatives: Seq<Config>, left: Text, right: Text) -> bool {
    left != right && exists|i: int|
        0 <= i < alternatives.len() && (#[trigger] alternatives[i]).contains(left)
            && alternatives[i].contains(right)
}

/// Whether a combination holds an id of the slot.
pub open spec fn touches(alternative: Config, slot: Seq<Text>) -> bool {
    exists|k: int| 0 <= k < slot.len() && alternative.contains(#[trigger] slot[k])
}

/// The slot with these ids: it is optional when some combination does without all of them.
pub open spec fn slot_model(slot: Seq<Text>, alternatives: Seq<Config>) -> SlotModel {
    SlotModel {
        ids: slot,
        optional: exists|i: int|
            0 <= i < alternatives.len() && !touches(#[trigger] alternatives[i], slot),
    }
}

/// The slots with these ids.
pub open spec fn slot_models(slots: Seq<Seq<Text>>, alternatives: Seq<Config>) -> Seq<SlotModel> {
    slots.map_values(|slot: Seq<Text>| slot_model(slot, alternatives))
}

/// Whether the picks choose one id of every slot, or none where the slot is optional.
pub open spec fn valid_picks(slots: Seq<SlotModel>, picks: Seq<Option<Text>>) -> bool {
    &&& picks.len() == slots.len()
    &&& forall|i: int|
        0 <= i < slots.len() ==> match #[trigger] picks[i] {
            Some(id) => slots[i].ids.contains(id),
            None => slots[i].optional,
        }
}

/// The ids that were picked.
pub open spec fn picked(picks: Seq<Option<Text>>) -> Config {
    Set::new(|id: Text| picks.contains(Some(id)))
}

/// Whether a combination comes of a free choice in every slot.
pub open spec fn is_product(slots: Seq<SlotModel>, config: Config) -> bool {
    exists|picks: Seq<Option<Text>>| #[trigger] valid_picks(slots, picks) && picked(picks) == config
}

/// Whether the free choices give exactly the combinations.
pub open spec fn is_factored(slots: Seq<SlotModel>, alternatives: Seq<Config>) -> bool {
    forall|config: Config| #[trigger]
        is_product(slots, config) <==> alternatives.contains(config)
}

/// Whether an id can join a slot: it occurs together with none of the slot's ids.
pub open spec fn fits(slot: Seq<Text>, id: Text, alternatives: Seq<Config>) -> bool {
    forall|k: int| 0 <= k < slot.len() ==> !cooccur(alternatives, id, #[trigger] slot[k])
}

/// The first way to place `ids` into slots, after `slots`, that factors the combinations.
///
/// Every id joins the earliest slot that leads to a factoring, and opens a slot of its own when
/// none does.
pub open spec fn search(ids: Seq<Text>, alternatives: Seq<Config>, slots: Seq<Seq<Text>>) -> Option<
    Seq<SlotModel>,
>
    decreases ids.len(), slots.len() + 1,
{
    if ids.len() == 0 {
        let models = slot_models(slots, alternatives);
        if is_factored(models, alternatives) {
            Some(models)
        } else {
            None
        }
    } else {
        search_from(ids, alternatives, slots, 0)
    }
}

/// [`search`] with the first id placed in slot `at` or later.
pub open spec fn search_from(
    ids: Seq<Text>,
    alternatives: Seq<Config>,
    slots: Seq<Seq<Text>>,
    at: nat,
) -> Option<Seq<SlotModel>>
    decreases ids.len(), slots.len() - at,
{
    if ids.len() == 0 {
        None
    } else if at >= slots.len() {
        search(ids.drop_first(), alternatives, slots.push(seq![ids[0]]))
    } else {
        let joined = slots.update(at as int, slots[at as int].push(ids[0]));
        let found = if fits(slots[at as int], ids[0], alternatives) {
            search(ids.drop_first(), alternatives, joined)
        } else {
            None
        };
        match found {
            Some(models) => Some(models),
            None => search_from(ids, alternatives, slots, at + 1),
        }
    }
}

/// The slots that factor the combinations, the ids taken in the given order.
pub open spec fn decomposition(alternatives: Seq<Config>, id_order: Seq<Text>) -> Option<
    Seq<SlotModel>,
> {
    if alternatives.len() == 0 {
        Some(Seq::empty())
    } else {
        search(
            id_order.filter(|id: Text| in_some(alternatives, id)),
            alternatives,
            Seq::empty(),
        )
    }
}

/// Keeps the first occurrence of every value.
pub fn dedupe_order(values: Vec<String>) -> (kept: Vec<String>)
    ensures
        kept.deep_view() == distinct(values.deep_view()),
{
    let ghost all = values.deep_view();
    let mut seen = TextSet::new();
    let mut kept: Vec<String> = Vec::new();
    assert(kept.deep_view() =~= distinct(all.take(0)));
    let mut i: usize = 0;
    while i < values.len()
        invariant
            i <= values.len(),
            all == values.deep_view(),
            kept.deep_view() == distinct(all.take(i as int)),
            forall|value: Text| #[trigger]
                text_set_contents(seen).contains(value) <==> kept.deep_view().contains(value),
        decreases values.len() - i,
    {
        let ghost before = kept.deep_view();
        proof {
            assert(all[i as int] == values@[i as int]@);
            lemma_distinct_step(all, i as int);
        }
        if seen.insert(values[i].clone()) {
            kept.push(values[i].clone());
            proof {
                assert(kept.deep_view() =~= before.push(all[i as int]));
                assert forall|value: Text| #[trigger]
                    text_set_contents(seen).contains(value) <==> kept.deep_view().contains(
                    value,
                ) by {
                    lemma_push_contains(before, all[i as int], value);
                }
            }
        }
        i = i + 1;
    }
    proof {
        lemma_take_all(all);
    }
    kept
}

/// Whether some combination holds this id.
pub fn any_contains(alternatives: &Vec<IdSet>, id: &str) -> (found: bool)
    ensures
        found == in_some(alternatives.deep_view(), id@),
{
    let ghost all = alternatives.deep_view();
    let mut i: usize = 0;
    while i < alternatives.len()
        invariant
            i <= alternatives.len(),
            all == alternatives.deep_view(),
            forall|j: int| 0 <= j < i ==> !(#[trigger] all[j]).contains(id@),
        decreases alternatives.len() - i,
    {
        assert(all[i as int] == alternatives@[i as int]@);
        if alternatives[i].contains(id) {
            return true;
        }
        i = i + 1;
    }
    false
}

/// The ids that some combination holds, in order.
pub fn retain_present(ids: &Vec<String>, alternatives: &Vec<IdSet>) -> (kept: Vec<String>)
    ensures
        kept.deep_view() == ids.deep_view().filter(
            |id: Text| in_some(alternatives.deep_view(), id),
        ),
{
    let ghost all = ids.deep_view();
    let ghost keep = |id: Text| in_some(alternatives.deep_view(), id);
    let mut kept: Vec<String> = Vec::new();
    assert(kept.deep_view() =~= all.take(0).filter(keep));
    let mut i: usize = 0;
    while i < ids.len()
        invariant
            i <= ids.len(),
            all == ids.deep_view(),
            keep == (|id: Text| in_some(alternatives.deep_view(), id)),
            kept.deep_view() == all.take(i as int).filter(keep),
        decreases ids.len() - i,
    {
        proof {
            assert(all[i as int] == ids@[i as int]@);
            lemma_filter_step(all, keep, i as int);
        }
        if any_contains(alternatives, ids[i].as_str()) {
            let ghost before = kept.deep_view();
            kept.push(ids[i].clone());
            assert(kept.deep_view() =~= before.push(all[i as int]));
        }
        i = i + 1;
    }
    proof {
        lemma_take_all(all);
    }
    kept
}

/// Whether the set holds exactly the ordered pairs of ids that occur together.
pub open spec fn notes_pairs(cooccurs: TextPairSet, alternatives: Seq<Config>) -> bool {
    forall|left: Text, right: Text| #[trigger]
        text_pair_set_contents(cooccurs).contains((left, right)) <==> precedes(left, right)
            && cooccur(alternatives, left, right)
}

/// Notes the ordered pairs of ids of one combination.
fn note_pairs(cooccurs: &mut TextPairSet, alternative: &IdSet)
    ensures
        forall|left: Text, right: Text| #[trigger]
            text_pair_set_contents(*final(cooccurs)).contains((left, right)) <==> (
            text_pair_set_contents(*old(cooccurs)).contains((left, right)) || (precedes(left, right)
                && alternative@.contains(left) && alternative@.contains(right))),
{
    let ids = alternative.ids();
    let ghost all = ids.deep_view();
    let ghost start = text_pair_set_contents(*cooccurs);
    let mut i: usize = 0;
    while i < ids.len()
        invariant
            i <= ids.len(),
            all == ids.deep_view(),
            forall|left: Text, right: Text| #[trigger]
                text_pair_set_contents(*cooccurs).contains((left, right)) <==> (start.contains(
                    (left, right),
                ) || (precedes(left, right) && all.take(i as int).contains(left) && all.contains(
                    right,
                ))),
        decreases ids.len() - i,
    {
        let ghost outer = text_pair_set_contents(*cooccurs);
        let mut j: usize = 0;
        while j < ids.len()
            invariant
                i < ids.len(),
                j <= ids.len(),
                all == ids.deep_view(),
                forall|left: Text, right: Text| #[trigger]
                    text_pair_set_contents(*cooccurs).contains((left, right)) <==> (outer.contains(
                        (left, right),
                    ) || (precedes(left, right) && left == all[i as int] && all.take(
                        j as int,
                    ).contains(right))),
            decreases ids.len() - j,
        {
            let ghost inner = text_pair_set_contents(*cooccurs);
            assert(all[i as int] == ids@[i as int]@ && all[j as int] == ids@[j as int]@);
            assert(all.take(j + 1) =~= all.take(j as int).push(all[j as int]));
            if text_precedes(ids[i].as_str(), ids[j].as_str()) {
                let added = cooccurs.insert(ids[i].clone(), ids[j].clone());
            }
            assert forall|left: Text, right: Text| #[trigger]
                text_pair_set_contents(*cooccurs).contains((left, right)) <==> (outer.contains(
                    (left, right),
                ) || (precedes(left, right) && left == all[i as int] && all.take(j + 1).contains(
                    right,
                ))) by {
                lemma_push_contains(all.take(j as int), all[j as int], right);
                assert(inner.contains((left, right)) <==> (outer.contains((left, right)) || (
                precedes(left, right) && left == all[i as int] && all.take(j as int).contains(
                    right,
                ))));
            }
            j = j + 1;
        }
        proof {
            lemma_take_all(all);
            assert(all.take(i + 1) =~= all.take(i as int).push(all[i as int]));
            assert forall|left: Text, right: Text| #[trigger]
                text_pair_set_contents(*cooccurs).contains((left, right)) <==> (start.contains(
                    (left, right),
                ) || (precedes(left, right) && all.take(i + 1).contains(left) && all.contains(
                    right,
                ))) by {
                lemma_push_contains(all.take(i as int), all[i as int], left);
                assert(outer.contains((left, right)) <==> (start.contains((left, right)) || (
                precedes(left, right) && all.take(i as int).contains(left) && all.contains(
                    right,
                ))));
            }
        }
        i = i + 1;
    }
    proof {
        lemma_take_all(all);
        assert forall|id: Text| alternative@.contains(id) <==> all.contains(id) by {
            assert(all.to_set().contains(id) <==> all.contains(id));
        }
    }
}

/// The ordered pairs of ids that occur together in some combination.
fn collect_pairs(alternatives: &Vec<IdSet>) -> (cooccurs: TextPairSet)
    ensures
        notes_pairs(cooccurs, alternatives.deep_view()),
{
    let ghost all = alternatives.deep_view();
    let mut cooccurs = TextPairSet::new();
    let mut i: usize = 0;
    while i < alternatives.len()
        invariant
            i <= alternatives.len(),
            all == alternatives.deep_view(),
            notes_pairs(cooccurs, all.take(i as int)),
        decreases alternatives.len() - i,
    {
        let ghost before = text_pair_set_contents(cooccurs);
        let ghost earlier = all.take(i as int);
        let ghost now = all.take(i + 1);
        note_pairs(&mut cooccurs, &alternatives[i]);
        proof {
            assert(all[i as int] == alternatives@[i as int]@);
            assert forall|left: Text, right: Text| #[trigger]
                text_pair_set_contents(cooccurs).contains((left, right)) <==> precedes(left, right)
                    && cooccur(now, left, right) by {
                assert(before.contains((left, right)) <==> precedes(left, right) && cooccur(
                    earlier,
                    left,
                    right,
                ));
                lemma_precedes_irreflexive(left);
                if cooccur(earlier, left, right) {
                    let k = choose|k: int|
                        0 <= k < earlier.len() && (#[trigger] earlier[k]).contains(left)
                            && earlier[k].contains(right);
                    assert(now[k] == earlier[k]);
                }
                if cooccur(now, left, right) {
                    let k = choose|k: int|
                        0 <= k < now.len() && (#[trigger] now[k]).contains(left)
                            && now[k].contains(right);
                    if k < i {
                        assert(earlier[k] == now[k]);
                    }
                }
                if all[i as int].contains(left) && all[i as int].contains(right) {
                    assert(now[i as int] == all[i as int]);
                }
            }
        }
        i = i + 1;
    }
    proof {
        lemma_take_all(all);
    }
    cooccurs
}

/// Whether two ids occur together in some combination.
fn ids_cooccur(
    left: &str,
    right: &str,
    cooccurs: &TextPairSet,
    alternatives: Ghost<Seq<Config>>,
) -> (found: bool)
    requires
        notes_pairs(*cooccurs, alternatives@),
    ensures
        found == cooccur(alternatives@, left@, right@),
{
    proof {
        lemma_precedes_total(left@, right@);
        lemma_precedes_irreflexive(left@);
        assert(cooccur(alternatives@, left@, right@) == cooccur(alternatives@, right@, left@)) by {
            if cooccur(alternatives@, left@, right@) {
                let k = choose|k: int|
                    0 <= k < alternatives@.len() && (#[trigger] alternatives@[k]).contains(left@)
                        && alternatives@[k].contains(right@);
                assert(alternatives@[k].contains(right@));
            }
            if cooccur(alternatives@, right@, left@) {
                let k = choose|k: int|
                    0 <= k < alternatives@.len() && (#[trigger] alternatives@[k]).contains(right@)
                        && alternatives@[k].contains(left@);
                assert(alternatives@[k].contains(left@));
            }
        }
    }
    if text_precedes(left, right) {
        cooccurs.contains(left.to_owned(), right.to_owned())
    } else {
        cooccurs.contains(right.to_owned(), left.to_owned())
    }
}

/// Whether a combination comes of free choices added to `current`.
pub open spec fn reaches(slots: Seq<SlotModel>, current: Config, config: Config) -> bool {
    exists|picks: Seq<Option<Text>>| #[trigger]
        valid_picks(slots, picks) && config == current.union(picked(picks))
}

/// Whether a combination comes of a choice among the first `count` ids of the first slot.
pub open spec fn reaches_by(
    slots: Seq<SlotModel>,
    current: Config,
    config: Config,
    count: int,
) -> bool {
    exists|k: int|
        0 <= k < count && reaches(
            slots.drop_first(),
            current.insert(#[trigger] slots[0].ids[k]),
            config,
        )
}

/// Free choices start with the first slot.
proof fn lemma_reaches_step(slots: Seq<SlotModel>, current: Config, config: Config)
    requires
        slots.len() > 0,
    ensures
        reaches(slots, current, config) <==> reaches_by(
            slots,
            current,
            config,
            slots[0].ids.len() as int,
        ) || (slots[0].optional && reaches(slots.drop_first(), current, config)),
{
    let rest = slots.drop_first();
    if reaches(slots, current, config) {
        let picks = choose|picks: Seq<Option<Text>>| #[trigger]
            valid_picks(slots, picks) && config == current.union(picked(picks));
        let later = picks.drop_first();
        assert(valid_picks(rest, later)) by {
            assert forall|i: int| 0 <= i < rest.len() implies match #[trigger] later[i] {
                Some(id) => rest[i].ids.contains(id),
                None => rest[i].optional,
            } by {
                assert(later[i] == picks[i + 1]);
            }
        }
        assert forall|id: Text| picks.contains(Some(id)) <==> picks[0] == Some(id)
            || later.contains(Some(id)) by {
            if picks.contains(Some(id)) {
                let i = choose|i: int| 0 <= i < picks.len() && picks[i] == Some(id);
                if i > 0 {
                    assert(later[i - 1] == Some(id));
                }
            }
            if later.contains(Some(id)) {
                let i = choose|i: int| 0 <= i < later.len() && later[i] == Some(id);
                assert(picks[i + 1] == Some(id));
            }
        }
        match picks[0] {
            Some(id) => {
                let k = choose|k: int| 0 <= k < slots[0].ids.len() && slots[0].ids[k] == id;
                assert(current.insert(id).union(picked(later)) =~= config);
                assert(reaches(rest, current.insert(slots[0].ids[k]), config));
            },
            None => {
                assert(current.union(picked(later)) =~= config);
            },
        }
    }
    if reaches_by(slots, current, config, slots[0].ids.len() as int) {
        let k = choose|k: int|
            0 <= k < slots[0].ids.len() && reaches(
                rest,
                current.insert(#[trigger] slots[0].ids[k]),
                config,
            );
        let id = slots[0].ids[k];
        let later = choose|picks: Seq<Option<Text>>| #[trigger]
            valid_picks(rest, picks) && config == current.insert(id).union(picked(picks));
        lemma_reaches_first(slots, current, Some(id), later);
        let picks = seq![Some(id)] + later;
        assert forall|x: Text|
            current.insert(id).union(picked(later)).contains(x) <==> current.union(
                picked(picks),
            ).contains(x) by {
            assert(picks.contains(Some(x)) <==> Some(id) == Some(x) || later.contains(Some(x)));
        }
        assert(current.insert(id).union(picked(later)) =~= current.union(picked(picks)));
    }
    if slots[0].optional && reaches(rest, current, config) {
        let later = choose|picks: Seq<Option<Text>>| #[trigger]
            valid_picks(rest, picks) && config == current.union(picked(picks));
        lemma_reaches_first(slots, current, None, later);
        assert(current.union(picked(later)) =~= current.union(picked(seq![None] + later)));
    }
}

/// Picks for all slots from a pick for the first one and picks for the others.
proof fn lemma_reaches_first(
    slots: Seq<SlotModel>,
    current: Config,
    first: Option<Text>,
    later: Seq<Option<Text>>,
)
    requires
        slots.len() > 0,
        match first {
            Some(id) => slots[0].ids.contains(id),
            None => slots[0].optional,
        },
        valid_picks(slots.drop_first(), later),
    ensures
        valid_picks(slots, seq![first] + later),
        forall|id: Text|
            #![trigger (seq![first] + later).contains(Some(id))]
            #![trigger later.contains(Some(id))]
            (seq![first] + later).contains(Some(id)) <==> first == Some(id) || later.contains(
                Some(id),
            ),
{
    let picks = seq![first] + later;
    let rest = slots.drop_first();
    assert forall|i: int| 0 <= i < slots.len() implies match #[trigger] picks[i] {
        Some(id) => slots[i].ids.contains(id),
        None => slots[i].optional,
    } by {
        if i > 0 {
            assert(picks[i] == later[i - 1]);
            assert(rest[i - 1] == slots[i]);
        }
    }
    assert forall|id: Text| picks.contains(Some(id)) <==> first == Some(id) || later.contains(
        Some(id),
    ) by {
        if first == Some(id) {
            assert(picks[0] == Some(id));
        }
        if later.contains(Some(id)) {
            let i = choose|i: int| 0 <= i < later.len() && later[i] == Some(id);
            assert(picks[i + 1] == Some(id));
        }
        if picks.contains(Some(id)) {
            let i = choose|i: int| 0 <= i < picks.len() && picks[i] == Some(id);
            if i > 0 {
                assert(later[i - 1] == Some(id));
            }
        }
    }
}

/// Without slots nothing is added.
proof fn lemma_reaches_done(slots: Seq<SlotModel>, current: Config, config: Config)
    requires
        slots.len() == 0,
    ensures
        reaches(slots, current, config) <==> config == current,
{
    let none = Seq::<Option<Text>>::empty();
    assert(valid_picks(slots, none));
    assert(current.union(picked(none)) =~= current);
    if reaches(slots, current, config) {
        let picks = choose|picks: Seq<Option<Text>>| #[trigger]
            valid_picks(slots, picks) && config == current.union(picked(picks));
        assert(current.union(picked(picks)) =~= current);
    }
}

/// Adds to `out` every combination that comes of free choices in the slots from `index` on, added
/// to `current`.
pub fn generate_slot_products(
    choices: &Vec<SlotSpec>,
    index: usize,
    current: IdSet,
    out: &mut Vec<IdSet>,
)
    requires
        index <= choices.len(),
    ensures
        forall|config: Config| #[trigger]
            final(out).deep_view().contains(config) <==> old(out).deep_view().contains(config)
                || reaches(choices.deep_view().skip(index as int), current@, config),
    decreases choices.len() - index,
{
    let ghost start = out.deep_view();
    let ghost slots = choices.deep_view().skip(index as int);
    if index == choices.len() {
        out.push(current);
        proof {
            assert(out.deep_view() =~= start.push(current@));
            assert forall|config: Config| #[trigger]
                out.deep_view().contains(config) <==> start.contains(config) || reaches(
                slots,
                current@,
                config,
            ) by {
                lemma_push_contains(start, current@, config);
                lemma_reaches_done(slots, current@, config);
            }
        }
        return;
    }
    let choice = &choices[index];
    let ghost rest = choices.deep_view().skip(index + 1);
    proof {
        assert(slots[0] == choice.deep_view());
        assert(slots.drop_first() =~= rest);
    }
    let mut k: usize = 0;
    while k < choice.ids.len()
        invariant
            index < choices.len(),
            k <= choice.ids.len(),
            choice == choices@[index as int],
            slots == choices.deep_view().skip(index as int),
            rest == choices.deep_view().skip(index + 1),
            slots[0] == choice.deep_view(),
            slots.drop_first() == rest,
            forall|config: Config| #[trigger]
                out.deep_view().contains(config) <==> start.contains(config) || reaches_by(
                    slots,
                    current@,
                    config,
                    k as int,
                ),
        decreases choice.ids.len() - k,
    {
        let ghost before = out.deep_view();
        let next = current.clone().with(choice.ids[k].clone());
        generate_slot_products(choices, index + 1, next, out);
        proof {
            assert(slots[0].ids[k as int] == choice.ids@[k as int]@);
            assert forall|config: Config| #[trigger]
                out.deep_view().contains(config) <==> start.contains(config) || reaches_by(
                slots,
                current@,
                config,
                k + 1,
            ) by {
                assert(before.contains(config) <==> start.contains(config) || reaches_by(
                    slots,
                    current@,
                    config,
                    k as int,
                ));
                if reaches_by(slots, current@, config, k as int) {
                    let j = choose|j: int|
                        0 <= j < k && reaches(
                            slots.drop_first(),
                            current@.insert(#[trigger] slots[0].ids[j]),
                            config,
                        );
                    assert(reaches(rest, current@.insert(slots[0].ids[j]), config));
                }
                if reaches(rest, current@.insert(slots[0].ids[k as int]), config) {
                    assert(reaches_by(slots, current@, config, k + 1));
                }
                if reaches_by(slots, current@, config, k + 1) {
                    let j = choose|j: int|
                        0 <= j < k + 1 && reaches(
                            slots.drop_first(),
                            current@.insert(#[trigger] slots[0].ids[j]),
                            config,
                        );
                    if j < k {
                        assert(reaches_by(slots, current@, config, k as int));
                    }
                }
            }
        }
        k = k + 1;
    }
    let ghost before = out.deep_view();
    let ghost base = current@;
    if choice.optional {
        generate_slot_products(choices, index + 1, current, out);
    }
    proof {
        assert forall|config: Config| #[trigger]
            out.deep_view().contains(config) <==> start.contains(config) || reaches(
            slots,
            base,
            config,
        ) by {
            lemma_reaches_step(slots, base, config);
            assert(before.contains(config) <==> start.contains(config) || reaches_by(
                slots,
                base,
                config,
                choice.ids.len() as int,
            ));
        }
    }
}

/// Whether every combination of `left` is one of `right`.
fn all_among(left: &Vec<IdSet>, right: &Vec<IdSet>) -> (among: bool)
    ensures
        among == forall|config: Config| #[trigger]
            left.deep_view().contains(config) ==> right.deep_view().contains(config),
{
    let ghost ls = left.deep_view();
    let ghost rs = right.deep_view();
    let mut i: usize = 0;
    while i < left.len()
        invariant
            i <= left.len(),
            ls == left.deep_view(),
            rs == right.deep_view(),
            forall|k: int| 0 <= k < i ==> rs.contains(#[trigger] ls[k]),
        decreases left.len() - i,
    {
        let mut found = false;
        let mut j: usize = 0;
        assert(ls[i as int] == left@[i as int]@);
        while j < right.len() && !found
            invariant
                i < left.len(),
                j <= right.len(),
                ls == left.deep_view(),
                rs == right.deep_view(),
                ls[i as int] == left@[i as int]@,
                found ==> rs.contains(ls[i as int]),
                !found ==> forall|k: int| 0 <= k < j ==> #[trigger] rs[k] != ls[i as int],
            decreases right.len() - j,
        {
            assert(rs[j as int] == right@[j as int]@);
            found = left[i].same(&right[j]);
            j = j + 1;
        }
        if !found {
            assert(ls.contains(ls[i as int]));
            assert(!rs.contains(ls[i as int]));
            return false;
        }
        i = i + 1;
    }
    true
}

/// Whether `alternative` holds one of `ids`.
pub fn touches_any(alternative: &IdSet, ids: &Vec<String>) -> (found: bool)
    ensures
        found == touches(alternative@, ids.deep_view()),
{
    let ghost all = ids.deep_view();
    let mut i: usize = 0;
    while i < ids.len()
        invariant
            i <= ids.len(),
            all == ids.deep_view(),
            forall|j: int| 0 <= j < i ==> !alternative@.contains(#[trigger] all[j]),
        decreases ids.len() - i,
    {
        assert(all[i as int] == ids@[i as int]@);
        if alternative.contains(ids[i].as_str()) {
            return true;
        }
        i = i + 1;
    }
    false
}

/// The slot with these ids.
fn slot_spec(ids: &Vec<String>, alternatives: &Vec<IdSet>) -> (spec: SlotSpec)
    ensures
        spec.deep_view() == slot_model(ids.deep_view(), alternatives.deep_view()),
{
    let ghost all = alternatives.deep_view();
    let mut optional = false;
    let mut i: usize = 0;
    while i < alternatives.len() && !optional
        invariant
            i <= alternatives.len(),
            all == alternatives.deep_view(),
            optional ==> exists|j: int|
                0 <= j < all.len() && !touches(#[trigger] all[j], ids.deep_view()),
            !optional ==> forall|j: int|
                0 <= j < i ==> touches(#[trigger] all[j], ids.deep_view()),
        decreases alternatives.len() - i,
    {
        assert(all[i as int] == alternatives@[i as int]@);
        optional = !touches_any(&alternatives[i], ids);
        i = i + 1;
    }
    let copy = ids.clone();
    assert(copy.deep_view() =~= ids.deep_view());
    SlotSpec { ids: copy, optional }
}

/// The slots with these ids, when the free choices give exactly the combinations.
pub fn slots_match_alternatives(
    slots: &Vec<Vec<String>>,
    alternatives: &Vec<IdSet>,
) -> (specs: Option<Vec<SlotSpec>>)
    ensures
        ({
            let models = slot_models(slots.deep_view(), alternatives.deep_view());
            specs.deep_view() == if is_factored(models, alternatives.deep_view()) {
                Some(models)
            } else {
                None
            }
        }),
{
    let ghost alts = alternatives.deep_view();
    let ghost models = slot_models(slots.deep_view(), alts);
    let mut specs: Vec<SlotSpec> = Vec::new();
    let mut i: usize = 0;
    while i < slots.len()
        invariant
            i <= slots.len(),
            alts == alternatives.deep_view(),
            models == slot_models(slots.deep_view(), alts),
            specs.len() == i,
            forall|k: int| 0 <= k < i ==> (#[trigger] specs@[k]).deep_view() == models[k],
        decreases slots.len() - i,
    {
        specs.push(slot_spec(&slots[i], alternatives));
        i = i + 1;
    }
    assert(specs.deep_view() =~= models);
    let mut generated: Vec<IdSet> = Vec::new();
    generate_slot_products(&specs, 0, IdSet::new(), &mut generated);
    proof {
        assert(models.skip(0) =~= models);
        assert forall|config: Config| #[trigger]
            generated.deep_view().contains(config) <==> is_product(models, config) by {
            let none = Set::<Text>::empty();
            if reaches(models, none, config) {
                let picks = choose|picks: Seq<Option<Text>>| #[trigger]
                    valid_picks(models, picks) && config == none.union(picked(picks));
                assert(none.union(picked(picks)) =~= picked(picks));
            }
            if is_product(models, config) {
                let picks = choose|picks: Seq<Option<Text>>| #[trigger]
                    valid_picks(models, picks) && picked(picks) == config;
                assert(none.union(picked(picks)) =~= picked(picks));
                assert(reaches(models, none, config));
            }
        }
    }
    if all_among(&generated, alternatives) && all_among(alternatives, &generated) {
        assert(is_factored(models, alts)) by {
            assert forall|config: Config| #[trigger]
                is_product(models, config) <==> alts.contains(config) by {
                assert(generated.deep_view().contains(config) <==> is_product(models, config));
            }
        }
        Some(specs)
    } else {
        proof {
            if is_factored(models, alts) {
                assert forall|config: Config| generated.deep_view().contains(config)
                    <==> alts.contains(config) by {
                    assert(is_product(models, config) <==> alts.contains(config));
                }
            }
        }
        None
    }
}

/// Whether `id` can join the slot with these ids.
fn can_join(
    id: &str,
    slot: &Vec<String>,
    cooccurs: &TextPairSet,
    alternatives: Ghost<Seq<Config>>,
) -> (can: bool)
    requires
        notes_pairs(*cooccurs, alternatives@),
    ensures
        can == fits(slot.deep_view(), id@, alternatives@),
{
    let ghost all = slot.deep_view();
    let mut i: usize = 0;
    while i < slot.len()
        invariant
            i <= slot.len(),
            all == slot.deep_view(),
            notes_pairs(*cooccurs, alternatives@),
            forall|j: int| 0 <= j < i ==> !cooccur(alternatives@, id@, #[trigger] all[j]),
        decreases slot.len() - i,
    {
        assert(all[i as int] == slot@[i as int]@);
        if ids_cooccur(id, slot[i].as_str(), cooccurs, alternatives) {
            return false;
        }
        i = i + 1;
    }
    true
}

/// Places the ids from `index` on into slots, after `slots`.
fn decompose_slots_inner(
    ids: &Vec<String>,
    alternatives: &Vec<IdSet>,
    cooccurs: &TextPairSet,
    index: usize,
    slots: &mut Vec<Vec<String>>,
) -> (found: Option<Vec<SlotSpec>>)
    requires
        index <= ids.len(),
        notes_pairs(*cooccurs, alternatives.deep_view()),
    ensures
        found.deep_view() == search(
            ids.deep_view().skip(index as int),
            alternatives.deep_view(),
            old(slots).deep_view(),
        ),
        found is None ==> final(slots).deep_view() == old(slots).deep_view(),
    decreases ids.len() - index,
{
    let ghost alts = alternatives.deep_view();
    let ghost todo = ids.deep_view().skip(index as int);
    let ghost start = slots.deep_view();
    if index == ids.len() {
        return slots_match_alternatives(slots, alternatives);
    }
    let id = &ids[index];
    proof {
        assert(todo[0] == id@);
        assert(todo.drop_first() =~= ids.deep_view().skip(index + 1));
    }
    let mut at: usize = 0;
    while at < slots.len()
        invariant
            index < ids.len(),
            at <= slots.len(),
            id == ids@[index as int],
            alts == alternatives.deep_view(),
            notes_pairs(*cooccurs, alts),
            todo == ids.deep_view().skip(index as int),
            todo.len() > 0,
            todo[0] == id@,
            todo.drop_first() == ids.deep_view().skip(index + 1),
            start == old(slots).deep_view(),
            slots.deep_view() == start,
            search(todo, alts, start) == search_from(todo, alts, start, at as nat),
        decreases slots.len() - at,
    {
        assert(start[at as int] == slots@[at as int].deep_view());
        if can_join(id.as_str(), &slots[at], cooccurs, Ghost(alts)) {
            slots[at].push(id.clone());
            let ghost joined = start.update(at as int, start[at as int].push(id@));
            assert(slots.deep_view() =~= joined) by {
                assert(slots.deep_view()[at as int] =~= joined[at as int]);
            }
            let found = decompose_slots_inner(ids, alternatives, cooccurs, index + 1, slots);
            if found.is_some() {
                return found;
            }
            let ghost grown = slots@;
            proof {
                assert forall|k: int| 0 <= k < grown.len() implies (
                #[trigger] grown[k]).deep_view() == joined[k] by {
                    assert(joined[k] == slots.deep_view()[k]);
                }
                assert(grown[at as int].deep_view().len() == grown[at as int]@.len());
            }
            let last = slots[at].pop();
            proof {
                assert(slots@[at as int].deep_view() =~= start[at as int]) by {
                    let before = grown[at as int];
                    assert forall|k: int| 0 <= k < start[at as int].len() implies (
                    #[trigger] slots@[at as int]@[k])@ == start[at as int][k] by {
                        assert(before.deep_view()[k] == before@[k]@);
                    }
                }
                assert forall|k: int| 0 <= k < start.len() implies (
                #[trigger] slots@[k]).deep_view() == start[k] by {
                    if k != at {
                        assert(slots@[k] == grown[k]);
                    }
                }
                assert(slots.deep_view() =~= start);
            }
        }
        at = at + 1;
    }
    let own = vec![id.clone()];
    assert(own.deep_view() =~= seq![id@]);
    slots.push(own);
    assert(slots.deep_view() =~= start.push(seq![id@]));
    let ghost opened = start.push(seq![id@]);
    let found = decompose_slots_inner(ids, alternatives, cooccurs, index + 1, slots);
    if found.is_none() {
        assert(slots.deep_view().len() == opened.len());
        assert forall|k: int| 0 <= k < slots@.len() implies (
        #[trigger] slots@[k]).deep_view() == opened[k] by {
            assert(opened[k] == slots.deep_view()[k]);
        }
        let ghost grown = slots@;
        let last = slots.pop();
        proof {
            assert forall|k: int| 0 <= k < start.len() implies (
            #[trigger] slots@[k]).deep_view() == start[k] by {
                assert(grown[k].deep_view() == opened[k]);
            }
            assert(slots.deep_view() =~= start);
        }
    }
    found
}

/// Splits the combinations into independent slots, if they can be split.
pub fn decompose_slots(
    alternatives: &Vec<IdSet>,
    id_order: &Vec<String>,
) -> (found: Option<Vec<SlotSpec>>)
    ensures
        found.deep_view() == decomposition(alternatives.deep_view(), id_order.deep_view()),
{
    if alternatives.is_empty() {
        let none: Vec<SlotSpec> = Vec::new();
        assert(none.deep_view() =~= Seq::<SlotModel>::empty());
        assert(alternatives.deep_view().len() == 0);
        return Some(none);
    }
    assert(alternatives.deep_view().len() > 0);
    let cooccurs = collect_pairs(alternatives);
    let ids = retain_present(id_order, alternatives);
    let mut slots: Vec<Vec<String>> = Vec::new();
    assert(slots.deep_view() =~= Seq::<Seq<Text>>::empty());
    assert(ids.deep_view().skip(0) =~= ids.deep_view());
    decompose_slots_inner(&ids, alternatives, &cooccurs, 0, &mut slots)
}

/// Whether no id is in two slots, and none of `ids` is in a slot already.
pub open spec fn apart(slots: Seq<Seq<Text>>, ids: Seq<Text>) -> bool {
    &&& ids.no_duplicates()
    &&& forall|i: int, a: int, j: int, b: int|
        0 <= i < slots.len() && 0 <= a < slots[i].len() && 0 <= j < slots.len() && 0 <= b
            < slots[j].len() && i != j ==> #[trigger] slots[i][a] != #[trigger] slots[j][b]
    &&& forall|i: int, a: int, n: int|
        0 <= i < slots.len() && 0 <= a < slots[i].len() && 0 <= n < ids.len()
            ==> #[trigger] slots[i][a] != #[trigger] ids[n]
}

/// Whether no id is in two slots.
pub open spec fn disjoint_slots(slots: Seq<SlotModel>) -> bool {
    forall|i: int, j: int, id: Text|
        0 <= i < slots.len() && 0 <= j < slots.len() && #[trigger] slots[i].ids.contains(id)
            && #[trigger] slots[j].ids.contains(id) ==> i == j
}

proof fn lemma_apart_joined(slots: Seq<Seq<Text>>, ids: Seq<Text>, at: int)
    requires
        apart(slots, ids),
        ids.len() > 0,
        0 <= at < slots.len(),
    ensures
        apart(slots.update(at, slots[at].push(ids[0])), ids.drop_first()),
{
    let next = slots.update(at, slots[at].push(ids[0]));
    let rest = ids.drop_first();
    assert forall|i: int, a: int, j: int, b: int|
        0 <= i < next.len() && 0 <= a < next[i].len() && 0 <= j < next.len() && 0 <= b
            < next[j].len() && i != j implies #[trigger] next[i][a] != #[trigger] next[j][b] by {
        if i == at && a == slots[at].len() {
            assert(slots[j][b] != ids[0]);
        } else if j == at && b == slots[at].len() {
            assert(slots[i][a] != ids[0]);
        } else {
            assert(slots[i][a] != slots[j][b]);
        }
    }
    assert forall|i: int, a: int, n: int|
        0 <= i < next.len() && 0 <= a < next[i].len() && 0 <= n < rest.len()
            implies #[trigger] next[i][a] != #[trigger] rest[n] by {
        assert(rest[n] == ids[n + 1]);
        if !(i == at && a == slots[at].len()) {
            assert(slots[i][a] != ids[n + 1]);
        }
    }
}

proof fn lemma_apart_opened(slots: Seq<Seq<Text>>, ids: Seq<Text>)
    requires
        apart(slots, ids),
        ids.len() > 0,
    ensures
        apart(slots.push(seq![ids[0]]), ids.drop_first()),
{
    let next = slots.push(seq![ids[0]]);
    let rest = ids.drop_first();
    assert forall|i: int, a: int, j: int, b: int|
        0 <= i < next.len() && 0 <= a < next[i].len() && 0 <= j < next.len() && 0 <= b
            < next[j].len() && i != j implies #[trigger] next[i][a] != #[trigger] next[j][b] by {
        if i == slots.len() {
            assert(slots[j][b] != ids[0]);
        } else if j == slots.len() {
            assert(slots[i][a] != ids[0]);
        } else {
            assert(slots[i][a] != slots[j][b]);
        }
    }
    assert forall|i: int, a: int, n: int|
        0 <= i < next.len() && 0 <= a < next[i].len() && 0 <= n < rest.len()
            implies #[trigger] next[i][a] != #[trigger] rest[n] by {
        assert(rest[n] == ids[n + 1]);
        if i < slots.len() {
            assert(slots[i][a] != ids[n + 1]);
        }
    }
}

proof fn lemma_search_is_faithful(ids: Seq<Text>, alternatives: Seq<Config>, slots: Seq<Seq<Text>>)
    ensures
        search(ids, alternatives, slots) matches Some(models) ==> is_factored(models, alternatives)
            && (apart(slots, ids) ==> disjoint_slots(models)),
    decreases ids.len(), slots.len() + 1,
{
    if ids.len() == 0 {
        let models = slot_models(slots, alternatives);
        if apart(slots, ids) {
            assert forall|i: int, j: int, id: Text|
                0 <= i < models.len() && 0 <= j < models.len()
                    && #[trigger] models[i].ids.contains(id)
                    && #[trigger] models[j].ids.contains(id) implies i == j by {
                let a = choose|a: int| 0 <= a < slots[i].len() && slots[i][a] == id;
                let b = choose|b: int| 0 <= b < slots[j].len() && slots[j][b] == id;
                assert(slots[i][a] == slots[j][b]);
            }
        }
    } else {
        lemma_search_from_is_faithful(ids, alternatives, slots, 0);
    }
}

proof fn lemma_search_from_is_faithful(
    ids: Seq<Text>,
    alternatives: Seq<Config>,
    slots: Seq<Seq<Text>>,
    at: nat,
)
    ensures
        search_from(ids, alternatives, slots, at) matches Some(models) ==> is_factored(
            models,
            alternatives,
        ) && (apart(slots, ids) ==> disjoint_slots(models)),
    decreases ids.len(), slots.len() - at,
{
    if ids.len() > 0 {
        if at >= slots.len() {
            lemma_search_is_faithful(ids.drop_first(), alternatives, slots.push(seq![ids[0]]));
            if apart(slots, ids) {
                lemma_apart_opened(slots, ids);
            }
        } else {
            let joined = slots.update(at as int, slots[at as int].push(ids[0]));
            lemma_search_is_faithful(ids.drop_first(), alternatives, joined);
            if apart(slots, ids) {
                lemma_apart_joined(slots, ids, at as int);
            }
            lemma_search_from_is_faithful(ids, alternatives, slots, at + 1);
        }
    }
}

/// Slots that are found are faithful: free choices in them give exactly the combinations. No id
/// is in two of them.
pub proof fn lemma_decomposition_is_faithful(alternatives: Seq<Config>, id_order: Seq<Text>)
    requires
        alternatives.len() > 0,
        id_order.no_duplicates(),
    ensures
        decomposition(alternatives, id_order) matches Some(slots) ==> is_factored(
            slots,
            alternatives,
        ) && disjoint_slots(slots),
{
    let keep = |id: Text| in_some(alternatives, id);
    let ids = id_order.filter(keep);
    lemma_filter_no_duplicates(id_order, keep);
    assert(apart(Seq::empty(), ids));
    lemma_search_is_faithful(ids, alternatives, Seq::empty());
}

/// The ids grouped by a label, groups and ids in the order of first appearance.
pub open spec fn grouped(ids: Seq<Text>, label: spec_fn(Text) -> int) -> Seq<Seq<Text>>
    decreases ids.len(),
{
    if ids.len() == 0 {
        Seq::empty()
    } else {
        let earlier = grouped(ids.drop_last(), label);
        let id = ids.last();
        match first_where(earlier, |group: Seq<Text>| label(group[0]) == label(id)) {
            Some(k) => earlier.update(k, earlier[k].push(id)),
            None => earlier.push(seq![id]),
        }
    }
}

/// A group holds ids of one label, and no two groups have the same.
proof fn lemma_grouped(ids: Seq<Text>, label: spec_fn(Text) -> int)
    ensures
        forall|i: int| 0 <= i < grouped(ids, label).len() ==> (#[trigger] grouped(ids, label)[i]).len() > 0,
        forall|i: int, k: int|
            0 <= i < grouped(ids, label).len() && 0 <= k < grouped(ids, label)[i].len() ==> label(
                #[trigger] grouped(ids, label)[i][k],
            ) == label(grouped(ids, label)[i][0]),
        forall|i: int, j: int|
            0 <= i < grouped(ids, label).len() && 0 <= j < grouped(ids, label).len() && i != j
                ==> label((#[trigger] grouped(ids, label)[i])[0]) != label(
                (#[trigger] grouped(ids, label)[j])[0],
            ),
    decreases ids.len(),
{
    if ids.len() > 0 {
        let earlier = grouped(ids.drop_last(), label);
        let id = ids.last();
        let wanted = |group: Seq<Text>| label(group[0]) == label(id);
        lemma_grouped(ids.drop_last(), label);
        lemma_first_where(earlier, wanted);
        let groups = grouped(ids, label);
        match first_where(earlier, wanted) {
            Some(at) => {
                assert(wanted(earlier[at]));
                assert forall|i: int| 0 <= i < groups.len() implies (#[trigger] groups[i]).len() > 0
                    && groups[i][0] == earlier[i][0] by {
                    assert(earlier[i].len() > 0);
                }
                assert forall|i: int, k: int|
                    0 <= i < groups.len() && 0 <= k < groups[i].len() implies label(
                    #[trigger] groups[i][k],
                ) == label(groups[i][0]) by {
                    assert(groups[i].len() > 0);
                    if !(i == at && k == earlier[at].len()) {
                        assert(groups[i][k] == earlier[i][k]);
                    }
                }
                assert forall|i: int, j: int|
                    0 <= i < groups.len() && 0 <= j < groups.len() && i != j implies label(
                    (#[trigger] groups[i])[0],
                ) != label((#[trigger] groups[j])[0]) by {
                    assert(label(earlier[i][0]) != label(earlier[j][0]));
                }
            },
            None => {
                assert forall|i: int, k: int|
                    0 <= i < groups.len() && 0 <= k < groups[i].len() implies label(
                    #[trigger] groups[i][k],
                ) == label(groups[i][0]) by {
                    if i < earlier.len() {
                        assert(groups[i][k] == earlier[i][k]);
                    }
                }
                assert forall|i: int, j: int|
                    0 <= i < groups.len() && 0 <= j < groups.len() && i != j implies label(
                    (#[trigger] groups[i])[0],
                ) != label((#[trigger] groups[j])[0]) by {
                    if i == earlier.len() {
                        assert(!wanted(earlier[j]));
                    } else if j == earlier.len() {
                        assert(!wanted(earlier[i]));
                    } else {
                        assert(label(earlier[i][0]) != label(earlier[j][0]));
                    }
                }
            },
        }
    }
}

/// Groups only grow.
proof fn lemma_groups_grow(ids: Seq<Text>, label: spec_fn(Text) -> int, n: int, i: int, k: int)
    requires
        0 <= n <= ids.len(),
        0 <= i < grouped(ids.take(n), label).len(),
        0 <= k < grouped(ids.take(n), label)[i].len(),
    ensures
        i < grouped(ids, label).len(),
        k < grouped(ids, label)[i].len(),
        grouped(ids, label)[i][k] == grouped(ids.take(n), label)[i][k],
    decreases ids.len(),
{
    if n < ids.len() {
        let rest = ids.drop_last();
        assert(rest.take(n) =~= ids.take(n));
        lemma_groups_grow(rest, label, n, i, k);
        let earlier = grouped(rest, label);
        lemma_first_where(earlier, |group: Seq<Text>| label(group[0]) == label(ids.last()));
    } else {
        assert(ids.take(n) =~= ids);
    }
}

/// Ids of one group never occur together when the groups factor the combinations.
proof fn lemma_grouped_fits(
    ids: Seq<Text>,
    label: spec_fn(Text) -> int,
    alternatives: Seq<Config>,
    at: int,
    a: int,
    b: int,
)
    requires
        is_factored(slot_models(grouped(ids, label), alternatives), alternatives),
        0 <= at < grouped(ids, label).len(),
        0 <= a < grouped(ids, label)[at].len(),
        0 <= b < grouped(ids, label)[at].len(),
    ensures
        !cooccur(alternatives, grouped(ids, label)[at][a], grouped(ids, label)[at][b]),
{
    let groups = grouped(ids, label);
    let models = slot_models(groups, alternatives);
    let (x, y) = (groups[at][a], groups[at][b]);
    lemma_grouped(ids, label);
    if cooccur(alternatives, x, y) {
        let i = choose|i: int|
            0 <= i < alternatives.len() && (#[trigger] alternatives[i]).contains(x)
                && alternatives[i].contains(y);
        let config = alternatives[i];
        assert(alternatives.contains(config));
        assert(is_product(models, config));
        let picks = choose|picks: Seq<Option<Text>>| #[trigger]
            valid_picks(models, picks) && picked(picks) == config;
        assert(picks.contains(Some(x)) && picks.contains(Some(y))) by {
            assert(picked(picks).contains(x) && picked(picks).contains(y));
        }
        let p = choose|p: int| 0 <= p < picks.len() && picks[p] == Some(x);
        let q = choose|q: int| 0 <= q < picks.len() && picks[q] == Some(y);
        assert(models[p].ids.contains(x));
        assert(models[q].ids.contains(y));
        let c = choose|c: int| 0 <= c < groups[p].len() && groups[p][c] == x;
        let d = choose|d: int| 0 <= d < groups[q].len() && groups[q][d] == y;
        assert(label(groups[p][c]) == label(groups[p][0]));
        assert(label(groups[q][d]) == label(groups[q][0]));
        assert(label(groups[at][a]) == label(groups[at][0]));
        assert(label(groups[at][b]) == label(groups[at][0]));
        assert(p == at && q == at);
    }
}

/// The search for a place at `from` or later succeeds when it succeeds at `at`.
proof fn lemma_search_from_found(
    ids: Seq<Text>,
    alternatives: Seq<Config>,
    slots: Seq<Seq<Text>>,
    from: nat,
    at: nat,
)
    requires
        ids.len() > 0,
        from <= at <= slots.len(),
        search_from(ids, alternatives, slots, at) is Some,
    ensures
        search_from(ids, alternatives, slots, from) is Some,
    decreases at - from,
{
    if from < at {
        lemma_search_from_found(ids, alternatives, slots, from + 1, at);
    }
}

proof fn lemma_search_found(
    ids: Seq<Text>,
    label: spec_fn(Text) -> int,
    alternatives: Seq<Config>,
    n: int,
)
    requires
        0 <= n <= ids.len(),
        is_factored(slot_models(grouped(ids, label), alternatives), alternatives),
    ensures
        search(ids.skip(n), alternatives, grouped(ids.take(n), label)) is Some,
    decreases ids.len() - n,
{
    let slots = grouped(ids.take(n), label);
    if n == ids.len() {
        assert(ids.take(n) =~= ids);
    } else {
        lemma_search_found(ids, label, alternatives, n + 1);
        let todo = ids.skip(n);
        let id = ids[n];
        assert(todo[0] == id);
        assert(todo.drop_first() =~= ids.skip(n + 1));
        assert(ids.take(n + 1).drop_last() =~= ids.take(n));
        assert(ids.take(n + 1).last() == id);
        let wanted = |group: Seq<Text>| label(group[0]) == label(id);
        let next = grouped(ids.take(n + 1), label);
        lemma_first_where(slots, wanted);
        match first_where(slots, wanted) {
            Some(at) => {
                assert(next == slots.update(at, slots[at].push(id)));
                assert forall|k: int| 0 <= k < slots[at].len() implies !cooccur(
                    alternatives,
                    id,
                    #[trigger] slots[at][k],
                ) by {
                    lemma_groups_grow(ids, label, n, at, k);
                    assert(next[at][slots[at].len() as int] == id);
                    lemma_groups_grow(ids, label, n + 1, at, slots[at].len() as int);
                    lemma_grouped_fits(ids, label, alternatives, at, slots[at].len() as int, k);
                }
                assert(search_from(todo, alternatives, slots, at as nat) is Some);
                lemma_search_from_found(todo, alternatives, slots, 0, at as nat);
            },
            None => {
                assert(next == slots.push(seq![id]));
                assert(search_from(todo, alternatives, slots, slots.len()) is Some);
                lemma_search_from_found(todo, alternatives, slots, 0, slots.len());
            },
        }
    }
}

/// Slots are found whenever there are any: if the ids can be grouped by some label so that free
/// choices in the groups give exactly the combinations, the search succeeds.
pub proof fn lemma_decomposition_is_found(
    alternatives: Seq<Config>,
    id_order: Seq<Text>,
    label: spec_fn(Text) -> int,
)
    requires
        is_factored(
            slot_models(
                grouped(id_order.filter(|id: Text| in_some(alternatives, id)), label),
                alternatives,
            ),
            alternatives,
        ),
    ensures
        decomposition(alternatives, id_order) is Some,
{
    if alternatives.len() > 0 {
        let ids = id_order.filter(|id: Text| in_some(alternatives, id));
        lemma_search_found(ids, label, alternatives, 0);
        assert(ids.skip(0) =~= ids);
        assert(ids.take(0) =~= Seq::<Text>::empty());
    }
}

} // verus!
