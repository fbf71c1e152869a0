//! What holds of the combinations of credential queries that answer a query.

use crate::laws::claims::{is_first_with_id, lemma_ids_stand_for_the_first_query, members};
use crate::laws::listings::{ascends, drawn_at, lemma_filtering_keeps_the_order};
use crate::laws::listings::lemma_the_first_occurrence_stays;
use crate::models::{CredentialQueryModel, CredentialSetModel, DcqlQueryModel, TransactionDataModel};
use crate::planner::configs::{after_optional, answers, cartesian, configs_of, extensions, feasible};
use crate::planner::configs::joined;
use crate::planner::configs::{offered, prefer_absent, prefer_present, required_lists, some_empty};
use crate::planner::configs::{with_optional, Config};
use crate::planner::error::PlanErrorModel;
use crate::planner::index::{lemma_query_table, query_table, QueryTable};
use crate::planner::laws::{answered, answered_ids, chosen, is_choice};
use crate::planner::laws::lemma_choices_answer_the_query;
use crate::planner::options::{CredentialSetOptionMode, OptionalCredentialSetsMode};
use crate::planner::options::PlanOptionsModel;
use crate::planner::plan::plan;
use crate::planner::selections::SelectionModel;
use crate::planner::transactions::matched_ids;
use crate::seqs::{lemma_add_contains, lemma_distinct, lemma_filter_contains};
use crate::seqs::lemma_flat_map_contains;
use crate::seqs::lemma_flat_map_empty;
use crate::seqs::{lemma_flat_map_step, lemma_push_contains, lemma_take_all};
use crate::store::CredentialStore;
use crate::text::Text;
use vstd::prelude::*;

verus! {

/// Whether an option can be offered: it names something, and all that it names is matched.
pub open spec fn can_be_offered(option: Seq<Text>, matched: Set<Text>) -> bool {
    option.len() > 0 && forall|j: int|
        0 <= j < option.len() ==> matched.contains(#[trigger] option[j])
}

/// Whether a combination holds exactly what an option names.
pub open spec fn is_made_of(config: Config, option: Seq<Text>) -> bool {
    forall|id: Text| #[trigger]
        config.contains(id) <==> exists|j: int| 0 <= j < option.len() && #[trigger] option[j] == id
}

proof fn lemma_feasible(option: Seq<Text>, matched: Set<Text>)
    ensures
        feasible(matched, option) <==> can_be_offered(option, matched),
        is_made_of(option.to_set(), option),
{
    assert forall|id: Text| #[trigger] option.to_set().contains(id) <==> exists|j: int|
        0 <= j < option.len() && #[trigger] option[j] == id by {
        assert(option.to_set().contains(id) <==> option.contains(id));
    }
    if feasible(matched, option) {
        assert forall|j: int| 0 <= j < option.len() implies matched.contains(
            #[trigger] option[j],
        ) by {
            assert(option.to_set().contains(option[j]));
        }
    }
    if can_be_offered(option, matched) {
        assert forall|id: Text| option.to_set().contains(id) implies matched.contains(id) by {
            let j = choose|j: int| 0 <= j < option.len() && option[j] == id;
            assert(matched.contains(option[j]));
        }
    }
}

/// A credential set offers the options that can be offered, in order: all of them, or the first
/// where only that is asked for. What it offers is made of what the option names.
pub proof fn lemma_options_that_are_offered(
    set: CredentialSetModel,
    matched: Set<Text>,
    mode: CredentialSetOptionMode,
) -> (at: Seq<int>)
    ensures
        at.len() == offered(set, matched, mode).len(),
        ascends(at, set.options.len()),
        forall|k: int|
            0 <= k < at.len() ==> is_made_of(
                #[trigger] offered(set, matched, mode)[k],
                set.options[at[k]],
            ) && can_be_offered(set.options[at[k]], matched),
        mode is AllSatisfiable ==> forall|i: int|
            0 <= i < set.options.len() && can_be_offered(#[trigger] set.options[i], matched)
                ==> at.contains(i),
        mode is FirstSatisfiableOnly ==> at.len() <= 1 && forall|i: int|
            0 <= i < set.options.len() && can_be_offered(#[trigger] set.options[i], matched)
                ==> at.len() == 1 && at[0] <= i,
{
    let keep = |option: Seq<Text>| feasible(matched, option);
    let all = lemma_filtering_keeps_the_order(set.options, keep);
    let kept = set.options.filter(keep);
    assert forall|i: int| 0 <= i < set.options.len() implies (all.contains(i) <==> can_be_offered(
        #[trigger] set.options[i],
        matched,
    )) by {
        lemma_feasible(set.options[i], matched);
        assert(all.contains(i) <==> keep(set.options[i]));
    }
    let at = if mode is FirstSatisfiableOnly && all.len() > 0 {
        all.take(1)
    } else {
        all
    };
    assert forall|k: int| 0 <= k < at.len() implies is_made_of(
        #[trigger] offered(set, matched, mode)[k],
        set.options[at[k]],
    ) && can_be_offered(set.options[at[k]], matched) by {
        assert(kept[k] == set.options[all[k]]);
        assert(at[k] == all[k]);
        assert(all.contains(all[k]));
        lemma_feasible(set.options[at[k]], matched);
    }
    if mode is FirstSatisfiableOnly {
        assert forall|i: int|
            0 <= i < set.options.len() && can_be_offered(
                #[trigger] set.options[i],
                matched,
            ) implies at.len() == 1 && at[0] <= i by {
            assert(all.contains(i));
            let k = choose|k: int| 0 <= k < all.len() && all[k] == i;
            assert(k == 0 || all[0] < all[k]);
        }
    }
    at
}

/// Combinations are joined with options in all ways. The options of the first combination come
/// first.
pub proof fn lemma_every_way_to_join(bases: Seq<Config>, options: Seq<Config>, b: int, o: int)
    requires
        0 <= b < bases.len(),
        0 <= o < options.len(),
    ensures
        joined(bases, options).len() == bases.len() * options.len(),
        0 <= b * options.len() + o < joined(bases, options).len(),
        forall|id: Text| #[trigger]
            joined(bases, options)[b * options.len() + o].contains(id) <==> bases[b].contains(id)
                || options[o].contains(id),
{
    lemma_joined(bases, options, bases.len() as int);
    lemma_take_all(bases);
    let n = options.len() as int;
    let m = bases.len() as int;
    assert(b * n + o < m * n) by (nonlinear_arith)
        requires
            0 <= b < m,
            0 <= o < n,
    ;
    assert(0 <= b * n) by (nonlinear_arith)
        requires
            0 <= b,
            0 <= n,
    ;
    assert(joined(bases, options)[b * n + o] == bases[b].union(options[o]));
}

proof fn lemma_joined(bases: Seq<Config>, options: Seq<Config>, n: int)
    requires
        0 <= n <= bases.len(),
    ensures
        joined(bases.take(n), options).len() == n * options.len(),
        forall|b: int, o: int|
            #![trigger bases[b], options[o]]
            0 <= b < n && 0 <= o < options.len() ==> joined(bases.take(n), options)[b
                * options.len() + o] == bases[b].union(options[o]),
    decreases n,
{
    let image = |base: Config| options.map_values(|option: Config| base.union(option));
    let m = options.len() as int;
    if n == 0 {
        lemma_flat_map_empty(bases.take(0), image);
    } else {
        lemma_joined(bases, options, n - 1);
        lemma_flat_map_step(bases, image, n - 1);
        let before = joined(bases.take(n - 1), options);
        let all = joined(bases.take(n), options);
        assert(all == before + image(bases[n - 1]));
        assert((n - 1) * m + m == n * m) by (nonlinear_arith);
        assert forall|b: int, o: int|
            #![trigger bases[b], options[o]]
            0 <= b < n && 0 <= o < options.len() implies all[b * m + o] == bases[b].union(
            options[o],
        ) by {
            if b < n - 1 {
                assert(0 <= b * m && b * m + o < (n - 1) * m) by (nonlinear_arith)
                    requires
                        0 <= b < n - 1,
                        0 <= o < m,
                ;
            } else {
                assert(all[(n - 1) * m + o] == image(bases[n - 1])[o]);
            }
        }
    }
}

/// Nothing is required of no credential set. With another required credential set, every
/// combination is joined with every option that it offers.
pub proof fn lemma_required_sets_are_joined(lists: Seq<Seq<Config>>, last: Seq<Config>)
    ensures
        cartesian(Seq::empty()).len() == 1,
        forall|id: Text| !#[trigger] cartesian(Seq::empty())[0].contains(id),
        cartesian(lists.push(last)) == joined(cartesian(lists), last),
{
    assert(lists.push(last).drop_last() =~= lists);
}

/// Whether an option adds something to a combination.
pub open spec fn adds_to(option: Config, config: Config) -> bool {
    exists|id: Text| #[trigger] option.contains(id) && !config.contains(id)
}

proof fn lemma_extended(config: Config, options: Seq<Config>) -> (at: Seq<int>)
    ensures
        at.len() == extensions(config, options).len(),
        ascends(at, options.len()),
        forall|i: int|
            0 <= i < options.len() ==> (#[trigger] at.contains(i) <==> adds_to(options[i], config)),
        forall|k: int|
            0 <= k < at.len() ==> #[trigger] extensions(config, options)[k] == config.union(
                options[at[k]],
            ),
{
    let grow = |base: Config| options.map_values(|option: Config| base.union(option));
    let differs = |base: Config| |combined: Config| combined != base;
    let grown = grow(config);
    let keep = differs(config);
    assert(extensions(config, options) =~= grown.filter(keep)) by {
        assert(keep =~= (|combined: Config| combined != config));
        assert(grown =~= options.map_values(|option: Config| config.union(option)));
    }
    let at = lemma_filtering_keeps_the_order(grown, keep);
    assert forall|i: int| 0 <= i < options.len() implies (#[trigger] at.contains(i) <==> adds_to(
        options[i],
        config,
    )) by {
        assert(at.contains(i) <==> keep(grown[i]));
        if adds_to(options[i], config) {
            let id = choose|id: Text| #[trigger] options[i].contains(id) && !config.contains(id);
            assert(grown[i].contains(id));
        } else {
            assert(grown[i] =~= config) by {
                assert forall|id: Text| grown[i].contains(id) <==> config.contains(id) by {
                    if options[i].contains(id) {
                        assert(config.contains(id));
                    }
                }
            }
        }
    }
    assert forall|k: int| 0 <= k < at.len() implies #[trigger] extensions(config, options)[k]
        == config.union(options[at[k]]) by {
        assert(grown.filter(keep)[k] == grown[at[k]]);
    }
    at
}

/// What comes of one more combination under an optional credential set stands behind what comes of
/// the others. It is the combination without the set, and the combination joined with every option
/// that adds something, in order. The combination without the set comes last where the set is
/// preferred present, and first where it is preferred absent. Where the set is always present, it
/// is the combination joined with every option.
pub proof fn lemma_optional_sets_are_joined(
    configs: Seq<Config>,
    config: Config,
    options: Seq<Config>,
    mode: OptionalCredentialSetsMode,
) -> (at: Seq<int>)
    ensures
        after_optional(Seq::empty(), options, mode).len() == 0,
        ascends(at, options.len()),
        forall|i: int|
            0 <= i < options.len() ==> (#[trigger] at.contains(i) <==> adds_to(options[i], config)),
        ({
            let before = after_optional(configs, options, mode);
            let all = after_optional(configs.push(config), options, mode);
            let n = before.len() as int;
            &&& all.len() >= n
            &&& all.take(n) == before
            &&& match mode {
                OptionalCredentialSetsMode::PreferPresent => {
                    &&& all.len() == n + at.len() + 1
                    &&& forall|k: int|
                        0 <= k < at.len() ==> all[n + k] == config.union(options[#[trigger] at[k]])
                    &&& all[n + at.len()] == config
                },
                OptionalCredentialSetsMode::PreferAbsent => {
                    &&& all.len() == n + at.len() + 1
                    &&& all[n] == config
                    &&& forall|k: int|
                        0 <= k < at.len() ==> all[n + 1 + k] == config.union(
                            options[#[trigger] at[k]],
                        )
                },
                OptionalCredentialSetsMode::AlwaysPresentIfSatisfiable => {
                    &&& all.len() == n + options.len()
                    &&& forall|k: int|
                        0 <= k < options.len() ==> all[n + k] == config.union(
                            #[trigger] options[k],
                        )
                },
            }
        }),
{
    let at = lemma_extended(config, options);
    let more = configs.push(config);
    let n = configs.len() as int;
    assert(more.take(n) =~= configs);
    lemma_take_all(more);
    let added = extensions(config, options);
    let none = Seq::<Config>::empty();
    match mode {
        OptionalCredentialSetsMode::PreferPresent => {
            let image = |config: Config| extensions(config, options).push(config);
            lemma_flat_map_empty(none, image);
            lemma_flat_map_step(more, image, n);
            let before = prefer_present(configs, options);
            let all = prefer_present(more, options);
            assert(all == before + added.push(config));
            assert(all.take(before.len() as int) =~= before);
            assert forall|k: int| 0 <= k < at.len() implies all[before.len() + k] == config.union(
                options[#[trigger] at[k]],
            ) by {
                assert(added[k] == config.union(options[at[k]]));
            }
        },
        OptionalCredentialSetsMode::PreferAbsent => {
            let image = |config: Config| seq![config] + extensions(config, options);
            lemma_flat_map_empty(none, image);
            lemma_flat_map_step(more, image, n);
            let before = prefer_absent(configs, options);
            let all = prefer_absent(more, options);
            assert(all == before + (seq![config] + added));
            assert(all.take(before.len() as int) =~= before);
            assert forall|k: int| 0 <= k < at.len() implies all[before.len() + 1 + k]
                == config.union(options[#[trigger] at[k]]) by {
                assert(added[k] == config.union(options[at[k]]));
            }
        },
        OptionalCredentialSetsMode::AlwaysPresentIfSatisfiable => {
            let image = |base: Config| options.map_values(|option: Config| base.union(option));
            lemma_flat_map_empty(none, image);
            lemma_flat_map_step(more, image, n);
            let before = joined(configs, options);
            let all = joined(more, options);
            assert(all == before + image(config));
            assert(all.take(before.len() as int) =~= before);
        },
    }
    at
}

/// Optional credential sets are taken one after the other. One that offers nothing changes nothing.
pub proof fn lemma_optional_sets_come_in_order(
    configs: Seq<Config>,
    sets: Seq<CredentialSetModel>,
    set: CredentialSetModel,
    matched: Set<Text>,
    options: PlanOptionsModel,
)
    ensures
        with_optional(configs, Seq::empty(), matched, options) == configs,
        ({
            let before = with_optional(configs, sets, matched, options);
            let all = with_optional(configs, sets.push(set), matched, options);
            if forall|i: int|
                0 <= i < set.options.len() ==> !can_be_offered(
                    #[trigger] set.options[i],
                    matched,
                ) {
                all == before
            } else {
                all == after_optional(
                    before,
                    offered(set, matched, options.credential_set_option_mode),
                    options.optional_credential_sets_mode,
                )
            }
        }),
{
    assert(sets.push(set).drop_last() =~= sets);
    let mode = options.credential_set_option_mode;
    let at = lemma_options_that_are_offered(set, matched, mode);
    if offered(set, matched, mode).len() > 0 {
        assert(is_made_of(offered(set, matched, mode)[0], set.options[at[0]]));
        assert(can_be_offered(set.options[at[0]], matched));
    }
    if exists|i: int|
        0 <= i < set.options.len() && can_be_offered(#[trigger] set.options[i], matched) {
        let i = choose|i: int|
            0 <= i < set.options.len() && can_be_offered(#[trigger] set.options[i], matched);
        if mode is AllSatisfiable {
            assert(at.contains(i));
        }
        assert(at.len() > 0);
    }
}

/// Without credential sets, every credential query has to be matched, and there has to be one: the
/// one combination then holds them all. With credential sets, the query is unsatisfied exactly
/// where a required set has no option that can be offered. No combination comes twice.
pub proof fn lemma_queries_that_are_unsatisfied(
    credentials: Seq<CredentialQueryModel>,
    credential_sets: Option<Seq<CredentialSetModel>>,
    matched: Set<Text>,
    options: PlanOptionsModel,
)
    ensures
        ({
            let found = configs_of(query_table(credentials), credential_sets, matched, options);
            let unsatisfied = found == Err::<Seq<Config>, PlanErrorModel>(
                PlanErrorModel::Unsatisfied,
            );
            match credential_sets {
                None => if (exists|i: int|
                    0 <= i < credentials.len() && members(#[trigger] credentials[i]) is Some)
                    && forall|i: int|
                    0 <= i < credentials.len() && members(#[trigger] credentials[i]) is Some
                        ==> matched.contains(members(credentials[i])->0.id) {
                    found matches Ok(configs) && configs.len() == 1 && forall|i: int|
                        0 <= i < credentials.len() && members(#[trigger] credentials[i]) is Some
                            ==> configs[0].contains(members(credentials[i])->0.id)
                } else {
                    unsatisfied
                },
                Some(sets) => if exists|k: int|
                    0 <= k < sets.len() && (#[trigger] sets[k]).required && cannot_be_met(
                        sets[k],
                        matched,
                    ) {
                    unsatisfied
                } else {
                    found matches Ok(configs) && configs.no_duplicates()
                },
            }
        }),
{
    match credential_sets {
        None => {
            lemma_listed_ids(credentials);
        },
        Some(sets) => {
            let mode = options.credential_set_option_mode;
            let needed = |set: CredentialSetModel| set.required;
            let at = lemma_filtering_keeps_the_order(sets, needed);
            let required = sets.filter(needed);
            let lists = required_lists(sets, matched, mode);
            assert forall|k: int| 0 <= k < sets.len() implies ((#[trigger] offered(
                sets[k],
                matched,
                mode,
            )).len() == 0 <==> cannot_be_met(sets[k], matched)) by {
                lemma_met(sets[k], matched, mode);
            }
            if some_empty(lists) {
                let i = choose|i: int| 0 <= i < lists.len() && (#[trigger] lists[i]).len() == 0;
                let k = at[i];
                assert(required[i] == sets[k]);
                assert(at.contains(k));
                assert(needed(sets[k]));
                assert(offered(sets[k], matched, mode).len() == 0);
                assert(sets[k].required && cannot_be_met(sets[k], matched));
            }
            if exists|k: int|
                0 <= k < sets.len() && (#[trigger] sets[k]).required && cannot_be_met(
                    sets[k],
                    matched,
                ) {
                let k = choose|k: int|
                    0 <= k < sets.len() && (#[trigger] sets[k]).required && cannot_be_met(
                        sets[k],
                        matched,
                    );
                assert(needed(sets[k]));
                assert(at.contains(k));
                let i = choose|i: int| 0 <= i < at.len() && at[i] == k;
                assert(required[i] == sets[k]);
                assert(offered(sets[k], matched, mode).len() == 0);
                assert(lists[i].len() == 0);
            }
            let optional = sets.filter(|set: CredentialSetModel| !set.required);
            lemma_distinct(with_optional(cartesian(lists), optional, matched, options));
        },
    }
}

/// Whether a credential set has no option that can be offered.
pub open spec fn cannot_be_met(set: CredentialSetModel, matched: Set<Text>) -> bool {
    forall|i: int|
        0 <= i < set.options.len() ==> !can_be_offered(#[trigger] set.options[i], matched)
}

proof fn lemma_met(set: CredentialSetModel, matched: Set<Text>, mode: CredentialSetOptionMode)
    ensures
        offered(set, matched, mode).len() == 0 <==> cannot_be_met(set, matched),
{
    let at = lemma_options_that_are_offered(set, matched, mode);
    if offered(set, matched, mode).len() > 0 {
        assert(is_made_of(offered(set, matched, mode)[0], set.options[at[0]]));
        assert(can_be_offered(set.options[at[0]], matched));
    }
    if !cannot_be_met(set, matched) {
        let i = choose|i: int|
            0 <= i < set.options.len() && can_be_offered(#[trigger] set.options[i], matched);
        if mode is AllSatisfiable {
            assert(at.contains(i));
        }
    }
}

proof fn lemma_listed_ids(credentials: Seq<CredentialQueryModel>)
    ensures
        ({
            let order = query_table(credentials).order;
            &&& order.len() > 0 <==> exists|i: int|
                0 <= i < credentials.len() && members(#[trigger] credentials[i]) is Some
            &&& forall|i: int|
                0 <= i < credentials.len() && members(#[trigger] credentials[i]) is Some
                    ==> order.to_set().contains(members(credentials[i])->0.id)
            &&& forall|id: Text| #[trigger]
                order.to_set().contains(id) ==> exists|i: int| #[trigger]
                    is_first_with_id(credentials, i, id)
        }),
{
    let table = query_table(credentials);
    lemma_query_table(credentials);
    assert forall|i: int|
        0 <= i < credentials.len() && members(#[trigger] credentials[i]) is Some implies
        table.order.to_set().contains(members(credentials[i])->0.id) by {
        let id = members(credentials[i])->0.id;
        lemma_ids_stand_for_the_first_query(credentials, id);
        assert(table.queries.contains_key(id));
        assert(table.order.contains(id));
    }
    assert forall|id: Text| #[trigger] table.order.to_set().contains(id) implies exists|i: int|
     #[trigger] is_first_with_id(credentials, i, id) by {
        lemma_ids_stand_for_the_first_query(credentials, id);
        assert(table.order.contains(id));
    }
    if table.order.len() > 0 {
        assert(table.order.contains(table.order[0]));
        assert(table.order.to_set().contains(table.order[0]));
        let i = choose|i: int| #[trigger] is_first_with_id(credentials, i, table.order[0]);
        assert(members(credentials[i]) is Some);
    }
    if exists|i: int| 0 <= i < credentials.len() && members(#[trigger] credentials[i]) is Some {
        let i = choose|i: int|
            0 <= i < credentials.len() && members(#[trigger] credentials[i]) is Some;
        assert(table.order.to_set().contains(members(credentials[i])->0.id));
        let k = choose|k: int|
            0 <= k < table.order.len() && table.order[k] == members(credentials[i])->0.id;
        assert(table.order.len() > 0);
    }
}

/// The combinations come of the required credential sets and then of the optional ones, each in the
/// order in which they are written. Of combinations that are equal the first stays.
pub proof fn lemma_sets_are_told_apart(
    table: QueryTable,
    sets: Seq<CredentialSetModel>,
    matched: Set<Text>,
    options: PlanOptionsModel,
) -> (found: (Seq<Seq<Config>>, Seq<CredentialSetModel>, Seq<int>, Seq<int>, Seq<int>))
    requires
        configs_of(table, Some(sets), matched, options) is Ok,
    ensures
        ({
            let (lists, optional, required_at, optional_at, kept_at) = found;
            let all = with_optional(cartesian(lists), optional, matched, options);
            &&& drawn_at(configs_of(table, Some(sets), matched, options)->Ok_0, all, kept_at)
            &&& forall|i: int|
                0 <= i < all.len() ==> (#[trigger] kept_at.contains(i) <==> forall|j: int|
                    0 <= j < i ==> #[trigger] all[j] != all[i])
            &&& required_at.len() == lists.len()
            &&& ascends(required_at, sets.len())
            &&& forall|k: int|
                0 <= k < sets.len() ==> (#[trigger] required_at.contains(k) <==> sets[k].required)
            &&& forall|i: int|
                0 <= i < lists.len() ==> #[trigger] lists[i] == offered(
                    sets[required_at[i]],
                    matched,
                    options.credential_set_option_mode,
                )
            &&& drawn_at(optional, sets, optional_at)
            &&& forall|k: int|
                0 <= k < sets.len() ==> (#[trigger] optional_at.contains(k) <==> !sets[k].required)
        }),
{
    let mode = options.credential_set_option_mode;
    let needed = |set: CredentialSetModel| set.required;
    let spare = |set: CredentialSetModel| !set.required;
    let required_at = lemma_filtering_keeps_the_order(sets, needed);
    let optional_at = lemma_filtering_keeps_the_order(sets, spare);
    let lists = required_lists(sets, matched, mode);
    let optional = sets.filter(spare);
    let all = with_optional(cartesian(lists), optional, matched, options);
    let kept_at = lemma_the_first_occurrence_stays(all);
    assert forall|i: int| 0 <= i < lists.len() implies #[trigger] lists[i] == offered(
        sets[required_at[i]],
        matched,
        mode,
    ) by {
        assert(sets.filter(needed)[i] == sets[required_at[i]]);
    }
    (lists, optional, required_at, optional_at, kept_at)
}

/// Whether a combination holds all that an option of a credential set names, and the option names
/// this id.
pub open spec fn is_option_with(
    sets: Seq<CredentialSetModel>,
    config: Config,
    k: int,
    o: int,
    id: Text,
) -> bool {
    &&& 0 <= k < sets.len()
    &&& 0 <= o < sets[k].options.len()
    &&& exists|j: int| 0 <= j < sets[k].options[o].len() && #[trigger] sets[k].options[o][j] == id
    &&& forall|j: int|
        0 <= j < sets[k].options[o].len() ==> config.contains(#[trigger] sets[k].options[o][j])
}

/// Whether everything in a combination is there for an option that it holds whole.
pub open spec fn is_called_for(sets: Seq<CredentialSetModel>, config: Config) -> bool {
    forall|id: Text| #[trigger]
        config.contains(id) ==> exists|k: int, o: int| #[trigger]
            is_option_with(sets, config, k, o, id)
}

/// Joining an option of a credential set.
proof fn lemma_called_for(
    sets: Seq<CredentialSetModel>,
    base: Config,
    added: Config,
    k: int,
    o: int,
)
    requires
        is_called_for(sets, base),
        0 <= k < sets.len(),
        0 <= o < sets[k].options.len(),
        is_made_of(added, sets[k].options[o]),
    ensures
        is_called_for(sets, base.union(added)),
{
    let all = base.union(added);
    let option = sets[k].options[o];
    assert forall|id: Text| #[trigger] all.contains(id) implies exists|k: int, o: int| #[trigger]
        is_option_with(sets, all, k, o, id) by {
        if added.contains(id) {
            assert forall|j: int| 0 <= j < option.len() implies all.contains(
                #[trigger] sets[k].options[o][j],
            ) by {
                assert(added.contains(option[j]));
            }
            assert(is_option_with(sets, all, k, o, id));
        } else {
            assert(base.contains(id));
            let (m, p) = choose|m: int, p: int| #[trigger] is_option_with(sets, base, m, p, id);
            assert(is_option_with(sets, all, m, p, id));
        }
    }
}

/// Whether a combination is made of an option of a credential set.
pub open spec fn is_an_option(set: CredentialSetModel, config: Config) -> bool {
    exists|o: int| 0 <= o < set.options.len() && is_made_of(config, #[trigger] set.options[o])
}

/// Whether a list holds options of the credential set at this place.
pub open spec fn holds_options(sets: Seq<CredentialSetModel>, list: Seq<Config>, k: int) -> bool {
    &&& 0 <= k < sets.len()
    &&& forall|n: int| 0 <= n < list.len() ==> is_an_option(sets[k], #[trigger] list[n])
}

/// Whether a list holds options of one of the credential sets.
pub open spec fn are_options(sets: Seq<CredentialSetModel>, list: Seq<Config>) -> bool {
    exists|k: int| holds_options(sets, list, k)
}

proof fn lemma_offered_hold_options(
    sets: Seq<CredentialSetModel>,
    k: int,
    matched: Set<Text>,
    mode: CredentialSetOptionMode,
)
    requires
        0 <= k < sets.len(),
    ensures
        holds_options(sets, offered(sets[k], matched, mode), k),
{
    let list = offered(sets[k], matched, mode);
    let at = lemma_options_that_are_offered(sets[k], matched, mode);
    assert forall|n: int| 0 <= n < list.len() implies is_an_option(
        sets[k],
        #[trigger] list[n],
    ) by {
        assert(is_made_of(list[n], sets[k].options[at[n]]));
    }
}

proof fn lemma_joined_is_called_for(
    sets: Seq<CredentialSetModel>,
    configs: Seq<Config>,
    list: Seq<Config>,
    k: int,
    config: Config,
)
    requires
        holds_options(sets, list, k),
        forall|base: Config| #[trigger] configs.contains(base) ==> is_called_for(sets, base),
        joined(configs, list).contains(config),
    ensures
        is_called_for(sets, config),
{
    let image = |base: Config| list.map_values(|option: Config| base.union(option));
    lemma_flat_map_contains(configs, image, config);
    let b = choose|b: int| 0 <= b < configs.len() && image(#[trigger] configs[b]).contains(config);
    let ways = image(configs[b]);
    let n = choose|n: int| 0 <= n < ways.len() && ways[n] == config;
    assert(config == configs[b].union(list[n]));
    assert(configs.contains(configs[b]));
    assert(is_an_option(sets[k], list[n]));
    let o = choose|o: int|
        0 <= o < sets[k].options.len() && is_made_of(list[n], #[trigger] sets[k].options[o]);
    lemma_called_for(sets, configs[b], list[n], k, o);
}

proof fn lemma_optional_is_called_for(
    sets: Seq<CredentialSetModel>,
    configs: Seq<Config>,
    list: Seq<Config>,
    k: int,
    mode: OptionalCredentialSetsMode,
    config: Config,
)
    requires
        holds_options(sets, list, k),
        forall|base: Config| #[trigger] configs.contains(base) ==> is_called_for(sets, base),
        after_optional(configs, list, mode).contains(config),
    ensures
        is_called_for(sets, config),
{
    if mode is AlwaysPresentIfSatisfiable {
        lemma_joined_is_called_for(sets, configs, list, k, config);
    } else {
        let present = |config: Config| extensions(config, list).push(config);
        let absent = |config: Config| seq![config] + extensions(config, list);
        let image = if mode is PreferPresent {
            present
        } else {
            absent
        };
        lemma_flat_map_contains(configs, image, config);
        let b = choose|b: int|
            0 <= b < configs.len() && image(#[trigger] configs[b]).contains(config);
        let base = configs[b];
        assert(configs.contains(base));
        let added = extensions(base, list);
        let at = lemma_extended(base, list);
        lemma_push_contains(added, base, config);
        lemma_add_contains(seq![base], added, config);
        assert(config == base || added.contains(config));
        if config != base {
            let n = choose|n: int| 0 <= n < added.len() && added[n] == config;
            assert(config == base.union(list[at[n]]));
            assert(is_an_option(sets[k], list[at[n]]));
            let o = choose|o: int|
                0 <= o < sets[k].options.len() && is_made_of(
                    list[at[n]],
                    #[trigger] sets[k].options[o],
                );
            lemma_called_for(sets, base, list[at[n]], k, o);
        }
    }
}

proof fn lemma_cartesian_is_called_for(
    sets: Seq<CredentialSetModel>,
    lists: Seq<Seq<Config>>,
    config: Config,
)
    requires
        forall|i: int|
            0 <= i < lists.len() ==> are_options(sets, #[trigger] lists[i]),
        cartesian(lists).contains(config),
    ensures
        is_called_for(sets, config),
    decreases lists.len(),
{
    if lists.len() > 0 {
        let rest = lists.drop_last();
        let n = lists.len() - 1;
        assert forall|i: int| 0 <= i < rest.len() implies are_options(
            sets,
            #[trigger] rest[i],
        ) by {
            assert(are_options(sets, lists[i]));
        }
        assert forall|base: Config| #[trigger]
            cartesian(rest).contains(base) implies is_called_for(sets, base) by {
            lemma_cartesian_is_called_for(sets, rest, base);
        }
        assert(are_options(sets, lists[n]));
        let k = choose|k: int| holds_options(sets, lists[n], k);
        lemma_joined_is_called_for(sets, cartesian(rest), lists[n], k, config);
    }
}

proof fn lemma_with_optional_is_called_for(
    sets: Seq<CredentialSetModel>,
    configs: Seq<Config>,
    optional: Seq<CredentialSetModel>,
    matched: Set<Text>,
    options: PlanOptionsModel,
    config: Config,
)
    requires
        forall|i: int| 0 <= i < optional.len() ==> sets.contains(#[trigger] optional[i]),
        forall|base: Config| #[trigger] configs.contains(base) ==> is_called_for(sets, base),
        with_optional(configs, optional, matched, options).contains(config),
    ensures
        is_called_for(sets, config),
    decreases optional.len(),
{
    if optional.len() > 0 {
        let rest = optional.drop_last();
        let n = optional.len() - 1;
        assert forall|i: int| 0 <= i < rest.len() implies sets.contains(#[trigger] rest[i]) by {
            assert(rest[i] == optional[i]);
        }
        let earlier = with_optional(configs, rest, matched, options);
        assert forall|base: Config| #[trigger] earlier.contains(base) implies is_called_for(
            sets,
            base,
        ) by {
            lemma_with_optional_is_called_for(sets, configs, rest, matched, options, base);
        }
        let mode = options.credential_set_option_mode;
        let list = offered(optional[n], matched, mode);
        if list.len() > 0 {
            let k = choose|k: int| 0 <= k < sets.len() && sets[k] == optional[n];
            lemma_offered_hold_options(sets, k, matched, mode);
            lemma_optional_is_called_for(
                sets,
                earlier,
                list,
                k,
                options.optional_credential_sets_mode,
                config,
            );
        }
    }
}

/// Nothing is in a combination that no option of a credential set calls for: every id is one of an
/// option that the combination holds whole.
pub proof fn lemma_nothing_uncalled_for_is_combined(
    table: QueryTable,
    sets: Seq<CredentialSetModel>,
    matched: Set<Text>,
    options: PlanOptionsModel,
    config: Config,
)
    requires
        configs_of(table, Some(sets), matched, options) matches Ok(configs) && configs.contains(
            config,
        ),
    ensures
        is_called_for(sets, config),
{
    let mode = options.credential_set_option_mode;
    let needed = |set: CredentialSetModel| set.required;
    let spare = |set: CredentialSetModel| !set.required;
    let lists = required_lists(sets, matched, mode);
    let optional = sets.filter(spare);
    lemma_filter_contains(sets, needed);
    lemma_filter_contains(sets, spare);
    assert forall|i: int| 0 <= i < lists.len() implies are_options(sets, #[trigger] lists[i]) by {
        let set = sets.filter(needed)[i];
        assert(sets.filter(needed).contains(set));
        let k = choose|k: int| 0 <= k < sets.len() && sets[k] == set;
        lemma_offered_hold_options(sets, k, matched, mode);
        assert(holds_options(sets, lists[i], k));
    }
    assert forall|base: Config| #[trigger] cartesian(lists).contains(base) implies is_called_for(
        sets,
        base,
    ) by {
        lemma_cartesian_is_called_for(sets, lists, base);
    }
    assert forall|i: int| 0 <= i < optional.len() implies sets.contains(#[trigger] optional[i]) by {
        assert(optional.contains(optional[i]));
    }
    let all = with_optional(cartesian(lists), optional, matched, options);
    lemma_distinct(all);
    assert(all.contains(config));
    lemma_with_optional_is_called_for(sets, cartesian(lists), optional, matched, options, config);
}

/// Whether all that an option names is answered, and it names something.
pub open spec fn is_answered<R>(selections: Seq<SelectionModel<R>>, option: Seq<Text>) -> bool {
    option.len() > 0 && forall|j: int|
        0 <= j < option.len() ==> answered(selections, #[trigger] option[j])
}

/// Whatever is chosen in the slots of a presentation set answers what is asked for. Without
/// credential sets, every credential query is answered. With them, every required set has an option
/// that is answered whole, and nothing is answered that is not in an option that is answered whole.
pub proof fn lemma_choices_answer_what_is_asked_for<S: CredentialStore>(
    store: S,
    query: DcqlQueryModel,
    data: Option<Seq<TransactionDataModel>>,
    options: PlanOptionsModel,
    s: int,
    choice: Seq<int>,
    id: Text,
)
    requires
        plan(store, query, data, options) matches Ok(output) && 0 <= s < output.len() && is_choice(
            output[s],
            choice,
        ),
    ensures
        ({
            let selections = chosen(plan(store, query, data, options)->Ok_0[s], choice);
            match query.credential_sets {
                None => forall|i: int|
                    0 <= i < query.credentials.len() && members(
                        #[trigger] query.credentials[i],
                    ) is Some ==> answered(selections, members(query.credentials[i])->0.id),
                Some(sets) => {
                    &&& forall|k: int|
                        0 <= k < sets.len() && (#[trigger] sets[k]).required ==> exists|o: int|
                            0 <= o < sets[k].options.len() && is_answered(
                                selections,
                                #[trigger] sets[k].options[o],
                            )
                    &&& answered(selections, id) ==> exists|k: int, o: int, j: int|
                        0 <= k < sets.len() && 0 <= o < sets[k].options.len() && 0 <= j
                            < sets[k].options[o].len() && #[trigger] sets[k].options[o][j] == id
                            && is_answered(selections, sets[k].options[o])
                },
            }
        }),
{
    let table = query_table(query.credentials);
    let matched = matched_ids(store, table);
    let selections = chosen(plan(store, query, data, options)->Ok_0[s], choice);
    let got = answered_ids(selections);
    lemma_choices_answer_the_query(store, query, data, options, s, choice);
    match query.credential_sets {
        None => {
            lemma_listed_ids(query.credentials);
            assert forall|i: int|
                0 <= i < query.credentials.len() && members(
                    #[trigger] query.credentials[i],
                ) is Some implies answered(selections, members(query.credentials[i])->0.id) by {
                assert(got.contains(members(query.credentials[i])->0.id));
            }
        },
        Some(sets) => {
            assert forall|k: int| 0 <= k < sets.len() && (#[trigger] sets[k]).required implies
            exists|o: int|
                0 <= o < sets[k].options.len() && is_answered(
                    selections,
                    #[trigger] sets[k].options[o],
                ) by {
                assert(answers(got, sets[k], matched));
                let o = choose|o: int|
                    0 <= o < sets[k].options.len() && feasible(
                        matched,
                        #[trigger] sets[k].options[o],
                    ) && sets[k].options[o].to_set().subset_of(got);
                let option = sets[k].options[o];
                assert forall|j: int| 0 <= j < option.len() implies answered(
                    selections,
                    #[trigger] option[j],
                ) by {
                    assert(option.contains(option[j]));
                    assert(option.to_set().contains(option[j]));
                    assert(got.contains(option[j]));
                }
                assert(is_answered(selections, sets[k].options[o]));
            }
            lemma_nothing_uncalled_for_is_combined(table, sets, matched, options, got);
            if answered(selections, id) {
                assert(got.contains(id));
                let (k, o) = choose|k: int, o: int| #[trigger] is_option_with(sets, got, k, o, id);
                let j = choose|j: int|
                    0 <= j < sets[k].options[o].len() && #[trigger] sets[k].options[o][j] == id;
                assert forall|n: int| 0 <= n < sets[k].options[o].len() implies answered(
                    selections,
                    #[trigger] sets[k].options[o][n],
                ) by {
                    assert(got.contains(sets[k].options[o][n]));
                }
                assert(is_answered(selections, sets[k].options[o]));
            }
        },
    }
}

} // verus!
