//! Which combinations of credential query ids answer a query.

use crate::hashsets::{text_list_set_contents, TextListSet};
use crate::idset::{sorted_ids, IdSet};
use crate::json::JsonModel;
use crate::models::{CredentialSetModel, CredentialSetQuery};
use crate::planner::error::{PlanError, PlanErrorModel};
use crate::planner::index::{QueryIndex, QueryTable};
use crate::planner::matching::result_view;
use crate::planner::options::{CredentialSetOptionMode, OptionalCredentialSetsMode};
use crate::planner::options::{PlanOptions, PlanOptionsModel};
use crate::seqs::{distinct, lemma_add_contains, lemma_distinct, lemma_distinct_first};
use crate::seqs::{lemma_distinct_step, lemma_flat_map_first};
use crate::seqs::{lemma_filter_contains, lemma_filter_step, lemma_flat_map_contains};
use crate::seqs::{lemma_flat_map_empty, lemma_flat_map_step, lemma_push_contains, lemma_take_all};
use crate::text::Text;
use vstd::prelude::*;

verus! {

/// A combination of credential query ids that are presented together.
pub type Config = Set<Text>;

/// Whether an option of a credential set can be offered: it names something, and every id in it
/// is matched by a credential.
pub open spec fn feasible(matched: Set<Text>, option: Seq<Text>) -> bool {
    option.len() > 0 && option.to_set().subset_of(matched)
}

/// The combinations that a credential set offers, in declared order.
pub open spec fn offered(
    set: CredentialSetModel,
    matched: Set<Text>,
    mode: CredentialSetOptionMode,
) -> Seq<Config> {
    let all = set.options.filter(|option: Seq<Text>| feasible(matched, option)).map_values(
        |option: Seq<Text>| option.to_set(),
    );
    match mode {
        CredentialSetOptionMode::AllSatisfiable => all,
        CredentialSetOptionMode::FirstSatisfiableOnly => if all.len() == 0 {
            all
        } else {
            all.take(1)
        },
    }
}

/// Every base joined with every option, in the order of the bases.
pub open spec fn joined(bases: Seq<Config>, options: Seq<Config>) -> Seq<Config> {
    bases.flat_map(|base: Config| options.map_values(|option: Config| base.union(option)))
}

/// One option of every list, joined, in all ways.
pub open spec fn cartesian(lists: Seq<Seq<Config>>) -> Seq<Config>
    decreases lists.len(),
{
    if lists.len() == 0 {
        seq![Set::empty()]
    } else {
        joined(cartesian(lists.drop_last()), lists.last())
    }
}

/// What the options add to a combination, leaving out those that add nothing.
pub open spec fn extensions(config: Config, options: Seq<Config>) -> Seq<Config> {
    options.map_values(|option: Config| config.union(option)).filter(
        |combined: Config| combined != config,
    )
}

/// The combinations after an optional credential set, those with it first.
pub open spec fn prefer_present(configs: Seq<Config>, options: Seq<Config>) -> Seq<Config> {
    configs.flat_map(|config: Config| extensions(config, options).push(config))
}

/// The combinations after an optional credential set, those without it first.
pub open spec fn prefer_absent(configs: Seq<Config>, options: Seq<Config>) -> Seq<Config> {
    configs.flat_map(|config: Config| seq![config] + extensions(config, options))
}

/// The combinations after an optional credential set that offers something.
pub open spec fn after_optional(
    configs: Seq<Config>,
    options: Seq<Config>,
    mode: OptionalCredentialSetsMode,
) -> Seq<Config> {
    match mode {
        OptionalCredentialSetsMode::PreferPresent => prefer_present(configs, options),
        OptionalCredentialSetsMode::PreferAbsent => prefer_absent(configs, options),
        OptionalCredentialSetsMode::AlwaysPresentIfSatisfiable => joined(configs, options),
    }
}

/// The combinations after all optional credential sets. A set that offers nothing is passed over.
pub open spec fn with_optional(
    configs: Seq<Config>,
    sets: Seq<CredentialSetModel>,
    matched: Set<Text>,
    options: PlanOptionsModel,
) -> Seq<Config>
    decreases sets.len(),
{
    if sets.len() == 0 {
        configs
    } else {
        let earlier = with_optional(configs, sets.drop_last(), matched, options);
        let added = offered(sets.last(), matched, options.credential_set_option_mode);
        if added.len() == 0 {
            earlier
        } else {
            after_optional(earlier, added, options.optional_credential_sets_mode)
        }
    }
}

/// What the required credential sets offer.
pub open spec fn required_lists(
    sets: Seq<CredentialSetModel>,
    matched: Set<Text>,
    mode: CredentialSetOptionMode,
) -> Seq<Seq<Config>> {
    sets.filter(|set: CredentialSetModel| set.required).map_values(
        |set: CredentialSetModel| offered(set, matched, mode),
    )
}

/// Whether some list offers nothing.
pub open spec fn some_empty(lists: Seq<Seq<Config>>) -> bool {
    exists|i: int| 0 <= i < lists.len() && (#[trigger] lists[i]).len() == 0
}

/// The combinations that answer a query, best first and each once.
///
/// Without credential sets every credential query has to be answered.
pub open spec fn configs_of(
    table: QueryTable,
    credential_sets: Option<Seq<CredentialSetModel>>,
    matched: Set<Text>,
    options: PlanOptionsModel,
) -> Result<Seq<Config>, PlanErrorModel> {
    match credential_sets {
        None => if table.order.len() > 0 && table.order.to_set().subset_of(matched) {
            Ok(seq![table.order.to_set()])
        } else {
            Err(PlanErrorModel::Unsatisfied)
        },
        Some(sets) => {
            let lists = required_lists(sets, matched, options.credential_set_option_mode);
            if some_empty(lists) {
                Err(PlanErrorModel::Unsatisfied)
            } else {
                let optional = sets.filter(|set: CredentialSetModel| !set.required);
                Ok(distinct(with_optional(cartesian(lists), optional, matched, options)))
            }
        },
    }
}

/// The combinations of one credential set that can be offered.
pub fn feasible_options(
    set: &CredentialSetQuery,
    matched: &IdSet,
    mode: CredentialSetOptionMode,
) -> (options: Vec<IdSet>)
    ensures
        options.deep_view() == offered(set.deep_view(), matched@, mode),
{
    let ghost all = set.deep_view().options;
    let ghost keep = |option: Seq<Text>| feasible(matched@, option);
    let ghost collect = |option: Seq<Text>| option.to_set();
    let ghost every = all.filter(keep).map_values(collect);
    let mut out: Vec<IdSet> = Vec::new();
    assert(out.deep_view() =~= all.take(0).filter(keep).map_values(collect));
    let mut i: usize = 0;
    while i < set.options.len()
        invariant
            i <= set.options.len(),
            all == set.deep_view().options,
            keep == (|option: Seq<Text>| feasible(matched@, option)),
            collect == (|option: Seq<Text>| option.to_set()),
            every == all.filter(keep).map_values(collect),
            out.deep_view() == all.take(i as int).filter(keep).map_values(collect),
            mode == CredentialSetOptionMode::FirstSatisfiableOnly ==> out.len() == 0,
        decreases set.options.len() - i,
    {
        let option = &set.options[i];
        proof {
            assert(all[i as int] == option.deep_view());
            lemma_filter_step(all, keep, i as int);
        }
        i = i + 1;
        let config = IdSet::collect(option.as_slice());
        if option.is_empty() || !config.is_subset(matched) {
            continue;
        }
        let ghost before = out.deep_view();
        let ghost kept = all.take(i - 1).filter(keep);
        out.push(config);
        proof {
            assert(out.deep_view() =~= before.push(option.deep_view().to_set()));
            assert(kept.push(option.deep_view()).map_values(collect) =~= kept.map_values(
                collect,
            ).push(option.deep_view().to_set()));
        }
        if mode == CredentialSetOptionMode::FirstSatisfiableOnly {
            proof {
                let prefix = all.take(i as int);
                let rest = all.skip(i as int);
                assert(all =~= prefix + rest);
                Seq::filter_distributes_over_add(prefix, rest, keep);
                assert(prefix.filter(keep).len() == 1);
                assert(every[0] == prefix.filter(keep).map_values(collect)[0]);
                assert(out.deep_view() =~= every.take(1));
            }
            return out;
        }
    }
    proof {
        lemma_take_all(all);
    }
    out
}

/// Every base joined with every option.
pub fn include_optional_only(configs: &Vec<IdSet>, options: &Vec<IdSet>) -> (out: Vec<IdSet>)
    ensures
        out.deep_view() == joined(configs.deep_view(), options.deep_view()),
{
    let ghost all = configs.deep_view();
    let ghost opts = options.deep_view();
    let ghost image = |base: Config| opts.map_values(|option: Config| base.union(option));
    let mut out: Vec<IdSet> = Vec::new();
    proof {
        lemma_flat_map_empty(all.take(0), image);
        assert(out.deep_view() =~= all.take(0).flat_map(image));
    }
    let mut i: usize = 0;
    while i < configs.len()
        invariant
            i <= configs.len(),
            all == configs.deep_view(),
            opts == options.deep_view(),
            image == (|base: Config| opts.map_values(|option: Config| base.union(option))),
            out.deep_view() == all.take(i as int).flat_map(image),
        decreases configs.len() - i,
    {
        let base = &configs[i];
        let ghost join = |option: Config| base@.union(option);
        let ghost before = out.deep_view();
        proof {
            lemma_flat_map_step(all, image, i as int);
            assert(all[i as int] == base@);
            assert(before =~= before + opts.take(0).map_values(join));
        }
        let mut j: usize = 0;
        while j < options.len()
            invariant
                j <= options.len(),
                opts == options.deep_view(),
                join == (|option: Config| base@.union(option)),
                out.deep_view() == before + opts.take(j as int).map_values(join),
            decreases options.len() - j,
        {
            let combined = base.union(&options[j]);
            let ghost earlier = out.deep_view();
            out.push(combined);
            j = j + 1;
            proof {
                assert(opts[j - 1] == options@[j - 1]@);
                assert(out.deep_view() =~= earlier.push(combined@));
                assert(opts.take(j as int).map_values(join) =~= opts.take(j - 1).map_values(
                    join,
                ).push(combined@));
            }
        }
        proof {
            lemma_take_all(opts);
        }
        i = i + 1;
    }
    proof {
        lemma_take_all(all);
    }
    out
}

/// One option of every list, joined, in all ways.
pub fn cartesian_union(lists: &Vec<Vec<IdSet>>) -> (out: Vec<IdSet>)
    ensures
        out.deep_view() == cartesian(lists.deep_view()),
{
    let ghost all = lists.deep_view();
    let mut acc: Vec<IdSet> = vec![IdSet::new()];
    assert(acc.deep_view() =~= cartesian(all.take(0)));
    let mut i: usize = 0;
    while i < lists.len()
        invariant
            i <= lists.len(),
            all == lists.deep_view(),
            acc.deep_view() == cartesian(all.take(i as int)),
        decreases lists.len() - i,
    {
        acc = include_optional_only(&acc, &lists[i]);
        i = i + 1;
        proof {
            assert(all.take(i as int).drop_last() =~= all.take(i - 1));
            assert(all.take(i as int).last() == lists@[i - 1].deep_view());
        }
    }
    proof {
        lemma_take_all(all);
    }
    acc
}

/// What `options` add to `config`, leaving out those that add nothing.
fn extend_config(config: &IdSet, options: &Vec<IdSet>) -> (out: Vec<IdSet>)
    ensures
        out.deep_view() == extensions(config@, options.deep_view()),
{
    let ghost opts = options.deep_view();
    let ghost all = opts.map_values(|option: Config| config@.union(option));
    let ghost keep = |combined: Config| combined != config@;
    let mut out: Vec<IdSet> = Vec::new();
    assert(out.deep_view() =~= all.take(0).filter(keep));
    let mut i: usize = 0;
    while i < options.len()
        invariant
            i <= options.len(),
            opts == options.deep_view(),
            all == opts.map_values(|option: Config| config@.union(option)),
            keep == (|combined: Config| combined != config@),
            out.deep_view() == all.take(i as int).filter(keep),
        decreases options.len() - i,
    {
        let combined = config.union(&options[i]);
        proof {
            assert(opts[i as int] == options@[i as int]@);
            assert(all[i as int] == combined@);
            lemma_filter_step(all, keep, i as int);
        }
        if !combined.same(config) {
            let ghost before = out.deep_view();
            out.push(combined);
            assert(out.deep_view() =~= before.push(combined@));
        }
        i = i + 1;
    }
    proof {
        lemma_take_all(all);
    }
    out
}

/// The combinations after an optional credential set, those with it first.
pub fn expand_optional_prefer_present(
    configs: &Vec<IdSet>,
    options: &Vec<IdSet>,
) -> (out: Vec<IdSet>)
    ensures
        out.deep_view() == prefer_present(configs.deep_view(), options.deep_view()),
{
    let ghost all = configs.deep_view();
    let ghost opts = options.deep_view();
    let ghost image = |config: Config| extensions(config, opts).push(config);
    let mut out: Vec<IdSet> = Vec::new();
    proof {
        lemma_flat_map_empty(all.take(0), image);
        assert(out.deep_view() =~= all.take(0).flat_map(image));
    }
    let mut i: usize = 0;
    while i < configs.len()
        invariant
            i <= configs.len(),
            all == configs.deep_view(),
            opts == options.deep_view(),
            image == (|config: Config| extensions(config, opts).push(config)),
            out.deep_view() == all.take(i as int).flat_map(image),
        decreases configs.len() - i,
    {
        let mut extended = extend_config(&configs[i], options);
        let ghost before = out.deep_view();
        let ghost added = extended.deep_view();
        out.append(&mut extended);
        let ghost middle = out.deep_view();
        assert(middle =~= before + added);
        out.push(configs[i].clone());
        proof {
            assert(out.deep_view() =~= middle.push(configs@[i as int]@));
            lemma_flat_map_step(all, image, i as int);
            assert(all[i as int] == configs@[i as int]@);
            assert(out.deep_view() =~= before + added.push(configs@[i as int]@));
        }
        i = i + 1;
    }
    proof {
        lemma_take_all(all);
    }
    out
}

/// The combinations after an optional credential set, those without it first.
pub fn expand_optional_prefer_absent(
    configs: &Vec<IdSet>,
    options: &Vec<IdSet>,
) -> (out: Vec<IdSet>)
    ensures
        out.deep_view() == prefer_absent(configs.deep_view(), options.deep_view()),
{
    let ghost all = configs.deep_view();
    let ghost opts = options.deep_view();
    let ghost image = |config: Config| seq![config] + extensions(config, opts);
    let mut out: Vec<IdSet> = Vec::new();
    proof {
        lemma_flat_map_empty(all.take(0), image);
        assert(out.deep_view() =~= all.take(0).flat_map(image));
    }
    let mut i: usize = 0;
    while i < configs.len()
        invariant
            i <= configs.len(),
            all == configs.deep_view(),
            opts == options.deep_view(),
            image == (|config: Config| seq![config] + extensions(config, opts)),
            out.deep_view() == all.take(i as int).flat_map(image),
        decreases configs.len() - i,
    {
        let ghost before = out.deep_view();
        out.push(configs[i].clone());
        let ghost middle = out.deep_view();
        assert(middle =~= before.push(configs@[i as int]@));
        let mut extended = extend_config(&configs[i], options);
        let ghost added = extended.deep_view();
        out.append(&mut extended);
        proof {
            assert(out.deep_view() =~= middle + added);
            lemma_flat_map_step(all, image, i as int);
            assert(all[i as int] == configs@[i as int]@);
            assert(out.deep_view() =~= before + (seq![configs@[i as int]@] + added));
        }
        i = i + 1;
    }
    proof {
        lemma_take_all(all);
    }
    out
}

/// Keeps the first occurrence of every combination.
pub fn normalize_configs(configs: &Vec<IdSet>) -> (out: Vec<IdSet>)
    ensures
        out.deep_view() == distinct(configs.deep_view()),
{
    let ghost all = configs.deep_view();
    let mut seen = TextListSet::new();
    let mut out: Vec<IdSet> = Vec::new();
    assert(out.deep_view() =~= distinct(all.take(0)));
    let mut i: usize = 0;
    while i < configs.len()
        invariant
            i <= configs.len(),
            all == configs.deep_view(),
            out.deep_view() == distinct(all.take(i as int)),
            forall|config: Config| #[trigger]
                out.deep_view().contains(config) ==> text_list_set_contents(seen).contains(
                    sorted_ids(config),
                ),
            forall|key: Seq<Text>| #[trigger]
                text_list_set_contents(seen).contains(key) ==> out.deep_view().contains(
                    key.to_set(),
                ),
        decreases configs.len() - i,
    {
        let ids = configs[i].ids();
        let key = ids.clone();
        let ghost before = out.deep_view();
        let ghost config = configs@[i as int]@;
        proof {
            assert(key.deep_view() =~= ids.deep_view());
            assert(all[i as int] == config);
            lemma_distinct_step(all, i as int);
        }
        if seen.insert(key) {
            out.push(configs[i].clone());
            proof {
                assert(out.deep_view() =~= before.push(config));
                assert forall|x: Config| #[trigger]
                    out.deep_view().contains(x) implies text_list_set_contents(seen).contains(
                    sorted_ids(x),
                ) by {
                    lemma_push_contains(before, config, x);
                }
                assert forall|k: Seq<Text>| #[trigger]
                    text_list_set_contents(seen).contains(k) implies out.deep_view().contains(
                    k.to_set(),
                ) by {
                    lemma_push_contains(before, config, k.to_set());
                }
            }
        }
        i = i + 1;
    }
    proof {
        lemma_take_all(all);
    }
    out
}

/// The combinations that answer a query, best first and each once.
pub fn build_configs(
    index: &QueryIndex<'_>,
    credential_sets: &Option<Vec<CredentialSetQuery>>,
    matched: &IdSet,
    options: &PlanOptions,
) -> (configs: Result<Vec<IdSet>, PlanError>)
    requires
        index.well_formed(),
    ensures
        result_view(configs) == configs_of(
            index@,
            credential_sets.deep_view(),
            matched@,
            options.deep_view(),
        ),
{
    let sets = match credential_sets {
        Some(sets) => sets,
        None => {
            let listed = index.ids.as_slice();
            let all = IdSet::collect(listed);
            assert(listed.deep_view() =~= index@.order);
            if index.ids.len() > 0 && all.is_subset(matched) {
                let only = vec![all];
                assert(only.deep_view() =~= seq![index@.order.to_set()]);
                return Ok(only);
            }
            return Err(PlanError::Unsatisfied);
        },
    };
    let mode = options.credential_set_option_mode;
    let ghost all = sets.deep_view();
    let ghost needed = |set: CredentialSetModel| set.required;
    let ghost spare = |set: CredentialSetModel| !set.required;
    let ghost offer = |set: CredentialSetModel| offered(set, matched@, mode);
    let mut lists: Vec<Vec<IdSet>> = Vec::new();
    let mut optional: Vec<&CredentialSetQuery> = Vec::new();
    let ghost mut optional_models: Seq<CredentialSetModel> = Seq::empty();
    let mut i: usize = 0;
    assert(lists.deep_view() =~= all.take(0).filter(needed).map_values(offer));
    assert(optional_models =~= all.take(0).filter(spare));
    while i < sets.len()
        invariant
            i <= sets.len(),
            all == sets.deep_view(),
            mode == options.credential_set_option_mode,
            Some(all) == credential_sets.deep_view(),
            needed == (|set: CredentialSetModel| set.required),
            spare == (|set: CredentialSetModel| !set.required),
            offer == (|set: CredentialSetModel| offered(set, matched@, mode)),
            lists.deep_view() == all.take(i as int).filter(needed).map_values(offer),
            !some_empty(lists.deep_view()),
            optional_models == all.take(i as int).filter(spare),
            optional.len() == optional_models.len(),
            forall|k: int|
                0 <= k < optional.len() ==> (#[trigger] optional@[k]).deep_view()
                    == optional_models[k],
        decreases sets.len() - i,
    {
        let set = &sets[i];
        let ghost before = lists.deep_view();
        proof {
            assert(all[i as int] == set.deep_view());
            lemma_filter_step(all, needed, i as int);
            lemma_filter_step(all, spare, i as int);
        }
        if set.required {
            let list = feasible_options(set, matched, mode);
            let ghost kept = all.take(i as int).filter(needed);
            proof {
                assert(kept.push(set.deep_view()).map_values(offer) =~= before.push(
                    list.deep_view(),
                ));
            }
            if list.is_empty() {
                proof {
                    assert(list.deep_view().len() == 0);
                    let prefix = all.take(i + 1);
                    let rest = all.skip(i + 1);
                    assert(all =~= prefix + rest);
                    Seq::filter_distributes_over_add(prefix, rest, needed);
                    let every = all.filter(needed).map_values(offer);
                    assert(every[kept.len() as int] == prefix.filter(needed).map_values(
                        offer,
                    )[kept.len() as int]);
                    assert(every[kept.len() as int].len() == 0);
                    assert(some_empty(every));
                }
                return Err(PlanError::Unsatisfied);
            }
            lists.push(list);
            proof {
                assert(lists.deep_view() =~= before.push(list.deep_view()));
                assert(list.deep_view().len() > 0);
                assert forall|k: int| 0 <= k < lists.deep_view().len() implies (
                #[trigger] lists.deep_view()[k]).len() > 0 by {
                    if k < before.len() {
                        assert(lists.deep_view()[k] == before[k]);
                    }
                }
            }
        } else {
            optional.push(set);
            proof {
                optional_models = optional_models.push(set.deep_view());
            }
        }
        i = i + 1;
    }
    proof {
        lemma_take_all(all);
    }
    let mut configs = cartesian_union(&lists);
    let ghost base = configs.deep_view();
    let mut j: usize = 0;
    assert(optional_models.take(0) =~= Seq::<CredentialSetModel>::empty());
    while j < optional.len()
        invariant
            j <= optional.len(),
            mode == options.credential_set_option_mode,
            optional.len() == optional_models.len(),
            forall|k: int|
                0 <= k < optional.len() ==> (#[trigger] optional@[k]).deep_view()
                    == optional_models[k],
            configs.deep_view() == with_optional(
                base,
                optional_models.take(j as int),
                matched@,
                options.deep_view(),
            ),
        decreases optional.len() - j,
    {
        let offers = feasible_options(optional[j], matched, mode);
        j = j + 1;
        proof {
            let now = optional_models.take(j as int);
            assert(now.drop_last() =~= optional_models.take(j - 1));
            assert(now.last() == optional@[j - 1].deep_view());
            assert(offers.deep_view().len() == offers.len());
        }
        if offers.is_empty() {
            continue;
        }
        configs = match options.optional_credential_sets_mode {
            OptionalCredentialSetsMode::PreferPresent => expand_optional_prefer_present(
                &configs,
                &offers,
            ),
            OptionalCredentialSetsMode::PreferAbsent => expand_optional_prefer_absent(
                &configs,
                &offers,
            ),
            OptionalCredentialSetsMode::AlwaysPresentIfSatisfiable => include_optional_only(
                &configs,
                &offers,
            ),
        };
    }
    proof {
        lemma_take_all(optional_models);
    }
    Ok(normalize_configs(&configs))
}

/// Whether two listings hold the same combinations.
pub open spec fn same_members(left: Seq<Config>, right: Seq<Config>) -> bool {
    forall|config: Config| #[trigger] left.contains(config) <==> right.contains(config)
}

/// What an optional credential set makes of a listing depends, but for the order, only on which
/// combinations the listing holds, and not on which of the two preferences is set.
proof fn lemma_after_optional_members(
    left: Seq<Config>,
    right: Seq<Config>,
    options: Seq<Config>,
)
    requires
        same_members(left, right),
    ensures
        same_members(prefer_present(left, options), prefer_absent(right, options)),
{
    let f = |config: Config| extensions(config, options).push(config);
    let g = |config: Config| seq![config] + extensions(config, options);
    assert forall|config: Config| #[trigger]
        prefer_present(left, options).contains(config) <==> prefer_absent(right, options).contains(
            config,
        ) by {
        lemma_flat_map_contains(left, f, config);
        lemma_flat_map_contains(right, g, config);
        assert forall|base: Config| #[trigger]
            f(base).contains(config) <==> g(base).contains(config) by {
            lemma_push_contains(extensions(base, options), base, config);
            lemma_add_contains(seq![base], extensions(base, options), config);
            lemma_push_contains(Seq::empty(), base, config);
            assert(seq![base] =~= Seq::empty().push(base));
        }
        if prefer_present(left, options).contains(config) {
            let i = choose|i: int| 0 <= i < left.len() && f(#[trigger] left[i]).contains(config);
            assert(left.contains(left[i]));
            assert(right.contains(left[i]));
            let j = choose|j: int| 0 <= j < right.len() && right[j] == left[i];
            assert(f(left[i]).contains(config));
            assert(g(right[j]).contains(config));
        }
        if prefer_absent(right, options).contains(config) {
            let i = choose|i: int| 0 <= i < right.len() && g(#[trigger] right[i]).contains(config);
            assert(right.contains(right[i]));
            assert(left.contains(right[i]));
            let j = choose|j: int| 0 <= j < left.len() && left[j] == right[i];
            assert(f(right[i]).contains(config));
            assert(f(left[j]).contains(config));
        }
    }
}

proof fn lemma_with_optional_members(
    configs: Seq<Config>,
    sets: Seq<CredentialSetModel>,
    matched: Set<Text>,
    present: PlanOptionsModel,
    absent: PlanOptionsModel,
)
    requires
        present.credential_set_option_mode == absent.credential_set_option_mode,
        present.optional_credential_sets_mode == OptionalCredentialSetsMode::PreferPresent,
        absent.optional_credential_sets_mode == OptionalCredentialSetsMode::PreferAbsent,
    ensures
        same_members(
            with_optional(configs, sets, matched, present),
            with_optional(configs, sets, matched, absent),
        ),
    decreases sets.len(),
{
    if sets.len() > 0 {
        lemma_with_optional_members(configs, sets.drop_last(), matched, present, absent);
        lemma_after_optional_members(
            with_optional(configs, sets.drop_last(), matched, present),
            with_optional(configs, sets.drop_last(), matched, absent),
            offered(sets.last(), matched, present.credential_set_option_mode),
        );
    }
}

/// Preferring optional credential sets present or absent changes the order of the combinations
/// and nothing else.
pub proof fn lemma_preference_changes_only_the_order(
    table: QueryTable,
    credential_sets: Option<Seq<CredentialSetModel>>,
    matched: Set<Text>,
    present: PlanOptionsModel,
    absent: PlanOptionsModel,
)
    requires
        present.credential_set_option_mode == absent.credential_set_option_mode,
        present.optional_credential_sets_mode == OptionalCredentialSetsMode::PreferPresent,
        absent.optional_credential_sets_mode == OptionalCredentialSetsMode::PreferAbsent,
    ensures
        match (
            configs_of(table, credential_sets, matched, present),
            configs_of(table, credential_sets, matched, absent),
        ) {
            (Ok(left), Ok(right)) => same_members(left, right),
            (left, right) => left == right,
        },
{
    if let Some(sets) = credential_sets {
        let lists = required_lists(sets, matched, present.credential_set_option_mode);
        let optional = sets.filter(|set: CredentialSetModel| !set.required);
        lemma_with_optional_members(cartesian(lists), optional, matched, present, absent);
        let left = with_optional(cartesian(lists), optional, matched, present);
        let right = with_optional(cartesian(lists), optional, matched, absent);
        lemma_distinct(left);
        lemma_distinct(right);
        assert forall|config: Config| #[trigger]
            distinct(left).contains(config) <==> distinct(right).contains(config) by {
            assert(left.contains(config) <==> right.contains(config));
        }
    }
}

/// No combination is listed twice.
pub proof fn lemma_configs_are_distinct(
    table: QueryTable,
    credential_sets: Option<Seq<CredentialSetModel>>,
    matched: Set<Text>,
    options: PlanOptionsModel,
)
    ensures
        match configs_of(table, credential_sets, matched, options) {
            Ok(configs) => configs.no_duplicates(),
            Err(_) => true,
        },
{
    if let Some(sets) = credential_sets {
        let lists = required_lists(sets, matched, options.credential_set_option_mode);
        let optional = sets.filter(|set: CredentialSetModel| !set.required);
        lemma_distinct(with_optional(cartesian(lists), optional, matched, options));
    }
}

/// A query without credential sets asks for the same as one with a single required credential
/// set whose only option names every credential query.
pub proof fn lemma_omitted_sets_require_everything(
    table: QueryTable,
    matched: Set<Text>,
    options: PlanOptionsModel,
    purpose: Option<JsonModel>,
)
    requires
        table.order.len() > 0,
    ensures
        configs_of(table, None, matched, options) == configs_of(
            table,
            Some(seq![CredentialSetModel { options: seq![table.order], required: true, purpose }]),
            matched,
            options,
        ),
{
    reveal(Seq::filter);
    let set = CredentialSetModel { options: seq![table.order], required: true, purpose };
    let sets = seq![set];
    let keep = |option: Seq<Text>| feasible(matched, option);
    let needed = |set: CredentialSetModel| set.required;
    let spare = |set: CredentialSetModel| !set.required;
    let mode = options.credential_set_option_mode;
    lemma_take_all(sets);
    lemma_filter_step(sets, needed, 0);
    lemma_filter_step(sets, spare, 0);
    assert(sets.take(0) =~= Seq::<CredentialSetModel>::empty());
    assert(sets.filter(needed) =~= sets);
    assert(sets.filter(spare) =~= Seq::<CredentialSetModel>::empty());
    lemma_take_all(set.options);
    lemma_filter_step(set.options, keep, 0);
    assert(set.options.take(0) =~= Seq::<Seq<Text>>::empty());
    let lists = required_lists(sets, matched, mode);
    assert(lists =~= seq![offered(set, matched, mode)]);
    if feasible(matched, table.order) {
        assert(set.options.filter(keep) =~= set.options);
        assert(offered(set, matched, mode) =~= seq![table.order.to_set()]);
        assert(lists.drop_last() =~= Seq::<Seq<Config>>::empty());
        let base = seq![Set::<Text>::empty()];
        assert(cartesian(lists.drop_last()) == base);
        let image = |base: Config|
            lists.last().map_values(|option: Config| base.union(option));
        lemma_flat_map_step(base, image, 0);
        lemma_flat_map_empty(base.take(0), image);
        lemma_take_all(base);
        assert(image(base[0]) =~= seq![table.order.to_set()]) by {
            assert(Set::<Text>::empty().union(table.order.to_set()) =~= table.order.to_set());
        }
        assert(cartesian(lists) =~= seq![table.order.to_set()]);
        let only = seq![table.order.to_set()];
        assert(only.drop_last() =~= Seq::<Config>::empty());
        assert(distinct(only.drop_last()) =~= Seq::<Config>::empty());
        assert(distinct(only) =~= only);
        assert forall|i: int| 0 <= i < lists.len() implies (#[trigger] lists[i]).len() > 0 by {}
    } else {
        assert(set.options.filter(keep) =~= Seq::<Seq<Text>>::empty());
        assert(offered(set, matched, mode) =~= Seq::<Config>::empty());
        assert(lists[0].len() == 0);
    }
}

/// Whether a combination answers a credential set: it holds a whole option that can be offered.
pub open spec fn answers(config: Config, set: CredentialSetModel, matched: Set<Text>) -> bool {
    exists|k: int|
        0 <= k < set.options.len() && feasible(matched, #[trigger] set.options[k])
            && set.options[k].to_set().subset_of(config)
}

proof fn lemma_offered_answers(
    set: CredentialSetModel,
    matched: Set<Text>,
    mode: CredentialSetOptionMode,
    option: Config,
    config: Config,
)
    requires
        offered(set, matched, mode).contains(option),
        option.subset_of(config),
    ensures
        answers(config, set, matched),
        option.subset_of(matched),
{
    let keep = |option: Seq<Text>| feasible(matched, option);
    let kept = set.options.filter(keep);
    let i = choose|i: int|
        0 <= i < offered(set, matched, mode).len() && offered(set, matched, mode)[i] == option;
    assert(kept[i].to_set() == option);
    lemma_filter_contains(set.options, keep);
    assert(kept.contains(kept[i]));
    assert(set.options.contains(kept[i]));
    let k = choose|k: int| 0 <= k < set.options.len() && set.options[k] == kept[i];
    assert(feasible(matched, set.options[k]));
}

/// Whether a combination holds a whole option of a list.
pub open spec fn has_part(list: Seq<Config>, config: Config) -> bool {
    exists|k: int| 0 <= k < list.len() && (#[trigger] list[k]).subset_of(config)
}

/// The combinations of one option per list hold exactly that: an option of every list, and
/// nothing else.
proof fn lemma_cartesian_holds(lists: Seq<Seq<Config>>, config: Config)
    requires
        cartesian(lists).contains(config),
    ensures
        forall|i: int|
            0 <= i < lists.len() ==> has_part(#[trigger] lists[i], config),
        forall|id: Text| #[trigger]
            config.contains(id) ==> exists|i: int, k: int|
                0 <= i < lists.len() && 0 <= k < lists[i].len() && (
                #[trigger] lists[i][k]).contains(id),
    decreases lists.len(),
{
    if lists.len() > 0 {
        let rest = lists.drop_last();
        let options = lists.last();
        let n = lists.len() - 1;
        let image = |base: Config| options.map_values(|option: Config| base.union(option));
        lemma_flat_map_contains(cartesian(rest), image, config);
        let i = choose|i: int|
            0 <= i < cartesian(rest).len() && image(#[trigger] cartesian(rest)[i]).contains(config);
        let base = cartesian(rest)[i];
        let images = options.map_values(|option: Config| base.union(option));
        assert(images == image(base));
        let k = choose|k: int| 0 <= k < images.len() && images[k] == config;
        assert(config == base.union(options[k]));
        assert(cartesian(rest).contains(base));
        lemma_cartesian_holds(rest, base);
        assert forall|m: int| 0 <= m < lists.len() implies has_part(#[trigger] lists[m], config) by {
            if m < n {
                assert(rest[m] == lists[m]);
                assert(has_part(rest[m], base));
                let p = choose|p: int| 0 <= p < rest[m].len() && (#[trigger] rest[m][p]).subset_of(base);
                assert(lists[m][p].subset_of(config));
            } else {
                assert(lists[m][k].subset_of(config));
            }
        }
        assert forall|id: Text| #[trigger] config.contains(id) implies exists|i: int, k: int|
            0 <= i < lists.len() && 0 <= k < lists[i].len() && (
            #[trigger] lists[i][k]).contains(id) by {
            if base.contains(id) {
                let (m, p) = choose|m: int, p: int|
                    0 <= m < rest.len() && 0 <= p < rest[m].len() && (
                    #[trigger] rest[m][p]).contains(id);
                assert(lists[m][p].contains(id));
            } else {
                assert(lists[n][k].contains(id));
            }
        }
    } else {
        assert(config == Set::<Text>::empty());
    }
}

/// Optional credential sets only add to a combination, and only matched ids.
proof fn lemma_with_optional_grows(
    configs: Seq<Config>,
    sets: Seq<CredentialSetModel>,
    matched: Set<Text>,
    options: PlanOptionsModel,
    config: Config,
)
    requires
        with_optional(configs, sets, matched, options).contains(config),
    ensures
        exists|base: Config| #[trigger]
            configs.contains(base) && base.subset_of(config) && config.subset_of(
                base.union(matched),
            ),
    decreases sets.len(),
{
    if sets.len() == 0 {
        assert(configs.contains(config) && config.subset_of(config));
    } else {
        let earlier = with_optional(configs, sets.drop_last(), matched, options);
        let mode = options.credential_set_option_mode;
        let added = offered(sets.last(), matched, mode);
        if added.len() == 0 {
            lemma_with_optional_grows(configs, sets.drop_last(), matched, options, config);
        } else {
            let middle = lemma_after_optional_grows(
                earlier,
                added,
                options.optional_credential_sets_mode,
                config,
            );
            lemma_with_optional_grows(configs, sets.drop_last(), matched, options, middle);
            let base = choose|base: Config| #[trigger]
                configs.contains(base) && base.subset_of(middle) && middle.subset_of(
                    base.union(matched),
                );
            assert(config.subset_of(base.union(matched))) by {
                assert forall|id: Text| config.contains(id) implies base.union(matched).contains(
                    id,
                ) by {
                    if !middle.contains(id) {
                        let k = choose|k: int| 0 <= k < added.len() && (
                        #[trigger] added[k]).contains(id);
                        assert(added.contains(added[k]));
                        lemma_offered_answers(sets.last(), matched, mode, added[k], added[k]);
                    }
                }
            }
            assert(configs.contains(base) && base.subset_of(config));
        }
    }
}

proof fn lemma_after_optional_grows(
    configs: Seq<Config>,
    options: Seq<Config>,
    mode: OptionalCredentialSetsMode,
    config: Config,
) -> (base: Config)
    requires
        after_optional(configs, options, mode).contains(config),
    ensures
        configs.contains(base),
        base.subset_of(config),
        forall|id: Text| #[trigger]
            config.contains(id) && !base.contains(id) ==> exists|k: int|
                0 <= k < options.len() && (#[trigger] options[k]).contains(id),
{
    let grown = |base: Config| options.map_values(|option: Config| base.union(option));
    let differs = |base: Config| |combined: Config| combined != base;
    let f = |base: Config| extensions(base, options).push(base);
    let g = |base: Config| seq![base] + extensions(base, options);
    let image = match mode {
        OptionalCredentialSetsMode::PreferPresent => f,
        OptionalCredentialSetsMode::PreferAbsent => g,
        OptionalCredentialSetsMode::AlwaysPresentIfSatisfiable => grown,
    };
    lemma_flat_map_contains(configs, image, config);
    let i = choose|i: int|
        0 <= i < configs.len() && image(#[trigger] configs[i]).contains(config);
    let base = configs[i];
    assert(configs.contains(base));
    lemma_push_contains(extensions(base, options), base, config);
    lemma_add_contains(seq![base], extensions(base, options), config);
    lemma_filter_contains(grown(base), differs(base));
    assert(extensions(base, options) =~= grown(base).filter(differs(base))) by {
        assert(differs(base) =~= (|combined: Config| combined != base));
    }
    if config != base {
        assert(grown(base).contains(config)) by {
            if seq![base].contains(config) {
                assert(config == base);
            }
        }
        let images = options.map_values(|option: Config| base.union(option));
        assert(images == grown(base));
        let k = choose|k: int| 0 <= k < images.len() && images[k] == config;
        assert(config == base.union(options[k]));
        assert forall|id: Text| #[trigger] config.contains(id) && !base.contains(id) implies exists|
            k: int,
        | 0 <= k < options.len() && (#[trigger] options[k]).contains(id) by {
            assert(options[k].contains(id));
        }
    }
    base
}

/// Every combination answers every required credential set, and names only ids that a credential
/// matches.
pub proof fn lemma_configs_answer_required_sets(
    table: QueryTable,
    sets: Seq<CredentialSetModel>,
    matched: Set<Text>,
    options: PlanOptionsModel,
    config: Config,
    set: CredentialSetModel,
)
    requires
        configs_of(table, Some(sets), matched, options) matches Ok(configs) && configs.contains(
            config,
        ),
    ensures
        sets.contains(set) && set.required ==> answers(config, set, matched),
        config.subset_of(matched),
{
    let mode = options.credential_set_option_mode;
    let needed = |set: CredentialSetModel| set.required;
    let required = sets.filter(needed);
    let lists = required_lists(sets, matched, mode);
    let optional = sets.filter(|set: CredentialSetModel| !set.required);
    let all = with_optional(cartesian(lists), optional, matched, options);
    lemma_distinct(all);
    assert(all.contains(config));
    lemma_with_optional_grows(cartesian(lists), optional, matched, options, config);
    let base = choose|base: Config| #[trigger]
        cartesian(lists).contains(base) && base.subset_of(config) && config.subset_of(
            base.union(matched),
        );
    lemma_cartesian_holds(lists, base);
    lemma_filter_contains(sets, needed);
    assert forall|i: int, k: int|
        0 <= i < lists.len() && 0 <= k < lists[i].len() && (
        #[trigger] lists[i][k]).subset_of(config) implies answers(config, required[i], matched) by {
        assert(lists[i] == offered(required[i], matched, mode));
        assert(lists[i].contains(lists[i][k]));
        lemma_offered_answers(required[i], matched, mode, lists[i][k], config);
    }
    if sets.contains(set) && set.required {
        assert(required.contains(set));
        let i = choose|i: int| 0 <= i < required.len() && required[i] == set;
        assert(has_part(lists[i], base));
        let k = choose|k: int|
            0 <= k < lists[i].len() && (#[trigger] lists[i][k]).subset_of(base);
        assert(lists[i][k].subset_of(config));
    }
    assert forall|id: Text| config.contains(id) implies matched.contains(id) by {
        if base.contains(id) {
            let (i, k) = choose|i: int, k: int|
                0 <= i < lists.len() && 0 <= k < lists[i].len() && (
                #[trigger] lists[i][k]).contains(id);
            assert(lists[i] == offered(required[i], matched, mode));
            assert(lists[i].contains(lists[i][k]));
            lemma_offered_answers(required[i], matched, mode, lists[i][k], lists[i][k]);
        }
    }
}

/// Where optional credential sets are always included, what the sets add answers each of them that
/// offers something.
proof fn lemma_with_optional_answers(
    configs: Seq<Config>,
    sets: Seq<CredentialSetModel>,
    matched: Set<Text>,
    options: PlanOptionsModel,
    config: Config,
    set: CredentialSetModel,
)
    requires
        options.optional_credential_sets_mode
            == OptionalCredentialSetsMode::AlwaysPresentIfSatisfiable,
        with_optional(configs, sets, matched, options).contains(config),
        sets.contains(set),
        offered(set, matched, options.credential_set_option_mode).len() > 0,
    ensures
        answers(config, set, matched),
    decreases sets.len(),
{
    let rest = sets.drop_last();
    let mode = options.credential_set_option_mode;
    let added = offered(sets.last(), matched, mode);
    let earlier = with_optional(configs, rest, matched, options);
    assert(sets =~= rest.push(sets.last()));
    lemma_push_contains(rest, sets.last(), set);
    if added.len() == 0 {
        lemma_with_optional_answers(configs, rest, matched, options, config, set);
    } else {
        let image = |base: Config| added.map_values(|option: Config| base.union(option));
        lemma_flat_map_contains(earlier, image, config);
        let i = choose|i: int|
            0 <= i < earlier.len() && image(#[trigger] earlier[i]).contains(config);
        let base = earlier[i];
        let images = added.map_values(|option: Config| base.union(option));
        assert(images == image(base));
        let k = choose|k: int| 0 <= k < images.len() && images[k] == config;
        assert(config == base.union(added[k]));
        assert(earlier.contains(base));
        if set == sets.last() {
            assert(added.contains(added[k]));
            lemma_offered_answers(set, matched, mode, added[k], config);
        } else {
            lemma_with_optional_answers(configs, rest, matched, options, base, set);
            let n = choose|n: int|
                0 <= n < set.options.len() && feasible(matched, #[trigger] set.options[n])
                    && set.options[n].to_set().subset_of(base);
            assert(set.options[n].to_set().subset_of(config));
        }
    }
}

/// Where optional credential sets are always included, every combination answers every credential
/// set that offers something.
pub proof fn lemma_satisfiable_sets_are_always_present(
    table: QueryTable,
    sets: Seq<CredentialSetModel>,
    matched: Set<Text>,
    options: PlanOptionsModel,
    config: Config,
    set: CredentialSetModel,
)
    requires
        options.optional_credential_sets_mode
            == OptionalCredentialSetsMode::AlwaysPresentIfSatisfiable,
        configs_of(table, Some(sets), matched, options) matches Ok(configs) && configs.contains(
            config,
        ),
        sets.contains(set),
        offered(set, matched, options.credential_set_option_mode).len() > 0,
    ensures
        answers(config, set, matched),
{
    if set.required {
        lemma_configs_answer_required_sets(table, sets, matched, options, config, set);
    } else {
        let lists = required_lists(sets, matched, options.credential_set_option_mode);
        let spare = |set: CredentialSetModel| !set.required;
        let optional = sets.filter(spare);
        lemma_filter_contains(sets, spare);
        assert(optional.contains(set));
        lemma_distinct(with_optional(cartesian(lists), optional, matched, options));
        lemma_with_optional_answers(cartesian(lists), optional, matched, options, config, set);
    }
}

/// Where every list offers something, there is a way to join one option of every list.
proof fn lemma_cartesian_offers(lists: Seq<Seq<Config>>)
    requires
        !some_empty(lists),
    ensures
        cartesian(lists).len() > 0,
    decreases lists.len(),
{
    if lists.len() > 0 {
        let rest = lists.drop_last();
        assert forall|i: int| 0 <= i < rest.len() implies (#[trigger] rest[i]).len() > 0 by {
            assert(lists[i].len() > 0);
        }
        lemma_cartesian_offers(rest);
        let options = lists[lists.len() - 1];
        assert(options.len() > 0);
        lemma_flat_map_first(
            cartesian(rest),
            |base: Config| options.map_values(|option: Config| base.union(option)),
        );
    }
}

proof fn lemma_first_without_optional(
    configs: Seq<Config>,
    sets: Seq<CredentialSetModel>,
    matched: Set<Text>,
    options: PlanOptionsModel,
)
    requires
        configs.len() > 0,
        options.optional_credential_sets_mode == OptionalCredentialSetsMode::PreferAbsent,
    ensures
        with_optional(configs, sets, matched, options).len() > 0,
        with_optional(configs, sets, matched, options)[0] == configs[0],
    decreases sets.len(),
{
    if sets.len() > 0 {
        let added = offered(sets.last(), matched, options.credential_set_option_mode);
        lemma_first_without_optional(configs, sets.drop_last(), matched, options);
        lemma_flat_map_first(
            with_optional(configs, sets.drop_last(), matched, options),
            |config: Config| seq![config] + extensions(config, added),
        );
    }
}

/// Where optional credential sets are preferred absent, the first combination leaves them out: it
/// is the first that the required credential sets make.
pub proof fn lemma_absent_comes_first(
    table: QueryTable,
    sets: Seq<CredentialSetModel>,
    matched: Set<Text>,
    options: PlanOptionsModel,
)
    requires
        options.optional_credential_sets_mode == OptionalCredentialSetsMode::PreferAbsent,
        configs_of(table, Some(sets), matched, options) is Ok,
    ensures
        configs_of(table, Some(sets), matched, options)->Ok_0.len() > 0,
        configs_of(table, Some(sets), matched, options)->Ok_0[0] == cartesian(
            required_lists(sets, matched, options.credential_set_option_mode),
        )[0],
{
    let lists = required_lists(sets, matched, options.credential_set_option_mode);
    let optional = sets.filter(|set: CredentialSetModel| !set.required);
    lemma_cartesian_offers(lists);
    lemma_first_without_optional(cartesian(lists), optional, matched, options);
    lemma_distinct_first(with_optional(cartesian(lists), optional, matched, options));
}

/// Membership in what options add to a combination.
proof fn lemma_extensions(config: Config, options: Seq<Config>, combined: Config)
    ensures
        extensions(config, options).contains(combined) <==> combined != config && exists|k: int|
            0 <= k < options.len() && combined == config.union(#[trigger] options[k]),
{
    let grown = options.map_values(|option: Config| config.union(option));
    let grow = |base: Config| options.map_values(|option: Config| base.union(option));
    let differs = |base: Config| |combined: Config| combined != base;
    lemma_filter_contains(grow(config), differs(config));
    assert(grow(config) =~= grown);
    assert(extensions(config, options) =~= grow(config).filter(differs(config))) by {
        assert(differs(config) =~= (|combined: Config| combined != config));
    }
    if grown.contains(combined) {
        let k = choose|k: int| 0 <= k < grown.len() && grown[k] == combined;
        assert(combined == config.union(options[k]));
    }
    if exists|k: int| 0 <= k < options.len() && combined == config.union(#[trigger] options[k]) {
        let k = choose|k: int|
            0 <= k < options.len() && combined == config.union(#[trigger] options[k]);
        assert(grown[k] == combined);
    }
}

proof fn lemma_first_with_optional(
    configs: Seq<Config>,
    sets: Seq<CredentialSetModel>,
    matched: Set<Text>,
    options: PlanOptionsModel,
)
    requires
        configs.len() > 0,
        options.optional_credential_sets_mode == OptionalCredentialSetsMode::PreferPresent,
    ensures
        with_optional(configs, sets, matched, options).len() > 0,
        forall|set: CredentialSetModel| #[trigger]
            sets.contains(set) && offered(
                set,
                matched,
                options.credential_set_option_mode,
            ).len() > 0 ==> answers(
                with_optional(configs, sets, matched, options)[0],
                set,
                matched,
            ),
    decreases sets.len(),
{
    if sets.len() > 0 {
        let mode = options.credential_set_option_mode;
        let rest = sets.drop_last();
        let last = sets.last();
        let added = offered(last, matched, mode);
        let earlier = with_optional(configs, rest, matched, options);
        let image = |config: Config| extensions(config, added).push(config);
        let found = with_optional(configs, sets, matched, options);
        lemma_first_with_optional(configs, rest, matched, options);
        let base = earlier[0];
        if added.len() > 0 {
            lemma_flat_map_first(earlier, image);
            assert(found[0] == image(base)[0]);
            let more = extensions(base, added);
            if more.len() > 0 {
                assert(more.contains(more[0]));
                lemma_extensions(base, added, more[0]);
                let k = choose|k: int|
                    0 <= k < added.len() && more[0] == base.union(#[trigger] added[k]);
                assert(found[0] == base.union(added[k]));
                assert(added.contains(added[k]));
                lemma_offered_answers(last, matched, mode, added[k], found[0]);
            } else {
                assert(found[0] == base);
                lemma_extensions(base, added, base.union(added[0]));
                assert(base.union(added[0]) == base);
                assert(added[0].subset_of(base)) by {
                    assert forall|id: Text| added[0].contains(id) implies base.contains(id) by {
                        assert(base.union(added[0]).contains(id));
                    }
                }
                assert(added.contains(added[0]));
                lemma_offered_answers(last, matched, mode, added[0], found[0]);
            }
            assert(base.subset_of(found[0]));
        }
        assert forall|set: CredentialSetModel| #[trigger]
            sets.contains(set) && offered(set, matched, mode).len() > 0 implies answers(
            found[0],
            set,
            matched,
        ) by {
            assert(sets =~= rest.push(last));
            lemma_push_contains(rest, last, set);
            if set != last {
                assert(answers(base, set, matched));
                let k = choose|k: int|
                    0 <= k < set.options.len() && feasible(matched, #[trigger] set.options[k])
                        && set.options[k].to_set().subset_of(base);
                assert(set.options[k].to_set().subset_of(found[0]));
            }
        }
    }
}

/// Where optional credential sets are preferred present, the first combination answers every
/// credential set that offers something.
pub proof fn lemma_present_comes_first(
    table: QueryTable,
    sets: Seq<CredentialSetModel>,
    matched: Set<Text>,
    options: PlanOptionsModel,
    set: CredentialSetModel,
)
    requires
        options.optional_credential_sets_mode == OptionalCredentialSetsMode::PreferPresent,
        configs_of(table, Some(sets), matched, options) is Ok,
        sets.contains(set),
        offered(set, matched, options.credential_set_option_mode).len() > 0,
    ensures
        configs_of(table, Some(sets), matched, options)->Ok_0.len() > 0,
        answers(configs_of(table, Some(sets), matched, options)->Ok_0[0], set, matched),
{
    let lists = required_lists(sets, matched, options.credential_set_option_mode);
    let spare = |set: CredentialSetModel| !set.required;
    let optional = sets.filter(spare);
    let configs = configs_of(table, Some(sets), matched, options)->Ok_0;
    lemma_cartesian_offers(lists);
    lemma_first_with_optional(cartesian(lists), optional, matched, options);
    lemma_distinct_first(with_optional(cartesian(lists), optional, matched, options));
    lemma_filter_contains(sets, spare);
    if set.required {
        assert(configs.contains(configs[0]));
        lemma_configs_answer_required_sets(table, sets, matched, options, configs[0], set);
    } else {
        assert(optional.contains(set));
    }
}

} // verus!
