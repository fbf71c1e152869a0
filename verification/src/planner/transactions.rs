//! Binding transaction data to credentials.

use crate::idset::IdSet;
use crate::models::{TransactionData, TransactionDataModel};
use crate::planner::by_id::ById;
use crate::planner::configs::Config;
use crate::planner::constraints::as_ints;
use crate::planner::index::{QueryIndex, QueryTable};
use crate::planner::matching::{candidates, QueryMatches};
use crate::seqs::{first_where, lemma_add_contains, lemma_filter_contains, lemma_filter_step, lemma_first_where};
use crate::seqs::{lemma_first_where_is, lemma_take_all};
use crate::store::{lawful_refs, CredentialStore, RefModel};
use crate::text::Text;
use vstd::prelude::*;

verus! {

broadcast use vstd::string::group_string_axioms;

/// Whether a credential query is answered by some credential, claims aside.
pub open spec fn has_match<S: CredentialStore>(store: S, table: QueryTable, id: Text) -> bool {
    table.queries.contains_key(id) && candidates(store, table.queries[id]).len() > 0
}

/// The credential queries that are answered by some credential, claims aside.
pub open spec fn matched_ids<S: CredentialStore>(store: S, table: QueryTable) -> Set<Text> {
    Set::new(|id: Text| has_match(store, table, id))
}

/// Whether `matches` holds what the credential queries match, in the order of the index.
pub open spec fn tabled<S: CredentialStore>(
    store: S,
    index: QueryIndex<'_>,
    matches: Seq<QueryMatches<S::CredentialRef>>,
) -> bool {
    &&& matches.len() == index.ids.len()
    &&& forall|k: int|
        0 <= k < matches.len() ==> (#[trigger] matches[k]).credentials.deep_view() == candidates(
            store,
            index@.queries[index.ids@[k]@],
        )
}

/// The credentials of a domain that can authorize a transaction.
pub open spec fn signing<S: CredentialStore>(
    store: S,
    domain: Seq<RefModel<S>>,
    data: TransactionDataModel,
) -> Seq<RefModel<S>> {
    domain.filter(|cred: RefModel<S>| store.can_sign(cred, data))
}

/// Model of [`Domains`].
pub type DomainsModel<R> = Map<Text, Seq<R>>;

/// One way to bind transaction data.
pub struct AssignmentModel<R> {
    /// For each transaction data the credential query that authorizes it, if it is bound.
    pub bindings: Seq<Option<Text>>,
    /// The credentials that are left to choose from.
    pub domains: DomainsModel<R>,
}

/// Transaction data that has to be bound, and the credential queries that can authorize it.
pub struct TaskModel {
    pub index: int,
    pub options: Seq<Text>,
}

/// The credential queries that can authorize a transaction.
pub open spec fn options_for<S: CredentialStore>(
    store: S,
    domains: DomainsModel<RefModel<S>>,
    data: TransactionDataModel,
) -> Seq<Text> {
    data.credential_ids.filter(
        |id: Text| domains.contains_key(id) && signing(store, domains[id], data).len() > 0,
    )
}

/// What has to be bound.
pub open spec fn tasks_for<S: CredentialStore>(
    store: S,
    domains: DomainsModel<RefModel<S>>,
    data: Seq<TransactionDataModel>,
    indices: Seq<int>,
) -> Seq<TaskModel> {
    indices.map_values(
        |index: int| TaskModel { index, options: options_for(store, domains, data[index]) },
    )
}

/// Where a task goes in a list that is sorted by the number of options: behind all that have no
/// more options.
pub open spec fn place_for(sorted: Seq<TaskModel>, task: TaskModel) -> int {
    match first_where(sorted, |other: TaskModel| other.options.len() > task.options.len()) {
        Some(at) => at,
        None => sorted.len() as int,
    }
}

/// The tasks by the number of options, fewest first; those with equally many keep their order.
pub open spec fn by_options(tasks: Seq<TaskModel>) -> Seq<TaskModel>
    decreases tasks.len(),
{
    if tasks.len() == 0 {
        Seq::empty()
    } else {
        let sorted = by_options(tasks.drop_last());
        sorted.insert(place_for(sorted, tasks.last()), tasks.last())
    }
}

/// All ways to bind the transaction data of `tasks`, in order: each to one of its options, whose
/// domain shrinks to the credentials that can authorize it.
pub open spec fn bound<S: CredentialStore>(
    store: S,
    data: Seq<TransactionDataModel>,
    tasks: Seq<TaskModel>,
    bindings: Seq<Option<Text>>,
    domains: DomainsModel<RefModel<S>>,
) -> Seq<AssignmentModel<RefModel<S>>>
    decreases tasks.len(), 1 + if tasks.len() > 0 { tasks[0].options.len() } else { 0 },
{
    if tasks.len() == 0 {
        seq![AssignmentModel { bindings, domains }]
    } else {
        bound_to(store, data, tasks, tasks[0].options, bindings, domains)
    }
}

/// [`bound`] with the first task bound to one of `ids`.
pub open spec fn bound_to<S: CredentialStore>(
    store: S,
    data: Seq<TransactionDataModel>,
    tasks: Seq<TaskModel>,
    ids: Seq<Text>,
    bindings: Seq<Option<Text>>,
    domains: DomainsModel<RefModel<S>>,
) -> Seq<AssignmentModel<RefModel<S>>>
    decreases tasks.len(), ids.len(),
{
    if tasks.len() == 0 || ids.len() == 0 {
        Seq::empty()
    } else {
        let id = ids.last();
        let index = tasks[0].index;
        let left = signing(store, domains[id], data[index]);
        let earlier = bound_to(store, data, tasks, ids.drop_last(), bindings, domains);
        if domains.contains_key(id) && left.len() > 0 {
            earlier + bound(
                store,
                data,
                tasks.drop_first(),
                bindings.update(index, Some(id)),
                domains.insert(id, left),
            )
        } else {
            earlier
        }
    }
}

/// The credentials that a combination starts with.
pub open spec fn start_domains<S: CredentialStore>(
    store: S,
    table: QueryTable,
    config: Config,
) -> DomainsModel<RefModel<S>> {
    Map::new(|id: Text| config.contains(id), |id: Text| candidates(store, table.queries[id]))
}

/// Nothing is bound.
pub open spec fn no_bindings(count: nat) -> Seq<Option<Text>> {
    Seq::new(count, |i: int| None)
}

/// All ways to bind the transaction data at `indices` within a combination.
pub open spec fn assignments<S: CredentialStore>(
    store: S,
    table: QueryTable,
    config: Config,
    data: Seq<TransactionDataModel>,
    indices: Seq<int>,
) -> Seq<AssignmentModel<RefModel<S>>> {
    let domains = start_domains(store, table, config);
    let tasks = tasks_for(store, domains, data, indices);
    if !config.subset_of(matched_ids(store, table)) {
        Seq::empty()
    } else if exists|k: int| 0 <= k < tasks.len() && (#[trigger] tasks[k]).options.len() == 0 {
        Seq::empty()
    } else {
        bound(store, data, by_options(tasks), no_bindings(data.len()), domains)
    }
}

/// The credentials to choose from, by credential query id.
pub type Domains<C> = ById<C>;

/// Copies credential references.
pub fn clone_refs<C: DeepView + Clone + Eq>(refs: &Vec<C>) -> (copies: Vec<C>)
    requires
        lawful_refs::<C>(),
    ensures
        copies.deep_view() == refs.deep_view(),
{
    let mut copies: Vec<C> = Vec::new();
    let mut i: usize = 0;
    while i < refs.len()
        invariant
            i <= refs.len(),
            lawful_refs::<C>(),
            copies.len() == i,
            forall|k: int| 0 <= k < i ==> (#[trigger] copies@[k]).deep_view() == refs@[k].deep_view(),
        decreases refs.len() - i,
    {
        copies.push(refs[i].clone());
        i = i + 1;
    }
    assert(copies.deep_view() =~= refs.deep_view());
    copies
}

impl<C: DeepView + Clone + Eq> ById<C> {
    /// Copies the rows.
    pub fn copy(&self) -> (copy: ById<C>)
        requires
            self.well_formed(),
            lawful_refs::<C>(),
        ensures
            copy.well_formed(),
            copy.deep_view() == self.deep_view(),
    {
        let ids = self.ids.clone();
        let mut creds: Vec<Vec<C>> = Vec::new();
        let mut i: usize = 0;
        while i < self.rows.len()
            invariant
                i <= self.rows.len(),
                lawful_refs::<C>(),
                creds.len() == i,
                forall|k: int|
                    0 <= k < i ==> (#[trigger] creds@[k]).deep_view() == self.rows@[k].deep_view(),
            decreases self.rows.len() - i,
        {
            creds.push(clone_refs(&self.rows[i]));
            i = i + 1;
        }
        assert(creds.deep_view() =~= self.rows.deep_view());
        assert(ids.deep_view() =~= self.ids.deep_view());
        ById { ids, rows: creds }
    }

    /// Puts other credentials at position `at`.
    fn replace(&mut self, at: usize, creds: Vec<C>)
        requires
            old(self).well_formed(),
            at < old(self).ids.len(),
        ensures
            final(self).well_formed(),
            final(self).ids == old(self).ids,
            final(self).deep_view() == old(self).deep_view().insert(
                old(self).ids@[at as int]@,
                creds.deep_view(),
            ),
    {
        let ghost before = *self;
        self.rows.set(at, creds);
        proof {
            let now = *self;
            let id = before.ids@[at as int]@;
            assert(now.ids == before.ids);
            assert forall|x: Text| #[trigger] now.deep_view().contains_key(x) implies now.deep_view()[x]
                == before.deep_view().insert(id, creds.deep_view())[x] by {
                let all = now.ids.deep_view();
                let k = all.index_of(x);
                assert(all.contains(x));
                assert(all[k] == x);
                now.lemma_at(k);
                before.lemma_at(k);
                now.lemma_at(at as int);
            }
            before.lemma_at(at as int);
            assert(now.deep_view() =~= before.deep_view().insert(id, creds.deep_view()));
        }
    }
}

/// One way to bind transaction data.
#[derive(Debug)]
pub struct TransactionAssignment<C> {
    /// For each transaction data the credential query that authorizes it, if it is bound.
    pub transaction_credential_ids: Vec<Option<String>>,
    /// The credentials that are left to choose from.
    pub domains: Domains<C>,
}

impl<C: DeepView> DeepView for TransactionAssignment<C> {
    type V = AssignmentModel<C::V>;

    open spec fn deep_view(&self) -> AssignmentModel<C::V> {
        AssignmentModel {
            bindings: self.transaction_credential_ids.deep_view(),
            domains: self.domains.deep_view(),
        }
    }
}

/// Transaction data that has to be bound, and the credential queries that can authorize it.
#[derive(Debug)]
pub struct Task {
    pub index: usize,
    pub options: Vec<String>,
}

impl DeepView for Task {
    type V = TaskModel;

    open spec fn deep_view(&self) -> TaskModel {
        TaskModel { index: self.index as int, options: self.options.deep_view() }
    }
}

impl Clone for Task {
    fn clone(&self) -> (copy: Task)
        ensures
            copy.deep_view() == self.deep_view(),
    {
        let options = self.options.clone();
        assert(options.deep_view() =~= self.options.deep_view());
        Task { index: self.index, options }
    }
}

/// Sorts the tasks by the number of options, fewest first. Those with equally many keep their
/// order.
pub fn sort_tasks(tasks: &Vec<Task>) -> (sorted: Vec<Task>)
    ensures
        sorted.deep_view() == by_options(tasks.deep_view()),
{
    let ghost all = tasks.deep_view();
    let mut sorted: Vec<Task> = Vec::new();
    assert(sorted.deep_view() =~= by_options(all.take(0)));
    let mut i: usize = 0;
    while i < tasks.len()
        invariant
            i <= tasks.len(),
            all == tasks.deep_view(),
            sorted.deep_view() == by_options(all.take(i as int)),
        decreases tasks.len() - i,
    {
        let task = &tasks[i];
        let ghost model = task.deep_view();
        let ghost before = sorted.deep_view();
        let ghost longer = |other: TaskModel| other.options.len() > model.options.len();
        assert(all[i as int] == model);
        let mut at: usize = 0;
        while at < sorted.len() && sorted[at].options.len() <= task.options.len()
            invariant
                at <= sorted.len(),
                before == sorted.deep_view(),
                model == task.deep_view(),
                longer == (|other: TaskModel| other.options.len() > model.options.len()),
                forall|k: int| 0 <= k < at ==> !longer(#[trigger] before[k]),
            decreases sorted.len() - at,
        {
            assert(before[at as int] == sorted@[at as int].deep_view());
            at = at + 1;
        }
        proof {
            assert(all.take(i + 1).drop_last() =~= all.take(i as int));
            assert(all.take(i + 1).last() == model);
            lemma_first_where(before, longer);
            if at < sorted.len() {
                assert(before[at as int] == sorted@[at as int].deep_view());
                lemma_first_where_is(before, longer, at as int);
            }
        }
        sorted.insert(at, task.clone());
        assert(sorted.deep_view() =~= before.insert(at as int, model));
        i = i + 1;
    }
    proof {
        lemma_take_all(all);
    }
    sorted
}

/// The credentials of `domain` that can authorize `data`.
pub fn signing_refs<S: CredentialStore>(
    store: &S,
    domain: &Vec<S::CredentialRef>,
    data: &TransactionData,
) -> (left: Vec<S::CredentialRef>)
    requires
        lawful_refs::<S::CredentialRef>(),
    ensures
        left.deep_view() == signing(*store, domain.deep_view(), data.deep_view()),
{
    let ghost all = domain.deep_view();
    let ghost keep = |cred: RefModel<S>| store.can_sign(cred, data.deep_view());
    let mut left: Vec<S::CredentialRef> = Vec::new();
    assert(left.deep_view() =~= all.take(0).filter(keep));
    let mut i: usize = 0;
    while i < domain.len()
        invariant
            lawful_refs::<S::CredentialRef>(),
            i <= domain.len(),
            all == domain.deep_view(),
            keep == (|cred: RefModel<S>| store.can_sign(cred, data.deep_view())),
            left.deep_view() == all.take(i as int).filter(keep),
        decreases domain.len() - i,
    {
        proof {
            lemma_filter_step(all, keep, i as int);
        }
        if store.can_sign_transaction_data(&domain[i], data) {
            let ghost before = left.deep_view();
            left.push(domain[i].clone());
            assert(left.deep_view() =~= before.push(all[i as int]));
        }
        i = i + 1;
    }
    proof {
        lemma_take_all(all);
    }
    left
}

/// Copies bindings.
pub fn copy_bindings(bindings: &Vec<Option<String>>) -> (copy: Vec<Option<String>>)
    ensures
        copy.deep_view() == bindings.deep_view(),
{
    let mut copy: Vec<Option<String>> = Vec::new();
    let mut i: usize = 0;
    while i < bindings.len()
        invariant
            i <= bindings.len(),
            copy.len() == i,
            forall|k: int|
                0 <= k < i ==> (#[trigger] copy@[k]).deep_view() == bindings@[k].deep_view(),
        decreases bindings.len() - i,
    {
        copy.push(
            match &bindings[i] {
                Some(id) => Some(id.clone()),
                None => None,
            },
        );
        i = i + 1;
    }
    assert(copy.deep_view() =~= bindings.deep_view());
    copy
}

/// Adds to `out` all ways to bind the transaction data of the tasks from `depth` on. Bindings and
/// domains are as before afterwards.
fn backtrack_transaction_assignments<S: CredentialStore>(
    store: &S,
    data: &[TransactionData],
    tasks: &Vec<Task>,
    depth: usize,
    bindings: &mut Vec<Option<String>>,
    domains: &mut Domains<S::CredentialRef>,
    out: &mut Vec<TransactionAssignment<S::CredentialRef>>,
)
    requires
        lawful_refs::<S::CredentialRef>(),
        depth <= tasks.len(),
        old(domains).well_formed(),
        old(bindings).len() == data@.len(),
        forall|k: int| 0 <= k < tasks.len() ==> (#[trigger] tasks@[k]).index < data@.len(),
        forall|k: int| 0 <= k < old(out).len() ==> (#[trigger] old(out)@[k]).domains.well_formed(),
    ensures
        final(domains).well_formed(),
        final(domains).deep_view() == old(domains).deep_view(),
        final(bindings).deep_view() == old(bindings).deep_view(),
        forall|k: int|
            0 <= k < final(out).len() ==> (#[trigger] final(out)@[k]).domains.well_formed(),
        final(out).deep_view() == old(out).deep_view() + bound(
            *store,
            data.deep_view(),
            tasks.deep_view().skip(depth as int),
            old(bindings).deep_view(),
            old(domains).deep_view(),
        ),
    decreases tasks.len() - depth,
{
    let ghost all = data.deep_view();
    let ghost todo = tasks.deep_view().skip(depth as int);
    let ghost binds = bindings.deep_view();
    let ghost doms = domains.deep_view();
    let ghost start = out.deep_view();
    if depth == tasks.len() {
        let assignment = TransactionAssignment {
            transaction_credential_ids: copy_bindings(bindings),
            domains: domains.copy(),
        };
        out.push(assignment);
        assert(out.deep_view() =~= start + seq![AssignmentModel { bindings: binds, domains: doms }]);
        return;
    }
    let task = &tasks[depth];
    let td: usize = task.index;
    let ghost options = task.options.deep_view();
    proof {
        assert(todo[0] == task.deep_view());
        assert(todo.drop_first() =~= tasks.deep_view().skip(depth + 1));
        assert(options.take(0) =~= Seq::<Text>::empty());
        assert(start =~= start + bound_to(*store, all, todo, options.take(0), binds, doms));
    }
    let mut k: usize = 0;
    while k < task.options.len()
        invariant
            lawful_refs::<S::CredentialRef>(),
            depth < tasks.len(),
            k <= task.options.len(),
            task == tasks@[depth as int],
            td == task.index,
            td < data@.len(),
            all == data.deep_view(),
            todo == tasks.deep_view().skip(depth as int),
            todo.len() > 0,
            todo[0] == task.deep_view(),
            todo.drop_first() == tasks.deep_view().skip(depth + 1),
            options == task.options.deep_view(),
            domains.well_formed(),
            domains.deep_view() == doms,
            bindings.deep_view() == binds,
            binds.len() == data@.len(),
            forall|k: int| 0 <= k < tasks.len() ==> (#[trigger] tasks@[k]).index < data@.len(),
            forall|k: int| 0 <= k < out.len() ==> (#[trigger] out@[k]).domains.well_formed(),
            out.deep_view() == start + bound_to(
                *store,
                all,
                todo,
                options.take(k as int),
                binds,
                doms,
            ),
            lawful_refs::<S::CredentialRef>(),
        decreases task.options.len() - k,
    {
        let id = task.options[k].as_str();
        let ghost seen = options.take(k + 1);
        proof {
            assert(options[k as int] == id@);
            assert(seen.drop_last() =~= options.take(k as int));
            assert(seen.last() == id@);
            assert(all[td as int] == data@[td as int].deep_view());
        }
        k = k + 1;
        let at = match domains.position(id) {
            Some(at) => at,
            None => continue,
        };
        let left = signing_refs(store, &domains.rows[at], &data[td]);
        assert(left.deep_view().len() == left.len());
        if left.is_empty() {
            continue;
        }
        let current = clone_refs(&domains.rows[at]);
        let ghost kept = current.deep_view();
        assert(kept == doms[id@]);
        domains.replace(at, left);
        let saved = match &bindings[td] {
            Some(bound_id) => Some(bound_id.clone()),
            None => None,
        };
        assert(binds[td as int] == bindings@[td as int].deep_view());
        let ghost unbound = bindings@;
        bindings.set(td, Some(id.to_owned()));
        proof {
            assert(bindings.deep_view() =~= binds.update(td as int, Some(id@))) by {
                assert forall|j: int| 0 <= j < binds.len() implies bindings.deep_view()[j]
                    == binds.update(td as int, Some(id@))[j] by {
                    if j != td {
                        assert(bindings@[j] == unbound[j]);
                    }
                }
            }
        }
        let ghost marked = bindings.deep_view();
        let ghost before = out.deep_view();
        let ghost narrowed = domains.deep_view();
        backtrack_transaction_assignments(store, data, tasks, depth + 1, bindings, domains, out);
        let ghost rebound = bindings@;
        proof {
            assert(bindings.deep_view().len() == rebound.len());
            assert(out.deep_view() == before + bound(
                *store,
                all,
                todo.drop_first(),
                marked,
                narrowed,
            ));
        }
        bindings.set(td, saved);
        proof {
            assert(bindings.deep_view() =~= binds) by {
                assert forall|j: int| 0 <= j < binds.len() implies bindings.deep_view()[j]
                    == binds[j] by {
                    if j != td {
                        assert(marked[j] == rebound[j].deep_view());
                    }
                }
            }
        }
        let back = domains.position(id);
        match back {
            Some(at) => domains.replace(at, current),
            None => {},
        }
        proof {
            assert(domains.deep_view() =~= doms) by {
                assert(narrowed == doms.insert(id@, signing(*store, doms[id@], all[td as int])));
            }
            assert(out.deep_view() =~= start + bound_to(*store, all, todo, seen, binds, doms));
        }
    }
    proof {
        lemma_take_all(options);
    }
}

/// Whether a credential of `domain` can authorize `data`.
fn any_signs<S: CredentialStore>(
    store: &S,
    domain: &Vec<S::CredentialRef>,
    data: &TransactionData,
) -> (found: bool)
    ensures
        found == (signing(*store, domain.deep_view(), data.deep_view()).len() > 0),
{
    let ghost all = domain.deep_view();
    let ghost keep = |cred: RefModel<S>| store.can_sign(cred, data.deep_view());
    let mut i: usize = 0;
    proof {
        lemma_filter_contains(all, keep);
    }
    while i < domain.len()
        invariant
            i <= domain.len(),
            all == domain.deep_view(),
            keep == (|cred: RefModel<S>| store.can_sign(cred, data.deep_view())),
            forall|cred: RefModel<S>| #[trigger]
                all.filter(keep).contains(cred) <==> all.contains(cred) && keep(cred),
            forall|j: int| 0 <= j < i ==> !keep(#[trigger] all[j]),
        decreases domain.len() - i,
    {
        assert(all[i as int] == domain@[i as int].deep_view());
        if store.can_sign_transaction_data(&domain[i], data) {
            assert(all.contains(all[i as int]));
            assert(all.filter(keep).contains(all[i as int]));
            return true;
        }
        i = i + 1;
    }
    proof {
        if all.filter(keep).len() > 0 {
            let cred = all.filter(keep)[0];
            assert(all.filter(keep).contains(cred));
            let j = choose|j: int| 0 <= j < all.len() && all[j] == cred;
            assert(!keep(all[j]));
        }
    }
    false
}

/// The credential queries that can authorize `data`.
fn options_of<S: CredentialStore>(
    store: &S,
    domains: &Domains<S::CredentialRef>,
    data: &TransactionData,
) -> (options: Vec<String>)
    requires
        domains.well_formed(),
    ensures
        options.deep_view() == options_for(*store, domains.deep_view(), data.deep_view()),
{
    let ghost all = data.deep_view().credential_ids;
    let ghost doms = domains.deep_view();
    let ghost keep = |id: Text|
        doms.contains_key(id) && signing(*store, doms[id], data.deep_view()).len() > 0;
    let mut options: Vec<String> = Vec::new();
    assert(options.deep_view() =~= all.take(0).filter(keep));
    let mut i: usize = 0;
    while i < data.credential_ids.len()
        invariant
            i <= data.credential_ids.len(),
            domains.well_formed(),
            doms == domains.deep_view(),
            all == data.deep_view().credential_ids,
            keep == (|id: Text|
                doms.contains_key(id) && signing(*store, doms[id], data.deep_view()).len() > 0),
            options.deep_view() == all.take(i as int).filter(keep),
        decreases data.credential_ids.len() - i,
    {
        let id = data.credential_ids[i].as_str();
        proof {
            assert(all[i as int] == id@);
            lemma_filter_step(all, keep, i as int);
        }
        i = i + 1;
        let at = match domains.position(id) {
            Some(at) => at,
            None => continue,
        };
        if any_signs(store, &domains.rows[at], data) {
            let ghost before = options.deep_view();
            options.push(id.to_owned());
            assert(options.deep_view() =~= before.push(id@));
        }
    }
    proof {
        lemma_take_all(all);
    }
    options
}

/// All ways to bind the transaction data at `indices` within a combination.
pub fn enumerate_transaction_assignments<S: CredentialStore>(
    store: &S,
    config: &IdSet,
    index: &QueryIndex<'_>,
    matches: &Vec<QueryMatches<S::CredentialRef>>,
    data: &[TransactionData],
    indices: &Vec<usize>,
) -> (out: Vec<TransactionAssignment<S::CredentialRef>>)
    requires
        lawful_refs::<S::CredentialRef>(),
        index.well_formed(),
        tabled(*store, *index, matches@),
        forall|k: int| 0 <= k < indices.len() ==> (#[trigger] indices@[k]) < data@.len(),
    ensures
        out.deep_view() == assignments(
            *store,
            index@,
            config@,
            data.deep_view(),
            as_ints(indices@),
        ),
        forall|k: int| 0 <= k < out.len() ==> (#[trigger] out@[k]).domains.well_formed(),
{
    let ghost all = data.deep_view();
    let ghost start = start_domains(*store, index@, config@);
    let mut out: Vec<TransactionAssignment<S::CredentialRef>> = Vec::new();
    assert(out.deep_view() =~= Seq::<AssignmentModel<RefModel<S>>>::empty());
    let ids = config.ids();
    let ghost listed = ids.deep_view();
    let mut creds: Vec<Vec<S::CredentialRef>> = Vec::new();
    let mut i: usize = 0;
    while i < ids.len()
        invariant
            lawful_refs::<S::CredentialRef>(),
            i <= ids.len(),
            index.well_formed(),
            tabled(*store, *index, matches@),
            listed == ids.deep_view(),
            listed.to_set() == config@,
            lawful_refs::<S::CredentialRef>(),
            out.deep_view() == Seq::<AssignmentModel<RefModel<S>>>::empty(),
            out.len() == 0,
            creds.len() == i,
            forall|k: int|
                0 <= k < i ==> has_match(*store, index@, #[trigger] listed[k])
                    && creds@[k].deep_view() == candidates(*store, index@.queries[listed[k]]),
        decreases ids.len() - i,
    {
        let id = ids[i].as_str();
        proof {
            assert(listed[i as int] == id@);
            assert(listed.to_set().contains(id@));
        }
        let at = match index.position(id) {
            Some(at) => at,
            None => {
                assert(!config@.subset_of(matched_ids(*store, index@)));
                return out;
            },
        };
        let found = &matches[at].credentials;
        assert(found.deep_view().len() == found.len());
        if found.is_empty() {
            assert(!config@.subset_of(matched_ids(*store, index@)));
            return out;
        }
        creds.push(clone_refs(found));
        i = i + 1;
    }
    let copy = ids.clone();
    assert(copy.deep_view() =~= listed);
    let mut domains = ById { ids: copy, rows: creds };
    proof {
        assert forall|id: Text| config@.contains(id) implies matched_ids(
            *store,
            index@,
        ).contains(id) by {
            assert(listed.contains(id)) by {
                assert(listed.to_set().contains(id));
            }
            let k = choose|k: int| 0 <= k < listed.len() && listed[k] == id;
            assert(has_match(*store, index@, listed[k]));
        }
        assert(domains.deep_view() =~= start) by {
            assert forall|id: Text| #[trigger]
                domains.deep_view().contains_key(id) <==> start.contains_key(id) by {
                assert(listed.to_set().contains(id) <==> listed.contains(id));
            }
            assert forall|id: Text| #[trigger] domains.deep_view().contains_key(id) implies
                domains.deep_view()[id] == start[id] by {
                let k = choose|k: int| 0 <= k < listed.len() && listed[k] == id;
                domains.lemma_at(k);
                assert(domains.ids@[k]@ == domains.ids.deep_view()[k]);
            }
        }
    }
    let ghost ints = as_ints(indices@);
    let ghost wanted = tasks_for(*store, start, all, ints);
    let mut tasks: Vec<Task> = Vec::new();
    let mut j: usize = 0;
    while j < indices.len()
        invariant
            lawful_refs::<S::CredentialRef>(),
            j <= indices.len(),
            domains.well_formed(),
            domains.deep_view() == start,
            all == data.deep_view(),
            ints == as_ints(indices@),
            wanted == tasks_for(*store, start, all, ints),
            start == start_domains(*store, index@, config@),
            config@.subset_of(matched_ids(*store, index@)),
            forall|k: int| 0 <= k < indices.len() ==> (#[trigger] indices@[k]) < data@.len(),
            out.deep_view() == Seq::<AssignmentModel<RefModel<S>>>::empty(),
            out.len() == 0,
            tasks.len() == j,
            forall|k: int|
                0 <= k < j ==> (#[trigger] tasks@[k]).deep_view() == wanted[k]
                    && wanted[k].options.len() > 0 && tasks@[k].index < data@.len(),
        decreases indices.len() - j,
    {
        let td: usize = indices[j];
        let options = options_of(store, &domains, &data[td]);
        proof {
            assert(ints[j as int] == td);
            assert(all[td as int] == data@[td as int].deep_view());
            assert(options.deep_view().len() == options.len());
        }
        if options.is_empty() {
            assert(wanted[j as int].options.len() == 0);
            return out;
        }
        tasks.push(Task { index: td, options });
        j = j + 1;
    }
    assert(tasks.deep_view() =~= wanted);
    let sorted = sort_tasks(&tasks);
    proof {
        lemma_by_options(wanted);
        assert forall|k: int| 0 <= k < sorted.len() implies (#[trigger] sorted@[k]).index
            < data@.len() by {
            let model = sorted.deep_view()[k];
            assert(by_options(wanted).contains(model));
            assert(wanted.contains(model));
            let m = choose|m: int| 0 <= m < wanted.len() && wanted[m] == model;
            assert(tasks@[m].deep_view() == model);
        }
        assert(sorted.deep_view().skip(0) =~= sorted.deep_view());
    }
    let mut bindings: Vec<Option<String>> = Vec::new();
    let mut n: usize = 0;
    while n < data.len()
        invariant
            lawful_refs::<S::CredentialRef>(),
            n <= data@.len(),
            bindings.len() == n,
            forall|k: int| 0 <= k < n ==> (#[trigger] bindings@[k]).deep_view() is None,
        decreases data@.len() - n,
    {
        bindings.push(None);
        n = n + 1;
    }
    assert(bindings.deep_view() =~= no_bindings(all.len()));
    backtrack_transaction_assignments(
        store,
        data,
        &sorted,
        0,
        &mut bindings,
        &mut domains,
        &mut out,
    );
    out
}

/// The sorted list holds the same tasks, fewest options first.
pub proof fn lemma_by_options(tasks: Seq<TaskModel>)
    ensures
        by_options(tasks).to_multiset() == tasks.to_multiset(),
        by_options(tasks).len() == tasks.len(),
        forall|task: TaskModel| #[trigger]
            by_options(tasks).contains(task) <==> tasks.contains(task),
        forall|i: int, j: int|
            0 <= i < j < tasks.len() ==> (#[trigger] by_options(tasks)[i]).options.len() <= (
            #[trigger] by_options(tasks)[j]).options.len(),
    decreases tasks.len(),
{
    broadcast use {
        vstd::seq_lib::group_to_multiset_ensures,
        vstd::multiset::group_multiset_axioms,
    };

    if tasks.len() > 0 {
        let rest = tasks.drop_last();
        let task = tasks.last();
        let sorted = by_options(rest);
        let at = place_for(sorted, task);
        let longer = |other: TaskModel| other.options.len() > task.options.len();
        lemma_by_options(rest);
        lemma_first_where(sorted, longer);
        let now = by_options(tasks);
        assert(now == sorted.insert(at, task));
        assert(tasks =~= rest.push(task));
        assert(now.to_multiset() =~= sorted.to_multiset().insert(task)) by {
            assert(now.remove(at) =~= sorted);
            assert(now[at] == task);
            assert(now.contains(task));
            assert(now.to_multiset().remove(task).insert(task) =~= now.to_multiset());
        }
        assert forall|i: int, j: int| 0 <= i < j < tasks.len() implies (
        #[trigger] now[i]).options.len() <= (#[trigger] now[j]).options.len() by {
            let a = if i < at {
                i
            } else {
                i - 1
            };
            let b = if j < at {
                j
            } else {
                j - 1
            };
            if i < at {
                assert(now[i] == sorted[i]);
                assert(!longer(sorted[i]));
            }
            if j > at {
                assert(now[j] == sorted[j - 1]);
            }
            if i == at {
                assert(longer(sorted[at]));
                if j - 1 > at {
                    assert(sorted[at].options.len() <= sorted[j - 1].options.len());
                }
            } else if j != at {
                assert(now[i] == sorted[a]);
                assert(now[j] == sorted[b]);
                if a < b {
                    assert(sorted[a].options.len() <= sorted[b].options.len());
                }
            }
        }
    }
    let now = by_options(tasks);
    assert forall|task: TaskModel| #[trigger] now.contains(task) <==> tasks.contains(task) by {
        assert(now.to_multiset().contains(task) <==> now.contains(task));
        assert(tasks.to_multiset().contains(task) <==> tasks.contains(task));
    }
}

/// Whether transaction data is bound to a credential query that it names, and all credentials
/// that are left for that query can authorize it.
pub open spec fn settled<S: CredentialStore>(
    store: S,
    data: Seq<TransactionDataModel>,
    assignment: AssignmentModel<RefModel<S>>,
    index: int,
) -> bool {
    match assignment.bindings[index] {
        Some(id) => {
            &&& data[index].credential_ids.contains(id)
            &&& assignment.domains.contains_key(id)
            &&& forall|cred: RefModel<S>| #[trigger]
                assignment.domains[id].contains(cred) ==> store.can_sign(cred, data[index])
        },
        None => false,
    }
}

/// Whether the domains are what is left of earlier ones, none of them empty that was not.
pub open spec fn narrowed<R>(now: DomainsModel<R>, before: DomainsModel<R>) -> bool {
    &&& now.dom() == before.dom()
    &&& forall|id: Text, cred: R|
        before.contains_key(id) && #[trigger] now[id].contains(cred) ==> before[id].contains(cred)
    &&& forall|id: Text| #[trigger]
        before.contains_key(id) && before[id].len() > 0 ==> now[id].len() > 0
}

/// Whether tasks stand for different transaction data, with options that the data names.
pub open spec fn proper_tasks(tasks: Seq<TaskModel>, data: Seq<TransactionDataModel>) -> bool {
    &&& forall|k: int| 0 <= k < tasks.len() ==> 0 <= (#[trigger] tasks[k]).index < data.len()
    &&& forall|k: int, id: Text|
        0 <= k < tasks.len() && #[trigger] tasks[k].options.contains(id)
            ==> data[tasks[k].index].credential_ids.contains(id)
    &&& forall|i: int, j: int|
        0 <= i < j < tasks.len() ==> (#[trigger] tasks[i]).index != (#[trigger] tasks[j]).index
}

proof fn lemma_bound_to<S: CredentialStore>(
    store: S,
    data: Seq<TransactionDataModel>,
    tasks: Seq<TaskModel>,
    ids: Seq<Text>,
    bindings: Seq<Option<Text>>,
    domains: DomainsModel<RefModel<S>>,
    assignment: AssignmentModel<RefModel<S>>,
) -> (id: Text)
    requires
        tasks.len() > 0,
        bound_to(store, data, tasks, ids, bindings, domains).contains(assignment),
    ensures
        ids.contains(id),
        domains.contains_key(id),
        signing(store, domains[id], data[tasks[0].index]).len() > 0,
        bound(
            store,
            data,
            tasks.drop_first(),
            bindings.update(tasks[0].index, Some(id)),
            domains.insert(id, signing(store, domains[id], data[tasks[0].index])),
        ).contains(assignment),
    decreases ids.len(),
{
    let id = ids.last();
    let index = tasks[0].index;
    let left = signing(store, domains[id], data[index]);
    let earlier = bound_to(store, data, tasks, ids.drop_last(), bindings, domains);
    if earlier.contains(assignment) {
        let found = lemma_bound_to(
            store,
            data,
            tasks,
            ids.drop_last(),
            bindings,
            domains,
            assignment,
        );
        let k = choose|k: int| 0 <= k < ids.drop_last().len() && ids.drop_last()[k] == found;
        assert(ids[k] == found);
        found
    } else {
        let later = bound(
            store,
            data,
            tasks.drop_first(),
            bindings.update(index, Some(id)),
            domains.insert(id, left),
        );
        lemma_add_contains(earlier, later, assignment);
        assert(ids[ids.len() - 1] == id);
        id
    }
}

proof fn lemma_bound<S: CredentialStore>(
    store: S,
    data: Seq<TransactionDataModel>,
    tasks: Seq<TaskModel>,
    bindings: Seq<Option<Text>>,
    domains: DomainsModel<RefModel<S>>,
    assignment: AssignmentModel<RefModel<S>>,
)
    requires
        bound(store, data, tasks, bindings, domains).contains(assignment),
        proper_tasks(tasks, data),
        bindings.len() == data.len(),
    ensures
        assignment.bindings.len() == data.len(),
        narrowed(assignment.domains, domains),
        forall|i: int|
            0 <= i < data.len() && (forall|k: int|
                0 <= k < tasks.len() ==> (#[trigger] tasks[k]).index != i)
                ==> #[trigger] assignment.bindings[i] == bindings[i],
        forall|k: int|
            0 <= k < tasks.len() ==> settled(store, data, assignment, (#[trigger] tasks[k]).index),
    decreases tasks.len(),
{
    if tasks.len() > 0 {
        let id = lemma_bound_to(
            store,
            data,
            tasks,
            tasks[0].options,
            bindings,
            domains,
            assignment,
        );
        let index = tasks[0].index;
        let keep = |cred: RefModel<S>| store.can_sign(cred, data[index]);
        let left = signing(store, domains[id], data[index]);
        let rest = tasks.drop_first();
        let next = bindings.update(index, Some(id));
        let smaller = domains.insert(id, left);
        assert(proper_tasks(rest, data)) by {
            assert forall|k: int, x: Text|
                0 <= k < rest.len() && #[trigger] rest[k].options.contains(x) implies data[rest[k].index].credential_ids.contains(
            x) by {
                assert(tasks[k + 1].options.contains(x));
            }
            assert forall|i: int, j: int| 0 <= i < j < rest.len() implies (
            #[trigger] rest[i]).index != (#[trigger] rest[j]).index by {
                assert(tasks[i + 1].index != tasks[j + 1].index);
            }
            assert forall|k: int| 0 <= k < rest.len() implies 0 <= (#[trigger] rest[k]).index
                < data.len() by {
                assert(tasks[k + 1] == rest[k]);
            }
        }
        lemma_bound(store, data, rest, next, smaller, assignment);
        lemma_filter_contains(domains[id], keep);
        assert(smaller.dom() =~= domains.dom());
        assert forall|x: Text, cred: RefModel<S>|
            domains.contains_key(x) && #[trigger] assignment.domains[x].contains(
                cred,
            ) implies domains[x].contains(cred) by {
            assert(smaller[x].contains(cred));
        }
        assert forall|x: Text| #[trigger]
            domains.contains_key(x) && domains[x].len() > 0 implies assignment.domains[x].len()
            > 0 by {
            assert(smaller.contains_key(x));
        }
        assert forall|k: int| 0 <= k < rest.len() implies (#[trigger] rest[k]).index != index by {
            assert(tasks[0].index != tasks[k + 1].index);
        }
        assert(assignment.bindings[index] == next[index]);
        assert forall|cred: RefModel<S>| #[trigger]
            assignment.domains[id].contains(cred) implies store.can_sign(cred, data[index]) by {
            assert(smaller[id].contains(cred));
            assert(domains[id].filter(keep).contains(cred));
        }
        assert(settled(store, data, assignment, index)) by {
            assert(tasks[0].options.contains(id));
        }
        assert forall|k: int| 0 <= k < tasks.len() implies settled(
            store,
            data,
            assignment,
            (#[trigger] tasks[k]).index,
        ) by {
            if k > 0 {
                assert(tasks[k] == rest[k - 1]);
            }
        }
        assert forall|i: int|
            0 <= i < data.len() && (forall|k: int|
                0 <= k < tasks.len() ==> (#[trigger] tasks[k]).index
                    != i) implies #[trigger] assignment.bindings[i] == bindings[i] by {
            assert(tasks[0].index != i);
            assert forall|k: int| 0 <= k < rest.len() implies (#[trigger] rest[k]).index != i by {
                assert(tasks[k + 1].index != i);
            }
            assert(assignment.bindings[i] == next[i]);
        }
    }
}

/// What has to be bound stands for different transaction data, with options that the data names.
proof fn lemma_sorted_proper<S: CredentialStore>(
    store: S,
    domains: DomainsModel<RefModel<S>>,
    data: Seq<TransactionDataModel>,
    indices: Seq<int>,
)
    requires
        indices.no_duplicates(),
        forall|k: int| 0 <= k < indices.len() ==> 0 <= #[trigger] indices[k] < data.len(),
    ensures
        proper_tasks(by_options(tasks_for(store, domains, data, indices)), data),
{
    let tasks = tasks_for(store, domains, data, indices);
    let sorted = by_options(tasks);
    lemma_by_options(tasks);
    assert(proper_tasks(sorted, data)) by {
        assert forall|k: int| 0 <= k < sorted.len() implies 0 <= (#[trigger] sorted[k]).index
            < data.len() by {
            assert(sorted.contains(sorted[k]));
            let m = choose|m: int| 0 <= m < tasks.len() && tasks[m] == sorted[k];
            assert(tasks[m].index == indices[m]);
        }
        assert forall|k: int, id: Text|
            0 <= k < sorted.len() && #[trigger] sorted[k].options.contains(id) implies data[sorted[k].index].credential_ids.contains(
        id) by {
            assert(sorted.contains(sorted[k]));
            let m = choose|m: int| 0 <= m < tasks.len() && tasks[m] == sorted[k];
            let named = data[indices[m]].credential_ids;
            lemma_filter_contains(
                named,
                |id: Text|
                    domains.contains_key(id) && signing(
                        store,
                        domains[id],
                        data[indices[m]],
                    ).len() > 0,
            );
        }
        lemma_sorted_tasks_differ(tasks, indices);
    }
}

/// Every way to bind transaction data is sound: all of it is bound, each to a credential query of
/// the combination that it names, and only credentials that can authorize it are left there. No
/// query of the combination runs out of credentials, and none gains any. Nothing else is bound.
pub proof fn lemma_assignments_are_sound<S: CredentialStore>(
    store: S,
    table: QueryTable,
    config: Config,
    data: Seq<TransactionDataModel>,
    indices: Seq<int>,
    assignment: AssignmentModel<RefModel<S>>,
)
    requires
        assignments(store, table, config, data, indices).contains(assignment),
        indices.no_duplicates(),
        forall|k: int| 0 <= k < indices.len() ==> 0 <= #[trigger] indices[k] < data.len(),
    ensures
        assignment.bindings.len() == data.len(),
        forall|k: int|
            0 <= k < indices.len() ==> settled(store, data, assignment, #[trigger] indices[k]),
        narrowed(assignment.domains, start_domains(store, table, config)),
        forall|id: Text| #[trigger]
            config.contains(id) ==> assignment.domains.contains_key(id)
                && assignment.domains[id].len() > 0,
        forall|i: int|
            0 <= i < data.len() && !indices.contains(i)
                ==> #[trigger] assignment.bindings[i] is None,
{
    let domains = start_domains(store, table, config);
    let tasks = tasks_for(store, domains, data, indices);
    let sorted = by_options(tasks);
    lemma_by_options(tasks);
    lemma_sorted_proper(store, domains, data, indices);
    lemma_bound(store, data, sorted, no_bindings(data.len()), domains, assignment);
    assert forall|k: int| 0 <= k < indices.len() implies settled(
        store,
        data,
        assignment,
        #[trigger] indices[k],
    ) by {
        assert(tasks[k].index == indices[k]);
        assert(tasks.contains(tasks[k]));
        assert(sorted.contains(tasks[k]));
        let m = choose|m: int| 0 <= m < sorted.len() && sorted[m] == tasks[k];
        assert(settled(store, data, assignment, sorted[m].index));
    }
    assert forall|id: Text| #[trigger] config.contains(id) implies assignment.domains.contains_key(
        id,
    ) && assignment.domains[id].len() > 0 by {
        assert(matched_ids(store, table).contains(id));
        assert(domains.contains_key(id));
        assert(assignment.domains.dom().contains(id));
    }
    assert forall|i: int|
        0 <= i < data.len() && !indices.contains(
            i,
        ) implies #[trigger] assignment.bindings[i] is None by {
        assert forall|k: int| 0 <= k < sorted.len() implies (#[trigger] sorted[k]).index != i by {
            assert(sorted.contains(sorted[k]));
            let m = choose|m: int| 0 <= m < tasks.len() && tasks[m] == sorted[k];
            assert(tasks[m].index == indices[m]);
            assert(indices.contains(indices[m]));
        }
        assert(assignment.bindings[i] == no_bindings(data.len())[i]);
    }
}

/// Sorting keeps different tasks different.
proof fn lemma_sorted_tasks_differ(tasks: Seq<TaskModel>, indices: Seq<int>)
    requires
        tasks.len() == indices.len(),
        indices.no_duplicates(),
        forall|k: int| 0 <= k < tasks.len() ==> (#[trigger] tasks[k]).index == indices[k],
    ensures
        forall|i: int, j: int|
            0 <= i < j < by_options(tasks).len() ==> (#[trigger] by_options(tasks)[i]).index != (
            #[trigger] by_options(tasks)[j]).index,
    decreases tasks.len(),
{
    if tasks.len() > 0 {
        let rest = tasks.drop_last();
        let task = tasks.last();
        let sorted = by_options(rest);
        let at = place_for(sorted, task);
        lemma_sorted_tasks_differ(rest, indices.drop_last());
        lemma_by_options(rest);
        lemma_first_where(
            sorted,
            |other: TaskModel| other.options.len() > task.options.len(),
        );
        assert forall|k: int| 0 <= k < sorted.len() implies (#[trigger] sorted[k]).index
            != task.index by {
            assert(sorted.contains(sorted[k]));
            let m = choose|m: int| 0 <= m < rest.len() && rest[m] == sorted[k];
            assert(tasks[m] == rest[m]);
            assert(tasks[tasks.len() - 1] == task);
        }
        let now = by_options(tasks);
        assert forall|i: int, j: int| 0 <= i < j < now.len() implies (#[trigger] now[i]).index != (
        #[trigger] now[j]).index by {
            let a = if i < at {
                i
            } else {
                i - 1
            };
            let b = if j < at {
                j
            } else {
                j - 1
            };
            if i == at {
                assert(now[j] == sorted[b]);
            } else if j == at {
                assert(now[i] == sorted[a]);
            } else {
                assert(now[i] == sorted[a] && now[j] == sorted[b]);
            }
        }
    }
}

/// Whether a credential can authorize all transaction data of the tasks that is bound to its query.
spec fn serves<S: CredentialStore>(
    store: S,
    data: Seq<TransactionDataModel>,
    tasks: Seq<TaskModel>,
    bindings: Seq<Option<Text>>,
    id: Text,
    cred: RefModel<S>,
) -> bool {
    forall|k: int|
        0 <= k < tasks.len() && bindings[(#[trigger] tasks[k]).index] == Some(id)
            ==> store.can_sign(cred, data[tasks[k].index])
}

proof fn lemma_bound_to_holds<S: CredentialStore>(
    store: S,
    data: Seq<TransactionDataModel>,
    tasks: Seq<TaskModel>,
    ids: Seq<Text>,
    bindings: Seq<Option<Text>>,
    domains: DomainsModel<RefModel<S>>,
    id: Text,
    assignment: AssignmentModel<RefModel<S>>,
)
    requires
        tasks.len() > 0,
        ids.contains(id),
        domains.contains_key(id),
        signing(store, domains[id], data[tasks[0].index]).len() > 0,
        bound(
            store,
            data,
            tasks.drop_first(),
            bindings.update(tasks[0].index, Some(id)),
            domains.insert(id, signing(store, domains[id], data[tasks[0].index])),
        ).contains(assignment),
    ensures
        bound_to(store, data, tasks, ids, bindings, domains).contains(assignment),
    decreases ids.len(),
{
    let last = ids.last();
    let index = tasks[0].index;
    let rest = ids.drop_last();
    let earlier = bound_to(store, data, tasks, rest, bindings, domains);
    let later = bound(
        store,
        data,
        tasks.drop_first(),
        bindings.update(index, Some(last)),
        domains.insert(last, signing(store, domains[last], data[index])),
    );
    if id != last {
        let k = choose|k: int| 0 <= k < ids.len() && ids[k] == id;
        assert(rest[k] == id);
        lemma_bound_to_holds(store, data, tasks, rest, bindings, domains, id, assignment);
    }
    lemma_add_contains(earlier, later, assignment);
}

/// The way to bind that [`bound`] lists for given bindings.
proof fn lemma_bound_holds<S: CredentialStore>(
    store: S,
    data: Seq<TransactionDataModel>,
    tasks: Seq<TaskModel>,
    bindings: Seq<Option<Text>>,
    domains: DomainsModel<RefModel<S>>,
    goal: Seq<Option<Text>>,
) -> (assignment: AssignmentModel<RefModel<S>>)
    requires
        proper_tasks(tasks, data),
        bindings.len() == data.len(),
        goal.len() == data.len(),
        forall|i: int|
            0 <= i < data.len() && (forall|k: int|
                0 <= k < tasks.len() ==> (#[trigger] tasks[k]).index != i)
                ==> #[trigger] goal[i] == bindings[i],
        forall|k: int|
            0 <= k < tasks.len() ==> match goal[(#[trigger] tasks[k]).index] {
                Some(id) => tasks[k].options.contains(id) && domains.contains_key(id),
                None => false,
            },
        forall|id: Text| #[trigger]
            domains.contains_key(id) ==> exists|cred: RefModel<S>| #[trigger]
                domains[id].contains(cred) && serves(store, data, tasks, goal, id, cred),
    ensures
        bound(store, data, tasks, bindings, domains).contains(assignment),
        assignment.bindings == goal,
    decreases tasks.len(),
{
    if tasks.len() == 0 {
        assert(goal =~= bindings);
        let assignment = AssignmentModel { bindings, domains };
        assert(bound(store, data, tasks, bindings, domains)[0] == assignment);
        assignment
    } else {
        let index = tasks[0].index;
        let id = goal[index]->0;
        let rest = tasks.drop_first();
        let left = signing(store, domains[id], data[index]);
        let keep = |cred: RefModel<S>| store.can_sign(cred, data[index]);
        let next = bindings.update(index, Some(id));
        let smaller = domains.insert(id, left);
        assert(tasks[0].options.contains(id) && domains.contains_key(id));
        lemma_filter_contains(domains[id], keep);
        assert forall|x: Text| #[trigger] smaller.contains_key(x) implies exists|cred: RefModel<S>| #[trigger]
            smaller[x].contains(cred) && serves(store, data, rest, goal, x, cred) by {
            assert(domains.contains_key(x));
            let cred = choose|cred: RefModel<S>| #[trigger]
                domains[x].contains(cred) && serves(store, data, tasks, goal, x, cred);
            assert(serves(store, data, rest, goal, x, cred)) by {
                assert forall|k: int|
                    0 <= k < rest.len() && goal[(#[trigger] rest[k]).index] == Some(
                        x,
                    ) implies store.can_sign(cred, data[rest[k].index]) by {
                    assert(tasks[k + 1] == rest[k]);
                }
            }
            if x == id {
                assert(goal[tasks[0].index] == Some(id));
                assert(keep(cred));
            }
            assert(smaller[x].contains(cred));
        }
        assert(smaller.contains_key(id));
        assert(left.len() > 0) by {
            let cred = choose|cred: RefModel<S>| #[trigger]
                smaller[id].contains(cred) && serves(store, data, rest, goal, id, cred);
            assert(left.contains(cred));
        }
        assert(proper_tasks(rest, data)) by {
            assert forall|k: int, x: Text|
                0 <= k < rest.len() && #[trigger] rest[k].options.contains(x) implies data[rest[k].index].credential_ids.contains(
            x) by {
                assert(tasks[k + 1].options.contains(x));
            }
            assert forall|i: int, j: int| 0 <= i < j < rest.len() implies (
            #[trigger] rest[i]).index != (#[trigger] rest[j]).index by {
                assert(tasks[i + 1].index != tasks[j + 1].index);
            }
            assert forall|k: int| 0 <= k < rest.len() implies 0 <= (#[trigger] rest[k]).index
                < data.len() by {
                assert(tasks[k + 1] == rest[k]);
            }
        }
        assert forall|i: int|
            0 <= i < data.len() && (forall|k: int|
                0 <= k < rest.len() ==> (#[trigger] rest[k]).index != i) implies #[trigger] goal[i]
            == next[i] by {
            if i != index {
                assert forall|k: int| 0 <= k < tasks.len() implies (
                #[trigger] tasks[k]).index != i by {
                    if k > 0 {
                        assert(rest[k - 1] == tasks[k]);
                    }
                }
            }
        }
        assert forall|k: int| 0 <= k < rest.len() implies match goal[(#[trigger] rest[k]).index] {
            Some(x) => rest[k].options.contains(x) && smaller.contains_key(x),
            None => false,
        } by {
            assert(tasks[k + 1] == rest[k]);
        }
        let assignment = lemma_bound_holds(store, data, rest, next, smaller, goal);
        lemma_bound_to_holds(
            store,
            data,
            tasks,
            tasks[0].options,
            bindings,
            domains,
            id,
            assignment,
        );
        assignment
    }
}

/// Whether a candidate for a credential query can authorize all transaction data that is bound to
/// the query.
pub open spec fn served<S: CredentialStore>(
    store: S,
    table: QueryTable,
    data: Seq<TransactionDataModel>,
    bindings: Seq<Option<Text>>,
    id: Text,
) -> bool {
    exists|cred: RefModel<S>| #[trigger]
        candidates(store, table.queries[id]).contains(cred) && forall|i: int|
            0 <= i < data.len() && #[trigger] bindings[i] == Some(id) ==> store.can_sign(
                cred,
                data[i],
            )
}

/// Every way to bind transaction data is listed: if all of it is bound, each to a credential query
/// of the combination that it names, nothing else is bound, and each query of the combination has
/// a candidate that can authorize all that is bound to it.
pub proof fn lemma_assignments_are_complete<S: CredentialStore>(
    store: S,
    table: QueryTable,
    config: Config,
    data: Seq<TransactionDataModel>,
    indices: Seq<int>,
    bindings: Seq<Option<Text>>,
) -> (assignment: AssignmentModel<RefModel<S>>)
    requires
        config.subset_of(matched_ids(store, table)),
        indices.no_duplicates(),
        forall|k: int| 0 <= k < indices.len() ==> 0 <= #[trigger] indices[k] < data.len(),
        bindings.len() == data.len(),
        forall|i: int|
            0 <= i < data.len() ==> match #[trigger] bindings[i] {
                Some(id) => indices.contains(i) && config.contains(id)
                    && data[i].credential_ids.contains(id),
                None => !indices.contains(i),
            },
        forall|id: Text| #[trigger]
            config.contains(id) ==> served(store, table, data, bindings, id),
    ensures
        assignments(store, table, config, data, indices).contains(assignment),
        assignment.bindings == bindings,
{
    let domains = start_domains(store, table, config);
    let tasks = tasks_for(store, domains, data, indices);
    let sorted = by_options(tasks);
    assert forall|k: int| 0 <= k < tasks.len() implies match bindings[(#[trigger] tasks[k]).index] {
        Some(id) => tasks[k].options.contains(id) && domains.contains_key(id),
        None => false,
    } by {
        let i = indices[k];
        assert(tasks[k].index == i);
        assert(indices.contains(i));
        let id = bindings[i]->0;
        assert(bindings[i] == Some(id));
        assert(config.contains(id));
        assert(served(store, table, data, bindings, id));
        let cred = choose|cred: RefModel<S>| #[trigger]
            candidates(store, table.queries[id]).contains(cred) && forall|i: int|
                0 <= i < data.len() && #[trigger] bindings[i] == Some(id) ==> store.can_sign(
                    cred,
                    data[i],
                );
        let keep = |cred: RefModel<S>| store.can_sign(cred, data[i]);
        lemma_filter_contains(domains[id], keep);
        assert(signing(store, domains[id], data[i]).contains(cred));
        lemma_filter_contains(
            data[i].credential_ids,
            |id: Text| domains.contains_key(id) && signing(store, domains[id], data[i]).len() > 0,
        );
    }
    lemma_by_options(tasks);
    lemma_sorted_proper(store, domains, data, indices);
    assert forall|k: int| 0 <= k < sorted.len() implies match bindings[(
    #[trigger] sorted[k]).index] {
        Some(id) => sorted[k].options.contains(id) && domains.contains_key(id),
        None => false,
    } by {
        assert(sorted.contains(sorted[k]));
        let m = choose|m: int| 0 <= m < tasks.len() && tasks[m] == sorted[k];
        assert(tasks[m].index == sorted[k].index);
    }
    assert forall|i: int|
        0 <= i < data.len() && (forall|k: int|
            0 <= k < sorted.len() ==> (#[trigger] sorted[k]).index != i) implies #[trigger] bindings[i]
        == no_bindings(data.len())[i] by {
        if indices.contains(i) {
            let m = choose|m: int| 0 <= m < indices.len() && indices[m] == i;
            assert(tasks[m].index == i);
            assert(tasks.contains(tasks[m]));
            assert(sorted.contains(tasks[m]));
            let k = choose|k: int| 0 <= k < sorted.len() && sorted[k] == tasks[m];
            assert(sorted[k].index == i);
        }
    }
    assert forall|id: Text| #[trigger] domains.contains_key(id) implies exists|cred: RefModel<S>| #[trigger]
        domains[id].contains(cred) && serves(store, data, sorted, bindings, id, cred) by {
        assert(config.contains(id));
        assert(served(store, table, data, bindings, id));
        let cred = choose|cred: RefModel<S>| #[trigger]
            candidates(store, table.queries[id]).contains(cred) && forall|i: int|
                0 <= i < data.len() && #[trigger] bindings[i] == Some(id) ==> store.can_sign(
                    cred,
                    data[i],
                );
        assert(domains[id].contains(cred));
        assert(serves(store, data, sorted, bindings, id, cred)) by {
            assert forall|k: int|
                0 <= k < sorted.len() && bindings[(#[trigger] sorted[k]).index] == Some(
                    id,
                ) implies store.can_sign(cred, data[sorted[k].index]) by {
                assert(0 <= sorted[k].index < data.len());
            }
        }
    }
    assert forall|k: int| 0 <= k < tasks.len() implies (#[trigger] tasks[k]).options.len() != 0 by {
        assert(bindings[tasks[k].index] is Some);
    }
    lemma_bound_holds(store, data, sorted, no_bindings(data.len()), domains, bindings)
}

} // verus!
