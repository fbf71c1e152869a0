//! The credential queries of a request, by id.

use crate::hashsets::{text_set_contents, TextSet};
use crate::models::{CredentialQuery, CredentialQueryModel};
use crate::store::CredentialFormat;
use crate::text::{same_text, Text};
use vstd::prelude::*;

verus! {

broadcast use vstd::string::group_string_axioms;

/// The credential queries that count: for every id the first query that has it. Queries of an
/// unknown format have no id, and so do not count.
pub struct QueryTable {
    /// The ids in the order of their first appearance.
    pub order: Seq<Text>,
    /// The query behind each id.
    pub queries: Map<Text, CredentialQueryModel>,
}

/// The table of a list of credential queries.
pub open spec fn query_table(credentials: Seq<CredentialQueryModel>) -> QueryTable
    decreases credentials.len(),
{
    if credentials.len() == 0 {
        QueryTable { order: Seq::empty(), queries: Map::empty() }
    } else {
        let earlier = query_table(credentials.drop_last());
        match credentials.last().id() {
            Some(id) => if earlier.queries.contains_key(id) {
                earlier
            } else {
                QueryTable {
                    order: earlier.order.push(id),
                    queries: earlier.queries.insert(id, credentials.last()),
                }
            },
            None => earlier,
        }
    }
}

/// Whether transaction data can be bound to credentials of this query: an SD-JWT credential that
/// need not be bound to its holder cannot authorize anything.
pub open spec fn supports_transaction_data(query: CredentialQueryModel) -> bool {
    query.format() != CredentialFormat::DcSdJwt || query.holder_binding() != Some(false)
}

impl QueryTable {
    /// Whether transaction data can be bound to the query with this id.
    pub open spec fn is_target(self, id: Text) -> bool {
        self.queries.contains_key(id) && supports_transaction_data(self.queries[id])
    }

    /// The table lists exactly the ids that it has queries for, each once.
    pub open spec fn well_formed(self) -> bool {
        &&& self.order.no_duplicates()
        &&& forall|id: Text| #[trigger]
            self.order.contains(id) <==> self.queries.contains_key(id)
        &&& forall|id: Text| #[trigger]
            self.queries.contains_key(id) ==> self.queries[id].id() == Some(id)
    }
}

/// Every table is well formed.
pub proof fn lemma_query_table(credentials: Seq<CredentialQueryModel>)
    ensures
        query_table(credentials).well_formed(),
        query_table(credentials).order.len() <= credentials.len(),
    decreases credentials.len(),
{
    if credentials.len() > 0 {
        let earlier = query_table(credentials.drop_last());
        lemma_query_table(credentials.drop_last());
        let table = query_table(credentials);
        if let Some(id) = credentials.last().id() {
            if !earlier.queries.contains_key(id) {
                assert(!earlier.order.contains(id));
                assert forall|x: Text| #[trigger]
                    table.order.contains(x) <==> table.queries.contains_key(x) by {
                    crate::seqs::lemma_push_contains(earlier.order, id, x);
                }
                assert forall|i: int, j: int|
                    0 <= i < j < table.order.len() implies table.order[i] != table.order[j] by {
                    if j == earlier.order.len() {
                        assert(earlier.order.contains(earlier.order[i]));
                    }
                }
            }
        }
    }
}

/// A credential query whose id an earlier query has is ignored.
pub proof fn lemma_duplicate_ids_are_ignored(
    before: Seq<CredentialQueryModel>,
    query: CredentialQueryModel,
    after: Seq<CredentialQueryModel>,
)
    requires
        query.id() is Some,
        exists|i: int| 0 <= i < before.len() && (#[trigger] before[i]).id() == query.id(),
    ensures
        query_table(before.push(query) + after) == query_table(before + after),
    decreases after.len(),
{
    if after.len() == 0 {
        assert(before.push(query) + after =~= before.push(query));
        assert(before + after =~= before);
        assert(before.push(query).drop_last() =~= before);
        let i = choose|i: int| 0 <= i < before.len() && (#[trigger] before[i]).id() == query.id();
        lemma_table_has_ids(before, i);
    } else {
        lemma_duplicate_ids_are_ignored(before, query, after.drop_last());
        assert((before.push(query) + after).drop_last() =~= before.push(query) + after.drop_last());
        assert((before + after).drop_last() =~= before + after.drop_last());
        assert((before.push(query) + after).last() == after.last());
        assert((before + after).last() == after.last());
    }
}

/// A credential query of an unknown format is ignored.
pub proof fn lemma_unknown_formats_are_ignored(
    before: Seq<CredentialQueryModel>,
    after: Seq<CredentialQueryModel>,
)
    ensures
        query_table(before.push(CredentialQueryModel::Unknown) + after) == query_table(
            before + after,
        ),
    decreases after.len(),
{
    let unknown = CredentialQueryModel::Unknown;
    if after.len() == 0 {
        assert(before.push(unknown) + after =~= before.push(unknown));
        assert(before + after =~= before);
        assert(before.push(unknown).drop_last() =~= before);
    } else {
        lemma_unknown_formats_are_ignored(before, after.drop_last());
        assert((before.push(unknown) + after).drop_last() =~= before.push(unknown)
            + after.drop_last());
        assert((before + after).drop_last() =~= before + after.drop_last());
        assert((before.push(unknown) + after).last() == after.last());
        assert((before + after).last() == after.last());
    }
}

/// The table has a query for every id that occurs.
pub proof fn lemma_table_has_ids(credentials: Seq<CredentialQueryModel>, i: int)
    requires
        0 <= i < credentials.len(),
        credentials[i].id() is Some,
    ensures
        query_table(credentials).queries.contains_key(credentials[i].id()->0),
    decreases credentials.len(),
{
    if i < credentials.len() - 1 {
        assert(credentials.drop_last()[i] == credentials[i]);
        lemma_table_has_ids(credentials.drop_last(), i);
    }
}

/// Whether credentials of `query` can authorize transactions.
pub fn credential_query_supports_transaction_data(query: &CredentialQuery) -> (supports: bool)
    ensures
        supports == supports_transaction_data(query.deep_view()),
{
    if query.format() != CredentialFormat::DcSdJwt {
        return true;
    }
    match query.require_cryptographic_holder_binding() {
        Some(required) => required,
        None => true,
    }
}

/// The credential queries of a request, by id.
pub struct QueryIndex<'q> {
    /// The ids in the order of their first appearance.
    pub ids: Vec<String>,
    /// The query behind each id, at the same position.
    pub queries: Vec<&'q CredentialQuery>,
    /// The ids that transaction data can be bound to.
    pub transaction_data_targets: TextSet,
    /// The table that the index represents.
    pub table: Ghost<QueryTable>,
}

impl<'q> View for QueryIndex<'q> {
    type V = QueryTable;

    open spec fn view(&self) -> QueryTable {
        self.table@
    }
}

impl<'q> QueryIndex<'q> {
    /// The index holds exactly what its table says.
    pub open spec fn well_formed(&self) -> bool {
        &&& self@.well_formed()
        &&& self.ids.deep_view() == self@.order
        &&& self.queries.len() == self.ids.len()
        &&& forall|i: int|
            0 <= i < self.queries.len() ==> self@.queries[self.ids@[i]@] == (
            #[trigger] self.queries@[i]).deep_view()
        &&& forall|id: Text| #[trigger]
            text_set_contents(self.transaction_data_targets).contains(id) <==> self@.is_target(id)
    }

    /// Indexes `credentials`. The first query with an id wins.
    pub fn build(credentials: &'q [CredentialQuery]) -> (index: QueryIndex<'q>)
        ensures
            index.well_formed(),
            index@ == query_table(credentials.deep_view()),
    {
        let ghost all = credentials.deep_view();
        let mut index = QueryIndex {
            ids: Vec::new(),
            queries: Vec::new(),
            transaction_data_targets: TextSet::new(),
            table: Ghost(query_table(all.take(0))),
        };
        let mut i: usize = 0;
        proof {
            lemma_query_table(all.take(0));
            assert(index.ids.deep_view() =~= query_table(all.take(0)).order);
        }
        while i < credentials.len()
            invariant
                i <= credentials@.len(),
                all == credentials.deep_view(),
                index.well_formed(),
                index@ == query_table(all.take(i as int)),
            decreases credentials@.len() - i,
        {
            let query = &credentials[i];
            let ghost before = index;
            proof {
                assert(all.take(i + 1).drop_last() =~= all.take(i as int));
                assert(all.take(i + 1).last() == query.deep_view());
                lemma_query_table(all.take(i + 1));
            }
            i = i + 1;
            let id = match query.id() {
                Some(id) => id,
                None => continue,
            };
            if index.position(id).is_some() {
                continue;
            }
            if credential_query_supports_transaction_data(query) {
                index.transaction_data_targets.insert(id.to_owned());
            }
            index.ids.push(id.to_owned());
            index.queries.push(query);
            index.table = Ghost(query_table(all.take(i as int)));
            proof {
                assert(index.ids.deep_view() =~= index@.order);
                assert forall|k: int|
                    0 <= k < index.queries.len() implies index@.queries[index.ids@[k]@] == (
                #[trigger] index.queries@[k]).deep_view() by {
                    if k < before.queries.len() {
                        assert(before@.order[k] == before.ids@[k]@);
                        assert(before@.order.contains(before@.order[k]));
                        assert(before.queries@[k] == index.queries@[k]);
                    }
                }
            }
        }
        proof {
            assert(all.take(all.len() as int) =~= all);
        }
        index
    }

    /// Position of the query with this id.
    pub fn position(&self, id: &str) -> (found: Option<usize>)
        requires
            self.well_formed(),
        ensures
            match found {
                Some(at) => at < self.ids.len() && self.ids@[at as int]@ == id@
                    && self@.queries.contains_key(id@) && self.queries@[at as int].deep_view()
                    == self@.queries[id@],
                None => !self@.queries.contains_key(id@),
            },
    {
        let mut i: usize = 0;
        while i < self.ids.len()
            invariant
                i <= self.ids.len(),
                self.well_formed(),
                forall|j: int| 0 <= j < i ==> self@.order[j] != id@,
            decreases self.ids.len() - i,
        {
            assert(self@.order[i as int] == self.ids@[i as int]@);
            if same_text(self.ids[i].as_str(), id) {
                assert(self@.order.contains(id@));
                assert(self.queries@[i as int].deep_view() == self@.queries[id@]);
                return Some(i);
            }
            i = i + 1;
        }
        assert(!self@.order.contains(id@));
        None
    }
}

} // verus!
