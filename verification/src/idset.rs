//! Sets of ids, kept in lexicographic order.

use crate::seqs::lemma_push_contains;
use crate::text::{lemma_precedes_irreflexive, lemma_precedes_total, lemma_precedes_transitive};
use crate::text::{precedes, same_text, text_precedes, Text};
use vstd::prelude::*;

verus! {

/// Every element comes strictly before the ones behind it.
pub open spec fn strictly_sorted(ids: Seq<Text>) -> bool {
    forall|i: int, j: int| 0 <= i < j < ids.len() ==> precedes(#[trigger] ids[i], #[trigger] ids[j])
}

/// The elements of `ids` in lexicographic order.
pub open spec fn sorted_ids(ids: Set<Text>) -> Seq<Text> {
    choose|order: Seq<Text>| strictly_sorted(order) && #[trigger] order.to_set() == ids
}

/// A set has at most one strictly sorted listing.
pub proof fn lemma_sorted_unique(a: Seq<Text>, b: Seq<Text>)
    requires
        strictly_sorted(a),
        strictly_sorted(b),
        a.to_set() == b.to_set(),
    ensures
        a == b,
    decreases a.len(),
{
    if a.len() == 0 {
        if b.len() > 0 {
            assert(b.to_set().contains(b[0]));
            assert(a.to_set().contains(b[0]));
        }
        assert(a =~= b);
    } else {
        assert(a.to_set().contains(a.last()));
        assert(b.to_set().contains(a.last()));
        let i = choose|i: int| 0 <= i < b.len() && b[i] == a.last();
        assert(b.to_set().contains(b.last()));
        assert(a.to_set().contains(b.last()));
        let k = choose|k: int| 0 <= k < a.len() && a[k] == b.last();
        if i < b.len() - 1 {
            assert(precedes(b[i], b[b.len() - 1]));
            if k < a.len() - 1 {
                assert(precedes(a[k], a[a.len() - 1]));
                lemma_precedes_transitive(a.last(), b.last(), a.last());
            }
            lemma_precedes_irreflexive(a.last());
        }
        assert(a.last() == b.last());
        let (x, y) = (a.drop_last(), b.drop_last());
        assert(x.to_set() =~= y.to_set()) by {
            assert forall|id: Text| x.to_set().contains(id) <==> y.to_set().contains(id) by {
                lemma_precedes_irreflexive(a.last());
                if x.to_set().contains(id) {
                    let p = choose|p: int| 0 <= p < x.len() && x[p] == id;
                    assert(a[p] == id && precedes(a[p], a[a.len() - 1]));
                    assert(a.to_set().contains(id));
                    assert(b.to_set().contains(id));
                    let q = choose|q: int| 0 <= q < b.len() && b[q] == id;
                    assert(y[q] == id);
                }
                if y.to_set().contains(id) {
                    let p = choose|p: int| 0 <= p < y.len() && y[p] == id;
                    assert(b[p] == id && precedes(b[p], b[b.len() - 1]));
                    assert(b.to_set().contains(id));
                    assert(a.to_set().contains(id));
                    let q = choose|q: int| 0 <= q < a.len() && a[q] == id;
                    assert(x[q] == id);
                }
            }
        }
        lemma_sorted_unique(x, y);
        assert(a =~= x.push(a.last()));
        assert(b =~= y.push(b.last()));
    }
}

/// A strictly sorted listing is the one that `sorted_ids` gives of its elements.
pub proof fn lemma_sorted_ids(order: Seq<Text>)
    requires
        strictly_sorted(order),
    ensures
        sorted_ids(order.to_set()) == order,
        order.no_duplicates(),
        order.to_set().finite(),
        order.to_set().len() == order.len(),
{
    lemma_sorted_unique(sorted_ids(order.to_set()), order);
    assert forall|i: int, j: int| 0 <= i < order.len() && 0 <= j < order.len() && i
        != j implies order[i] != order[j] by {
        if i < j {
            assert(precedes(order[i], order[j]));
        } else {
            assert(precedes(order[j], order[i]));
        }
        lemma_precedes_irreflexive(order[i]);
    }
    order.unique_seq_to_set();
}

/// Where an id goes in a sorted listing that does not hold it.
proof fn lemma_sorted_insert(order: Seq<Text>, id: Text) -> (longer: Seq<Text>)
    requires
        strictly_sorted(order),
        !order.contains(id),
    ensures
        strictly_sorted(longer),
        longer.to_set() == order.to_set().insert(id),
    decreases order.len(),
{
    if order.len() == 0 || precedes(order.last(), id) {
        let longer = order.push(id);
        assert forall|i: int, j: int| 0 <= i < j < longer.len() implies precedes(
            #[trigger] longer[i],
            #[trigger] longer[j],
        ) by {
            if j == order.len() && i < order.len() - 1 {
                lemma_precedes_transitive(order[i], order[order.len() - 1], id);
            }
        }
        assert forall|x: Text| longer.to_set().contains(x) <==> order.to_set().insert(id).contains(
            x,
        ) by {
            lemma_push_contains(order, id, x);
        }
        assert(longer.to_set() =~= order.to_set().insert(id));
        longer
    } else {
        let rest = order.drop_last();
        let last = order.last();
        assert(order =~= rest.push(last));
        assert(order[order.len() - 1] == last);
        assert(!rest.contains(id)) by {
            lemma_push_contains(rest, last, id);
        }
        lemma_precedes_total(last, id);
        let shorter = lemma_sorted_insert(rest, id);
        let longer = shorter.push(last);
        assert forall|i: int, j: int| 0 <= i < j < longer.len() implies precedes(
            #[trigger] longer[i],
            #[trigger] longer[j],
        ) by {
            if j == shorter.len() {
                assert(shorter.to_set().contains(shorter[i]));
                if shorter[i] != id {
                    assert(rest.to_set().contains(shorter[i]));
                    let k = choose|k: int| 0 <= k < rest.len() && rest[k] == shorter[i];
                    assert(precedes(order[k], order[order.len() - 1]));
                }
            }
        }
        assert forall|x: Text| longer.to_set().contains(x) <==> order.to_set().insert(id).contains(
            x,
        ) by {
            lemma_push_contains(shorter, last, x);
            lemma_push_contains(rest, last, x);
            assert(shorter.to_set().contains(x) <==> rest.to_set().insert(id).contains(x));
        }
        assert(longer.to_set() =~= order.to_set().insert(id));
        longer
    }
}

/// Every finite set has a sorted listing.
pub proof fn lemma_sorted_listing(ids: Set<Text>)
    requires
        ids.finite(),
    ensures
        strictly_sorted(sorted_ids(ids)),
        sorted_ids(ids).to_set() == ids,
        sorted_ids(ids).no_duplicates(),
    decreases ids.len(),
{
    if ids.len() == 0 {
        let order = Seq::<Text>::empty();
        assert(order.to_set() =~= ids);
        lemma_sorted_ids(order);
    } else {
        let id = ids.choose();
        lemma_sorted_listing(ids.remove(id));
        let rest = sorted_ids(ids.remove(id));
        assert(rest.to_set().contains(id) <==> rest.contains(id));
        let order = lemma_sorted_insert(rest, id);
        assert(order.to_set() =~= ids);
        lemma_sorted_ids(order);
    }
}

/// A set of ids. Its listing is in lexicographic order, and no id occurs twice.
#[derive(Debug)]
pub struct IdSet {
    ids: Vec<String>,
}

impl View for IdSet {
    type V = Set<Text>;

    closed spec fn view(&self) -> Set<Text> {
        self.ids.deep_view().to_set()
    }
}

impl DeepView for IdSet {
    type V = Set<Text>;

    open spec fn deep_view(&self) -> Set<Text> {
        self@
    }
}

impl Clone for IdSet {
    fn clone(&self) -> (copy: IdSet)
        ensures
            copy@ == self@,
    {
        proof {
            use_type_invariant(self);
        }
        let ids = self.ids.clone();
        assert(ids.deep_view() =~= self.ids.deep_view());
        IdSet { ids }
    }
}

impl IdSet {
    #[verifier::type_invariant]
    closed spec fn well_formed(&self) -> bool {
        strictly_sorted(self.ids.deep_view())
    }

    /// The empty set.
    pub fn new() -> (set: IdSet)
        ensures
            set@ == Set::<Text>::empty(),
    {
        let set = IdSet { ids: Vec::new() };
        assert(set@ =~= Set::<Text>::empty());
        set
    }

    /// The ids in lexicographic order.
    pub fn ids(&self) -> (ids: &Vec<String>)
        ensures
            strictly_sorted(ids.deep_view()),
            ids.deep_view() == sorted_ids(self@),
            ids.deep_view().to_set() == self@,
            ids.len() == self@.len(),
            self@.finite(),
            ids.deep_view().no_duplicates(),
    {
        proof {
            use_type_invariant(self);
            lemma_sorted_ids(self.ids.deep_view());
        }
        &self.ids
    }

    /// Whether the set holds `id`.
    pub fn contains(&self, id: &str) -> (found: bool)
        ensures
            found == self@.contains(id@),
    {
        crate::text::contains_text(self.ids.as_slice(), id)
    }

    /// The set with `id` in it.
    pub fn with(self, id: String) -> (set: IdSet)
        ensures
            set@ == self@.insert(id@),
    {
        proof {
            use_type_invariant(&self);
        }
        let IdSet { ids } = self;
        let ghost before = ids.deep_view();
        let mut at: usize = 0;
        while at < ids.len() && text_precedes(ids[at].as_str(), id.as_str())
            invariant
                at <= ids.len(),
                before == ids.deep_view(),
                strictly_sorted(before),
                forall|j: int| 0 <= j < at ==> precedes(#[trigger] before[j], id@),
            decreases ids.len() - at,
        {
            assert(before[at as int] == ids[at as int]@);
            at = at + 1;
        }
        if at < ids.len() && same_text(ids[at].as_str(), id.as_str()) {
            let set = IdSet { ids };
            assert(before[at as int] == id@);
            assert(set@ =~= before.to_set().insert(id@));
            return set;
        }
        let ghost key = id@;
        let mut ids = ids;
        ids.insert(at, id);
        let ghost after = ids.deep_view();
        proof {
            assert(after =~= before.insert(at as int, key));
            assert forall|j: int| at <= j < before.len() implies precedes(
                key,
                #[trigger] before[j],
            ) by {
                lemma_precedes_total(before[at as int], key);
                if j > at {
                    assert(precedes(before[at as int], before[j]));
                    lemma_precedes_transitive(key, before[at as int], before[j]);
                }
            }
            assert forall|i: int, j: int| 0 <= i < j < after.len() implies precedes(
                #[trigger] after[i],
                #[trigger] after[j],
            ) by {
                let p = if i < at {
                    i
                } else {
                    i - 1
                };
                let q = if j < at {
                    j
                } else {
                    j - 1
                };
                if i == at {
                    assert(after[j] == before[q]);
                } else if j == at {
                    assert(after[i] == before[p]);
                } else {
                    assert(after[i] == before[p] && after[j] == before[q]);
                }
            }
            assert(after.to_set() =~= before.to_set().insert(key)) by {
                assert forall|x: Text| after.to_set().contains(x) <==> before.to_set().insert(
                    key,
                ).contains(x) by {
                    if before.contains(x) {
                        let i = choose|i: int| 0 <= i < before.len() && before[i] == x;
                        assert(after[if i < at {
                            i
                        } else {
                            i + 1
                        }] == x);
                    }
                    if after.contains(x) {
                        let i = choose|i: int| 0 <= i < after.len() && after[i] == x;
                        if i != at {
                            assert(before[if i < at {
                                i
                            } else {
                                i - 1
                            }] == x);
                        }
                    }
                    assert(after[at as int] == key);
                }
            }
        }
        IdSet { ids }
    }

    /// The set of the ids listed in `listed`.
    pub fn collect(listed: &[String]) -> (set: IdSet)
        ensures
            set@ == listed.deep_view().to_set(),
    {
        let empty = IdSet::new();
        let set = empty.with_all(listed);
        assert(set@ =~= listed.deep_view().to_set());
        set
    }

    /// The set with every id of `listed` in it.
    pub fn with_all(self, listed: &[String]) -> (set: IdSet)
        ensures
            set@ == self@.union(listed.deep_view().to_set()),
    {
        let ghost before = self@;
        let ghost all = listed.deep_view();
        let mut set = self;
        let mut i: usize = 0;
        assert(set@ =~= before.union(all.take(0).to_set()));
        while i < listed.len()
            invariant
                i <= listed@.len(),
                all == listed.deep_view(),
                set@ == before.union(all.take(i as int).to_set()),
            decreases listed@.len() - i,
        {
            set = set.with(listed[i].clone());
            proof {
                assert(all.take(i + 1) =~= all.take(i as int).push(all[i as int]));
                assert forall|x: Text|
                    set@.contains(x) <==> before.union(all.take(i + 1).to_set()).contains(x) by {
                    lemma_push_contains(all.take(i as int), all[i as int], x);
                }
                assert(set@ =~= before.union(all.take(i + 1).to_set()));
            }
            i = i + 1;
        }
        assert(all.take(all.len() as int) =~= all);
        set
    }

    /// The ids of both sets.
    pub fn union(&self, other: &IdSet) -> (set: IdSet)
        ensures
            set@ == self@.union(other@),
    {
        self.clone().with_all(other.ids().as_slice())
    }

    /// Whether both sets hold the same ids.
    pub fn same(&self, other: &IdSet) -> (same: bool)
        ensures
            same == (self@ == other@),
    {
        proof {
            use_type_invariant(self);
            use_type_invariant(other);
        }
        let ghost (a, b) = (self.ids.deep_view(), other.ids.deep_view());
        if self.ids.len() != other.ids.len() {
            proof {
                assert(a.len() != b.len());
                if self@ == other@ {
                    lemma_sorted_unique(a, b);
                    assert(false);
                }
            }
            return false;
        }
        let mut i: usize = 0;
        while i < self.ids.len()
            invariant
                i <= self.ids.len(),
                self.ids.len() == other.ids.len(),
                a == self.ids.deep_view(),
                b == other.ids.deep_view(),
                strictly_sorted(a),
                strictly_sorted(b),
                forall|j: int| 0 <= j < i ==> a[j] == b[j],
            decreases self.ids.len() - i,
        {
            if !same_text(self.ids[i].as_str(), other.ids[i].as_str()) {
                proof {
                    assert(a[i as int] != b[i as int]);
                    if self@ == other@ {
                        lemma_sorted_unique(a, b);
                    }
                }
                return false;
            }
            i = i + 1;
        }
        assert(a =~= b);
        true
    }

    /// Whether every id of this set is in `other`.
    pub fn is_subset(&self, other: &IdSet) -> (subset: bool)
        ensures
            subset == self@.subset_of(other@),
    {
        let mut i: usize = 0;
        let ids = self.ids();
        while i < ids.len()
            invariant
                i <= ids.len(),
                ids.deep_view().to_set() == self@,
                forall|j: int| 0 <= j < i ==> other@.contains(#[trigger] ids.deep_view()[j]),
            decreases ids.len() - i,
        {
            if !other.contains(ids[i].as_str()) {
                assert(ids.deep_view()[i as int] == ids[i as int]@);
                assert(ids.deep_view().to_set().contains(ids[i as int]@));
                return false;
            }
            assert(ids.deep_view()[i as int] == ids[i as int]@);
            i = i + 1;
        }
        true
    }

    /// How many ids the set holds.
    pub fn len(&self) -> (count: usize)
        ensures
            count == self@.len(),
            self@.finite(),
    {
        self.ids().len()
    }

    /// Whether the set holds no id.
    pub fn is_empty(&self) -> (empty: bool)
        ensures
            empty == (self@ == Set::<Text>::empty()),
    {
        let empty = self.ids().len() == 0;
        proof {
            if empty {
                assert(self@ =~= Set::<Text>::empty());
            }
        }
        empty
    }
}

} // verus!
