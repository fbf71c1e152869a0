//! Lists of things by credential query id.

use crate::text::{same_text, Text};
use vstd::prelude::*;

verus! {

broadcast use vstd::string::group_string_axioms;

/// Lists by credential query id.
#[derive(Debug)]
pub struct ById<T> {
    /// The ids.
    pub ids: Vec<String>,
    /// The list for each of them, at the same position.
    pub rows: Vec<Vec<T>>,
}

impl<T: DeepView> DeepView for ById<T> {
    type V = Map<Text, Seq<T::V>>;

    open spec fn deep_view(&self) -> Map<Text, Seq<T::V>> {
        Map::new(
            |id: Text| self.ids.deep_view().contains(id),
            |id: Text| self.rows.deep_view()[self.ids.deep_view().index_of(id)],
        )
    }
}

impl<T: DeepView> ById<T> {
    /// Every id occurs once and has its list.
    pub open spec fn well_formed(&self) -> bool {
        self.ids.len() == self.rows.len() && self.ids.deep_view().no_duplicates()
    }

    /// What is at position `k` belongs to the id at position `k`.
    pub proof fn lemma_at(self, k: int)
        requires
            self.well_formed(),
            0 <= k < self.ids.len(),
        ensures
            self.deep_view().contains_key(self.ids@[k]@),
            self.deep_view()[self.ids@[k]@] == self.rows@[k].deep_view(),
    {
        let ids = self.ids.deep_view();
        assert(ids[k] == self.ids@[k]@);
        assert(ids.contains(ids[k]));
        assert(ids.index_of(ids[k]) == k);
    }

    /// Position of the list of `id`.
    pub fn position(&self, id: &str) -> (found: Option<usize>)
        requires
            self.well_formed(),
        ensures
            match found {
                Some(at) => at < self.ids.len() && self.ids@[at as int]@ == id@
                    && self.deep_view().contains_key(id@) && self.deep_view()[id@]
                    == self.rows@[at as int].deep_view(),
                None => !self.deep_view().contains_key(id@),
            },
    {
        let ghost all = self.ids.deep_view();
        let mut i: usize = 0;
        while i < self.ids.len()
            invariant
                i <= self.ids.len(),
                self.well_formed(),
                all == self.ids.deep_view(),
                forall|j: int| 0 <= j < i ==> #[trigger] all[j] != id@,
            decreases self.ids.len() - i,
        {
            assert(all[i as int] == self.ids@[i as int]@);
            if same_text(self.ids[i].as_str(), id) {
                proof {
                    self.lemma_at(i as int);
                }
                return Some(i);
            }
            i = i + 1;
        }
        None
    }
}

} // verus!
