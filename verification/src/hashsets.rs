//! Hash sets of plain values, backed by `rustc_hash::FxHashSet`.

use crate::text::Text;
use rustc_hash::FxHashSet;
use vstd::prelude::*;

verus! {

/// A set of strings, held in a `rustc_hash::FxHashSet<String>`.
#[verifier::external_body]
pub struct TextSet {
    inner: FxHashSet<String>,
}

/// The strings that a [`TextSet`] holds.
pub uninterp spec fn text_set_contents(set: TextSet) -> Set<Text>;

impl TextSet {
    /// `FxHashSet::default`: a set without elements.
    #[verifier::external_body]
    pub(crate) fn new() -> (set: TextSet)
        ensures
            text_set_contents(set) == Set::<Text>::empty(),
    {
        TextSet { inner: FxHashSet::default() }
    }

    /// `FxHashSet::insert`: adds the string, and says whether it was absent before.
    #[verifier::external_body]
    pub(crate) fn insert(&mut self, value: String) -> (added: bool)
        ensures
            text_set_contents(*final(self)) == text_set_contents(*old(self)).insert(value@),
            added == !text_set_contents(*old(self)).contains(value@),
    {
        self.inner.insert(value)
    }

    /// `FxHashSet::contains`: whether the set holds the string.
    #[verifier::external_body]
    pub(crate) fn contains(&self, value: &str) -> (found: bool)
        ensures
            found == text_set_contents(*self).contains(value@),
    {
        self.inner.contains(value)
    }
}

/// A set of ordered pairs of strings, held in a `rustc_hash::FxHashSet<(String, String)>`.
#[verifier::external_body]
pub struct TextPairSet {
    inner: FxHashSet<(String, String)>,
}

/// The pairs that a [`TextPairSet`] holds.
pub uninterp spec fn text_pair_set_contents(set: TextPairSet) -> Set<(Text, Text)>;

impl TextPairSet {
    /// `FxHashSet::default`: a set without elements.
    #[verifier::external_body]
    pub(crate) fn new() -> (set: TextPairSet)
        ensures
            text_pair_set_contents(set) == Set::<(Text, Text)>::empty(),
    {
        TextPairSet { inner: FxHashSet::default() }
    }

    /// `FxHashSet::insert`: adds the pair, and says whether it was absent before.
    #[verifier::external_body]
    pub(crate) fn insert(&mut self, left: String, right: String) -> (added: bool)
        ensures
            text_pair_set_contents(*final(self)) == text_pair_set_contents(*old(self)).insert(
                (left@, right@),
            ),
            added == !text_pair_set_contents(*old(self)).contains((left@, right@)),
    {
        self.inner.insert((left, right))
    }

    /// `FxHashSet::contains`: whether the set holds the pair.
    #[verifier::external_body]
    pub(crate) fn contains(&self, left: String, right: String) -> (found: bool)
        ensures
            found == text_pair_set_contents(*self).contains((left@, right@)),
    {
        self.inner.contains(&(left, right))
    }
}

/// A set of lists of strings, held in a `rustc_hash::FxHashSet<Vec<String>>`.
#[verifier::external_body]
pub struct TextListSet {
    inner: FxHashSet<Vec<String>>,
}

/// The lists that a [`TextListSet`] holds.
pub uninterp spec fn text_list_set_contents(set: TextListSet) -> Set<Seq<Text>>;

impl TextListSet {
    /// `FxHashSet::default`: a set without elements.
    #[verifier::external_body]
    pub(crate) fn new() -> (set: TextListSet)
        ensures
            text_list_set_contents(set) == Set::<Seq<Text>>::empty(),
    {
        TextListSet { inner: FxHashSet::default() }
    }

    /// `FxHashSet::insert`: adds the list, and says whether it was absent before.
    #[verifier::external_body]
    pub(crate) fn insert(&mut self, value: Vec<String>) -> (added: bool)
        ensures
            text_list_set_contents(*final(self)) == text_list_set_contents(*old(self)).insert(
                value.deep_view(),
            ),
            added == !text_list_set_contents(*old(self)).contains(value.deep_view()),
    {
        self.inner.insert(value)
    }
}

/// A set of lists of keys, held in a `rustc_hash::FxHashSet<Vec<(Option<u64>, Option<String>)>>`.
#[verifier::external_body]
pub struct KeyListSet {
    inner: FxHashSet<Vec<(Option<u64>, Option<String>)>>,
}

/// The lists that a [`KeyListSet`] holds.
pub uninterp spec fn key_list_set_contents(set: KeyListSet) -> Set<
    Seq<(Option<u64>, Option<Text>)>,
>;

impl KeyListSet {
    /// `FxHashSet::default`: a set without elements.
    #[verifier::external_body]
    pub(crate) fn new() -> (set: KeyListSet)
        ensures
            key_list_set_contents(set) == Set::<Seq<(Option<u64>, Option<Text>)>>::empty(),
    {
        KeyListSet { inner: FxHashSet::default() }
    }

    /// `FxHashSet::insert`: adds the list, and says whether it was absent before.
    #[verifier::external_body]
    pub(crate) fn insert(&mut self, value: Vec<(Option<u64>, Option<String>)>) -> (added: bool)
        ensures
            key_list_set_contents(*final(self)) == key_list_set_contents(*old(self)).insert(
                value.deep_view(),
            ),
            added == !key_list_set_contents(*old(self)).contains(value.deep_view()),
    {
        self.inner.insert(value)
    }
}

} // verus!
