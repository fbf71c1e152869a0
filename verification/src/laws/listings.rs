//! What holds of lists that are drawn from other lists.

use crate::seqs::{distinct, first_where, lemma_distinct, lemma_first_where, lemma_take_all};
use crate::seqs::{lemma_filter_step, lemma_push_contains};
use vstd::prelude::*;

verus! {

/// Whether positions are in order, and positions of a list that is this long.
pub open spec fn ascends(at: Seq<int>, bound: nat) -> bool {
    &&& forall|k: int| 0 <= k < at.len() ==> 0 <= #[trigger] at[k] < bound
    &&& forall|j: int, k: int| 0 <= j < k < at.len() ==> #[trigger] at[j] < #[trigger] at[k]
}

/// Whether a list holds the elements of another at these positions, in the same order.
pub open spec fn drawn_at<A>(found: Seq<A>, all: Seq<A>, at: Seq<int>) -> bool {
    &&& at.len() == found.len()
    &&& ascends(at, all.len())
    &&& forall|k: int| 0 <= k < at.len() ==> #[trigger] found[k] == all[at[k]]
}

/// Filtering keeps exactly the elements that are wanted, each at its place, in order.
pub proof fn lemma_filtering_keeps_the_order<A>(all: Seq<A>, keep: spec_fn(A) -> bool) -> (at: Seq<
    int,
>)
    ensures
        drawn_at(all.filter(keep), all, at),
        forall|i: int| 0 <= i < all.len() ==> (#[trigger] at.contains(i) <==> keep(all[i])),
    decreases all.len(),
{
    if all.len() == 0 {
        reveal(Seq::filter);
        assert(all.filter(keep) =~= Seq::<A>::empty());
        Seq::empty()
    } else {
        let n = all.len() - 1;
        let rest = all.take(n);
        lemma_filter_step(all, keep, n);
        lemma_take_all(all);
        let before = lemma_filtering_keeps_the_order(rest, keep);
        let at = if keep(all[n]) {
            before.push(n)
        } else {
            before
        };
        assert forall|i: int| 0 <= i < all.len() implies (#[trigger] at.contains(i) <==> keep(
            all[i],
        )) by {
            lemma_push_contains(before, n, i);
            if i < n {
                assert(before.contains(i) <==> keep(rest[i]));
            } else if before.contains(i) {
                let k = choose|k: int| 0 <= k < before.len() && before[k] == i;
                assert(0 <= before[k] < rest.len());
            }
        }
        assert forall|k: int| 0 <= k < at.len() implies #[trigger] all.filter(keep)[k]
            == all[at[k]] by {
            if k < before.len() {
                assert(rest.filter(keep)[k] == rest[before[k]]);
            }
        }
        at
    }
}

/// The first element that is wanted is wanted, and none before it is. There is none only where no
/// element is wanted.
pub proof fn lemma_the_first_is_found<A>(all: Seq<A>, wanted: spec_fn(A) -> bool)
    ensures
        match first_where(all, wanted) {
            Some(k) => 0 <= k < all.len() && wanted(all[k]) && forall|j: int|
                0 <= j < k ==> !wanted(#[trigger] all[j]),
            None => forall|j: int| 0 <= j < all.len() ==> !wanted(#[trigger] all[j]),
        },
{
    lemma_first_where(all, wanted);
}

/// Leaving out repetitions keeps every element where it occurs first.
pub proof fn lemma_the_first_occurrence_stays<A>(all: Seq<A>) -> (at: Seq<int>)
    ensures
        drawn_at(distinct(all), all, at),
        forall|i: int|
            0 <= i < all.len() ==> (#[trigger] at.contains(i) <==> forall|j: int|
                0 <= j < i ==> #[trigger] all[j] != all[i]),
    decreases all.len(),
{
    if all.len() == 0 {
        Seq::empty()
    } else {
        let n = all.len() - 1;
        let rest = all.drop_last();
        let before = lemma_the_first_occurrence_stays(rest);
        lemma_distinct(rest);
        let fresh = !distinct(rest).contains(all[n]);
        let at = if fresh {
            before.push(n)
        } else {
            before
        };
        assert(fresh <==> forall|j: int| 0 <= j < n ==> #[trigger] all[j] != all[n]) by {
            assert(distinct(rest).contains(all[n]) <==> rest.contains(all[n]));
            if rest.contains(all[n]) {
                let j = choose|j: int| 0 <= j < rest.len() && rest[j] == all[n];
                assert(all[j] == all[n]);
            }
            if exists|j: int| 0 <= j < n && #[trigger] all[j] == all[n] {
                let j = choose|j: int| 0 <= j < n && #[trigger] all[j] == all[n];
                assert(rest[j] == all[n]);
            }
        }
        assert forall|i: int| 0 <= i < all.len() implies (#[trigger] at.contains(i) <==> forall|
            j: int,
        |
            0 <= j < i ==> #[trigger] all[j] != all[i]) by {
            lemma_push_contains(before, n, i);
            if i < n {
                assert(before.contains(i) <==> forall|j: int|
                    0 <= j < i ==> #[trigger] rest[j] != rest[i]);
                if forall|j: int| 0 <= j < i ==> #[trigger] rest[j] != rest[i] {
                    assert forall|j: int| 0 <= j < i implies #[trigger] all[j] != all[i] by {
                        assert(rest[j] != rest[i]);
                    }
                }
                if forall|j: int| 0 <= j < i ==> #[trigger] all[j] != all[i] {
                    assert forall|j: int| 0 <= j < i implies #[trigger] rest[j] != rest[i] by {
                        assert(all[j] != all[i]);
                    }
                }
            } else if before.contains(i) {
                let k = choose|k: int| 0 <= k < before.len() && before[k] == i;
                assert(0 <= before[k] < rest.len());
            }
        }
        assert forall|k: int| 0 <= k < at.len() implies #[trigger] distinct(all)[k]
            == all[at[k]] by {
            if k < before.len() {
                assert(distinct(rest)[k] == rest[before[k]]);
            }
        }
        at
    }
}

} // verus!
