//! Sequence vocabulary shared by the contracts, with the lemmas that loops need.

use vstd::prelude::*;

verus! {

/// Keeps the first occurrence of every element, in order.
pub open spec fn distinct<A>(items: Seq<A>) -> Seq<A>
    decreases items.len(),
{
    if items.len() == 0 {
        Seq::empty()
    } else {
        let earlier = distinct(items.drop_last());
        if earlier.contains(items.last()) {
            earlier
        } else {
            earlier.push(items.last())
        }
    }
}

/// Position of the first element that satisfies `wanted`.
pub open spec fn first_where<A>(items: Seq<A>, wanted: spec_fn(A) -> bool) -> Option<int>
    decreases items.len(),
{
    if items.len() == 0 {
        None
    } else {
        match first_where(items.drop_last(), wanted) {
            Some(position) => Some(position),
            None => if wanted(items.last()) {
                Some(items.len() - 1)
            } else {
                None
            },
        }
    }
}

/// The indices below `bound` that satisfy `wanted`, in ascending order.
pub open spec fn indices_where(bound: nat, wanted: spec_fn(int) -> bool) -> Seq<int> {
    Seq::new(bound, |i: int| i).filter(wanted)
}

/// `distinct` keeps exactly the elements, and none of them twice.
pub proof fn lemma_distinct<A>(items: Seq<A>)
    ensures
        distinct(items).no_duplicates(),
        forall|item: A| #[trigger] distinct(items).contains(item) <==> items.contains(item),
        distinct(items).len() <= items.len(),
    decreases items.len(),
{
    if items.len() > 0 {
        let rest = items.drop_last();
        lemma_distinct(rest);
        assert(items =~= rest.push(items.last()));
        assert forall|item: A| #[trigger] distinct(items).contains(item) <==> items.contains(
            item,
        ) by {
            if items.contains(item) {
                let i = choose|i: int| 0 <= i < items.len() && items[i] == item;
                if i < rest.len() {
                    assert(rest[i] == item);
                    assert(rest.contains(item));
                    assert(distinct(rest).contains(item));
                    let k = choose|k: int| 0 <= k < distinct(rest).len() && distinct(rest)[k] == item;
                    assert(distinct(items)[k] == item);
                } else if !distinct(rest).contains(item) {
                    assert(distinct(items)[distinct(rest).len() as int] == item);
                }
            }
            if distinct(items).contains(item) {
                let k = choose|k: int| 0 <= k < distinct(items).len() && distinct(items)[k] == item;
                if k < distinct(rest).len() {
                    assert(distinct(rest)[k] == item);
                    assert(distinct(rest).contains(item));
                    assert(rest.contains(item));
                    let i = choose|i: int| 0 <= i < rest.len() && rest[i] == item;
                    assert(items[i] == item);
                } else {
                    assert(items[items.len() - 1] == item);
                }
            }
        }
    }
}

/// One step of a loop that builds `distinct`.
pub proof fn lemma_distinct_step<A>(items: Seq<A>, i: int)
    requires
        0 <= i < items.len(),
    ensures
        distinct(items.take(i + 1)) == if distinct(items.take(i)).contains(items[i]) {
            distinct(items.take(i))
        } else {
            distinct(items.take(i)).push(items[i])
        },
{
    assert(items.take(i + 1).drop_last() =~= items.take(i));
}

/// What `first_where` finds.
pub proof fn lemma_first_where<A>(items: Seq<A>, wanted: spec_fn(A) -> bool)
    ensures
        match first_where(items, wanted) {
            Some(k) => 0 <= k < items.len() && wanted(items[k]) && forall|j: int|
                0 <= j < k ==> !wanted(#[trigger] items[j]),
            None => forall|j: int| 0 <= j < items.len() ==> !wanted(#[trigger] items[j]),
        },
    decreases items.len(),
{
    if items.len() > 0 {
        let rest = items.drop_last();
        lemma_first_where(rest, wanted);
        assert forall|j: int| 0 <= j < rest.len() implies rest[j] == #[trigger] items[j] by {}
    }
}

/// The first hit is the only position that is a hit with no earlier one.
pub proof fn lemma_first_where_is<A>(items: Seq<A>, wanted: spec_fn(A) -> bool, k: int)
    requires
        0 <= k < items.len(),
        wanted(items[k]),
        forall|j: int| 0 <= j < k ==> !wanted(#[trigger] items[j]),
    ensures
        first_where(items, wanted) == Some(k),
{
    lemma_first_where(items, wanted);
    match first_where(items, wanted) {
        Some(found) => {
            assert(wanted(items[found]));
        },
        None => {
            assert(wanted(items[k]));
        },
    }
}

/// One step of a loop that filters.
pub proof fn lemma_filter_step<A>(items: Seq<A>, keep: spec_fn(A) -> bool, i: int)
    requires
        0 <= i < items.len(),
    ensures
        items.take(i + 1).filter(keep) == if keep(items[i]) {
            items.take(i).filter(keep).push(items[i])
        } else {
            items.take(i).filter(keep)
        },
{
    reveal(Seq::filter);
    assert(items.take(i + 1).drop_last() =~= items.take(i));
}

/// Membership in a filtered sequence.
pub proof fn lemma_filter_contains<A>(items: Seq<A>, keep: spec_fn(A) -> bool)
    ensures
        forall|item: A| #[trigger]
            items.filter(keep).contains(item) <==> items.contains(item) && keep(item),
    decreases items.len(),
{
    reveal(Seq::filter);
    if items.len() > 0 {
        let rest = items.drop_last();
        lemma_filter_contains(rest, keep);
        assert(items =~= rest.push(items.last()));
        assert forall|item: A| #[trigger]
            items.filter(keep).contains(item) <==> items.contains(item) && keep(item) by {
            lemma_push_contains(rest, items.last(), item);
            lemma_push_contains(rest.filter(keep), items.last(), item);
        }
    } else {
        assert(items.filter(keep) =~= Seq::<A>::empty());
    }
}

/// Filtering keeps a sequence free of duplicates.
pub proof fn lemma_filter_no_duplicates<A>(items: Seq<A>, keep: spec_fn(A) -> bool)
    requires
        items.no_duplicates(),
    ensures
        items.filter(keep).no_duplicates(),
    decreases items.len(),
{
    reveal(Seq::filter);
    if items.len() > 0 {
        let rest = items.drop_last();
        lemma_filter_no_duplicates(rest, keep);
        lemma_filter_contains(rest, keep);
        assert(!rest.contains(items.last())) by {
            if rest.contains(items.last()) {
                let i = choose|i: int| 0 <= i < rest.len() && rest[i] == items.last();
                assert(items[i] == items[items.len() - 1]);
            }
        }
        let kept = rest.filter(keep);
        assert(!kept.contains(items.last()));
        if keep(items.last()) {
            assert forall|a: int, b: int|
                0 <= a < b < kept.len() + 1 implies kept.push(items.last())[a] != kept.push(
                items.last(),
            )[b] by {
                if b == kept.len() {
                    assert(kept.contains(kept[a]));
                }
            }
        }
    }
}

/// Nothing is left out when everything is kept.
pub proof fn lemma_filter_all<A>(items: Seq<A>, keep: spec_fn(A) -> bool)
    requires
        forall|i: int| 0 <= i < items.len() ==> keep(#[trigger] items[i]),
    ensures
        items.filter(keep) == items,
    decreases items.len(),
{
    reveal(Seq::filter);
    if items.len() > 0 {
        let rest = items.drop_last();
        assert forall|i: int| 0 <= i < rest.len() implies keep(#[trigger] rest[i]) by {
            assert(keep(items[i]));
        }
        lemma_filter_all(rest, keep);
        assert(keep(items[items.len() - 1]));
        assert(items =~= rest.push(items.last()));
    } else {
        assert(items.filter(keep) =~= items);
    }
}

/// Membership in a sequence extended at its end.
pub proof fn lemma_push_contains<A>(items: Seq<A>, last: A, item: A)
    ensures
        items.push(last).contains(item) <==> items.contains(item) || item == last,
{
    if items.contains(item) {
        let i = choose|i: int| 0 <= i < items.len() && items[i] == item;
        assert(items.push(last)[i] == item);
    }
    if item == last {
        assert(items.push(last)[items.len() as int] == item);
    }
    if items.push(last).contains(item) && item != last {
        let i = choose|i: int| 0 <= i < items.len() + 1 && items.push(last)[i] == item;
        assert(items[i] == item);
    }
}

/// Membership in a concatenation.
pub proof fn lemma_add_contains<A>(left: Seq<A>, right: Seq<A>, item: A)
    ensures
        (left + right).contains(item) <==> left.contains(item) || right.contains(item),
{
    let both = left + right;
    if left.contains(item) {
        let i = choose|i: int| 0 <= i < left.len() && left[i] == item;
        assert(both[i] == item);
    }
    if right.contains(item) {
        let i = choose|i: int| 0 <= i < right.len() && right[i] == item;
        assert(both[left.len() + i] == item);
    }
    if both.contains(item) {
        let i = choose|i: int| 0 <= i < both.len() && both[i] == item;
        if i < left.len() {
            assert(left[i] == item);
        } else {
            assert(right[i - left.len()] == item);
        }
    }
}

/// One step of a loop that concatenates the images of the elements.
pub proof fn lemma_flat_map_step<A, B>(items: Seq<A>, f: spec_fn(A) -> Seq<B>, i: int)
    requires
        0 <= i < items.len(),
    ensures
        items.take(i + 1).flat_map(f) == items.take(i).flat_map(f) + f(items[i]),
{
    items.lemma_flat_map_take_append(f, i);
}

/// Nothing comes of an empty sequence.
pub proof fn lemma_flat_map_empty<A, B>(items: Seq<A>, f: spec_fn(A) -> Seq<B>)
    requires
        items.len() == 0,
    ensures
        items.flat_map(f) == Seq::<B>::empty(),
{
    assert(items.map_values(f) =~= Seq::<Seq<B>>::empty());
    assert(items.flat_map(f) =~= Seq::<B>::empty());
}

/// Membership in a flattened image.
pub proof fn lemma_flat_map_contains<A, B>(items: Seq<A>, f: spec_fn(A) -> Seq<B>, item: B)
    ensures
        items.flat_map(f).contains(item) <==> exists|i: int|
            0 <= i < items.len() && f(#[trigger] items[i]).contains(item),
    decreases items.len(),
{
    if items.len() == 0 {
        lemma_flat_map_empty(items, f);
    } else {
        let n = items.len() - 1;
        let rest = items.take(n);
        lemma_flat_map_step(items, f, n);
        assert(items.take(items.len() as int) =~= items);
        lemma_flat_map_contains(rest, f, item);
        lemma_add_contains(rest.flat_map(f), f(items[n]), item);
        if rest.flat_map(f).contains(item) {
            let i = choose|i: int| 0 <= i < rest.len() && f(#[trigger] rest[i]).contains(item);
            assert(f(items[i]).contains(item));
        }
        if exists|i: int| 0 <= i < items.len() && f(#[trigger] items[i]).contains(item) {
            let i = choose|i: int| 0 <= i < items.len() && f(#[trigger] items[i]).contains(item);
            if i < n {
                assert(f(rest[i]).contains(item));
            }
        }
    }
}

/// A flattened image starts with the image of the first element.
pub proof fn lemma_flat_map_first<A, B>(items: Seq<A>, f: spec_fn(A) -> Seq<B>)
    requires
        items.len() > 0,
        f(items[0]).len() > 0,
    ensures
        items.flat_map(f).len() > 0,
        items.flat_map(f)[0] == f(items[0])[0],
    decreases items.len(),
{
    let n = items.len() - 1;
    let rest = items.take(n);
    lemma_flat_map_step(items, f, n);
    lemma_take_all(items);
    if n == 0 {
        lemma_flat_map_empty(rest, f);
    } else {
        lemma_flat_map_first(rest, f);
    }
}

/// The first element stays first when repetitions are left out.
pub proof fn lemma_distinct_first<A>(items: Seq<A>)
    requires
        items.len() > 0,
    ensures
        distinct(items).len() > 0,
        distinct(items)[0] == items[0],
    decreases items.len(),
{
    let rest = items.drop_last();
    if rest.len() > 0 {
        lemma_distinct_first(rest);
    } else {
        assert(distinct(rest).len() == 0);
    }
}

/// A first element that is kept stays first.
pub proof fn lemma_filter_first<A>(items: Seq<A>, keep: spec_fn(A) -> bool)
    requires
        items.len() > 0,
        keep(items[0]),
    ensures
        items.filter(keep).len() > 0,
        items.filter(keep)[0] == items[0],
    decreases items.len(),
{
    reveal(Seq::filter);
    let rest = items.drop_last();
    if rest.len() > 0 {
        lemma_filter_first(rest, keep);
    } else {
        assert(rest.filter(keep) =~= Seq::<A>::empty());
    }
}

/// A whole sequence is its longest prefix.
pub proof fn lemma_take_all<A>(items: Seq<A>)
    ensures
        items.take(items.len() as int) == items,
{
    assert(items.take(items.len() as int) =~= items);
}

} // verus!
