//! Stable sorting by a rank.

use vstd::prelude::*;

verus! {

/// Items that can be put in order. Two different items may have the same rank.
pub trait Rank: Sized {
    /// Whether the item's rank is at most that of `other`.
    spec fn rank_le(self, other: Self) -> bool;

    /// Any two ranks can be compared.
    proof fn rank_total(a: Self, b: Self)
        ensures
            a.rank_le(b) || b.rank_le(a),
    ;

    /// The comparison is transitive.
    proof fn rank_transitive(a: Self, b: Self, c: Self)
        requires
            a.rank_le(b),
            b.rank_le(c),
        ensures
            a.rank_le(c),
    ;
}

/// Items that can be put in order by a program.
pub trait Ranked: Rank {
    /// Whether the item's rank is at most that of `other`.
    fn not_after(&self, other: &Self) -> (yes: bool)
        ensures
            yes == self.rank_le(*other),
    ;
}

/// `sorted` with `item` put in front of the first item that it may precede.
pub open spec fn placed<T: Rank>(sorted: Seq<T>, item: T) -> Seq<T>
    decreases sorted.len(),
{
    if sorted.len() == 0 {
        seq![item]
    } else if item.rank_le(sorted[0]) {
        seq![item] + sorted
    } else {
        seq![sorted[0]] + placed(sorted.skip(1), item)
    }
}

/// `items` in ascending order of rank; items of equal rank keep their order.
pub open spec fn stable_sorted<T: Rank>(items: Seq<T>) -> Seq<T>
    decreases items.len(),
{
    if items.len() == 0 {
        items
    } else {
        placed(stable_sorted(items.skip(1)), items[0])
    }
}

/// Whether every item's rank is at most that of the items behind it.
pub open spec fn is_ascending<T: Rank>(items: Seq<T>) -> bool {
    forall|i: int, j: int|
        #![trigger items[i], items[j]]
        0 <= i <= j < items.len() ==> items[i].rank_le(items[j])
}

/// Sorts `items` by rank. Items of equal rank keep their order.
pub fn sort_stable<T: Ranked>(items: Vec<T>) -> (sorted: Vec<T>)
    ensures
        sorted@ == stable_sorted(items@),
{
    let mut rest = items;
    let mut sorted: Vec<T> = Vec::new();
    let ghost whole = rest@;
    assert(whole.skip(rest@.len() as int) =~= Seq::<T>::empty());
    while rest.len() > 0
        invariant
            rest@ == whole.take(rest@.len() as int),
            rest@.len() <= whole.len(),
            sorted@ == stable_sorted(whole.skip(rest@.len() as int)),
        decreases rest@.len(),
    {
        let ghost before = rest@;
        let item = rest.pop().unwrap();
        let ghost tail = whole.skip(before.len() as int);
        let ghost longer = whole.skip(before.len() - 1);
        proof {
            assert(longer.skip(1) =~= tail);
            assert(longer[0] == item);
            assert(rest@ =~= whole.take(rest@.len() as int));
        }
        let ghost old_sorted = sorted@;
        let mut at: usize = 0;
        proof {
            assert(old_sorted.skip(0) =~= old_sorted);
            assert(old_sorted.take(0) + placed(old_sorted, item) =~= placed(old_sorted, item));
        }
        while at < sorted.len() && !item.not_after(&sorted[at])
            invariant
                sorted@ == old_sorted,
                at <= sorted@.len(),
                placed(old_sorted, item) == old_sorted.take(at as int) + placed(
                    old_sorted.skip(at as int),
                    item,
                ),
            decreases sorted@.len() - at,
        {
            proof {
                let here = old_sorted.skip(at as int);
                assert(here.skip(1) =~= old_sorted.skip(at + 1));
                assert(old_sorted.take(at + 1) =~= old_sorted.take(at as int).push(here[0]));
                assert(old_sorted.take(at as int) + (seq![here[0]] + placed(here.skip(1), item))
                    =~= old_sorted.take(at as int).push(here[0]) + placed(here.skip(1), item));
            }
            at += 1;
        }
        sorted.insert(at, item);
        proof {
            let here = old_sorted.skip(at as int);
            assert(placed(here, item) =~= seq![item] + here);
            assert(sorted@ =~= old_sorted.take(at as int) + (seq![item] + here));
            assert(stable_sorted(longer) == placed(old_sorted, item));
        }
    }
    assert(whole.skip(0) =~= whole);
    sorted
}

proof fn lemma_placed<T: Rank>(sorted: Seq<T>, item: T)
    requires
        is_ascending(sorted),
    ensures
        is_ascending(placed(sorted, item)),
        placed(sorted, item).to_multiset() == sorted.to_multiset().insert(item),
        placed(sorted, item).len() == sorted.len() + 1,
    decreases sorted.len(),
{
    broadcast use vstd::seq_lib::group_to_multiset_ensures;

    T::rank_total(item, item);
    if sorted.len() == 0 {
        assert(seq![item] =~= Seq::<T>::empty().push(item));
        assert(sorted =~= Seq::<T>::empty());
    } else if item.rank_le(sorted[0]) {
        let result = seq![item] + sorted;
        assert forall|i: int, j: int|
            #![trigger result[i], result[j]]
            0 <= i <= j < result.len() implies result[i].rank_le(result[j]) by {
            if i == 0 && j > 0 {
                assert(sorted[0].rank_le(sorted[j - 1]));
                T::rank_transitive(item, sorted[0], sorted[j - 1]);
            } else if i > 0 {
                assert(sorted[i - 1].rank_le(sorted[j - 1]));
            }
        }
        vstd::seq_lib::lemma_multiset_commutative(seq![item], sorted);
        assert(seq![item] =~= Seq::<T>::empty().push(item));
        assert(result.to_multiset() =~= sorted.to_multiset().insert(item));
    } else {
        let rest = sorted.skip(1);
        assert forall|i: int, j: int|
            #![trigger rest[i], rest[j]]
            0 <= i <= j < rest.len() implies rest[i].rank_le(rest[j]) by {
            assert(sorted[i + 1].rank_le(sorted[j + 1]));
        }
        lemma_placed(rest, item);
        T::rank_total(item, sorted[0]);
        let inner = placed(rest, item);
        let result = seq![sorted[0]] + inner;
        assert forall|k: int| 0 <= k < inner.len() implies sorted[0].rank_le(#[trigger] inner[k]) by {
            assert(inner.to_multiset().count(inner[k]) > 0);
            if inner[k] != item {
                assert(rest.to_multiset().count(inner[k]) > 0);
                assert(rest.contains(inner[k]));
                let m = choose|m: int| 0 <= m < rest.len() && rest[m] == inner[k];
                assert(sorted[0].rank_le(sorted[m + 1]));
            }
        }
        assert forall|i: int, j: int|
            #![trigger result[i], result[j]]
            0 <= i <= j < result.len() implies result[i].rank_le(result[j]) by {
            if i == 0 && j == 0 {
                T::rank_total(sorted[0], sorted[0]);
            } else if i == 0 {
                assert(sorted[0].rank_le(inner[j - 1]));
            } else {
                assert(inner[i - 1].rank_le(inner[j - 1]));
            }
        }
        vstd::seq_lib::lemma_multiset_commutative(seq![sorted[0]], inner);
        vstd::seq_lib::lemma_multiset_commutative(seq![sorted[0]], rest);
        assert(sorted =~= seq![sorted[0]] + rest);
        assert(result.to_multiset() =~= sorted.to_multiset().insert(item));
    }
}

/// The sorted sequence ascends and holds the same items.
pub proof fn stable_sort_orders<T: Rank>(items: Seq<T>)
    ensures
        is_ascending(stable_sorted(items)),
        stable_sorted(items).to_multiset() == items.to_multiset(),
        stable_sorted(items).len() == items.len(),
    decreases items.len(),
{
    broadcast use vstd::seq_lib::group_to_multiset_ensures;

    if items.len() > 0 {
        let rest = items.skip(1);
        stable_sort_orders(rest);
        lemma_placed(stable_sorted(rest), items[0]);
        vstd::seq_lib::lemma_multiset_commutative(seq![items[0]], rest);
        assert(seq![items[0]] =~= Seq::<T>::empty().push(items[0]));
        assert(items =~= seq![items[0]] + rest);
        assert(stable_sorted(items).to_multiset() =~= items.to_multiset());
    }
}

/// The items of a sequence that have the same rank as `pivot`, in their order.
pub open spec fn peers<T: Rank>(items: Seq<T>, pivot: T) -> Seq<T> {
    items.filter(|x: T| x.rank_le(pivot) && pivot.rank_le(x))
}

proof fn lemma_peers_of_pair<T: Rank>(head: T, tail: Seq<T>, pivot: T)
    ensures
        peers(seq![head] + tail, pivot) == (if head.rank_le(pivot) && pivot.rank_le(head) {
            seq![head] + peers(tail, pivot)
        } else {
            peers(tail, pivot)
        }),
{
    let pred = |x: T| x.rank_le(pivot) && pivot.rank_le(x);
    Seq::filter_distributes_over_add(seq![head], tail, pred);
    reveal(Seq::filter);
    assert(seq![head].drop_last() =~= Seq::<T>::empty());
    assert(seq![head].drop_last().filter(pred) =~= Seq::<T>::empty());
    assert(seq![head].filter(pred) =~= if pred(head) {
        seq![head]
    } else {
        Seq::<T>::empty()
    });
    assert(Seq::<T>::empty() + tail.filter(pred) =~= tail.filter(pred));
}

proof fn lemma_placed_peers<T: Rank>(sorted: Seq<T>, item: T, pivot: T)
    requires
        is_ascending(sorted),
    ensures
        peers(placed(sorted, item), pivot) == peers(seq![item] + sorted, pivot),
    decreases sorted.len(),
{
    if sorted.len() == 0 {
        assert(seq![item] + sorted =~= seq![item]);
    } else if !item.rank_le(sorted[0]) {
        let rest = sorted.skip(1);
        assert forall|i: int, j: int|
            #![trigger rest[i], rest[j]]
            0 <= i <= j < rest.len() implies rest[i].rank_le(rest[j]) by {
            assert(sorted[i + 1].rank_le(sorted[j + 1]));
        }
        lemma_placed_peers(rest, item, pivot);
        lemma_peers_of_pair(sorted[0], placed(rest, item), pivot);
        lemma_peers_of_pair(sorted[0], rest, pivot);
        lemma_peers_of_pair(item, rest, pivot);
        lemma_peers_of_pair(item, sorted, pivot);
        assert(sorted =~= seq![sorted[0]] + rest);
        if sorted[0].rank_le(pivot) && pivot.rank_le(sorted[0]) && item.rank_le(pivot)
            && pivot.rank_le(item) {
            T::rank_transitive(item, pivot, sorted[0]);
        }
    }
}

/// Sorting keeps the order of items that have the same rank.
pub proof fn stable_sort_keeps_order_of_peers<T: Rank>(items: Seq<T>, pivot: T)
    ensures
        peers(stable_sorted(items), pivot) == peers(items, pivot),
    decreases items.len(),
{
    if items.len() > 0 {
        let rest = items.skip(1);
        stable_sort_keeps_order_of_peers(rest, pivot);
        stable_sort_orders(rest);
        lemma_placed_peers(stable_sorted(rest), items[0], pivot);
        lemma_peers_of_pair(items[0], stable_sorted(rest), pivot);
        lemma_peers_of_pair(items[0], rest, pivot);
        assert(items =~= seq![items[0]] + rest);
    }
}

/// A sequence in ascending order is left as it is.
pub proof fn stable_sort_keeps_sorted<T: Rank>(items: Seq<T>)
    requires
        is_ascending(items),
    ensures
        stable_sorted(items) == items,
    decreases items.len(),
{
    if items.len() > 0 {
        let rest = items.skip(1);
        assert forall|i: int, j: int|
            #![trigger rest[i], rest[j]]
            0 <= i <= j < rest.len() implies rest[i].rank_le(rest[j]) by {
            assert(items[i + 1].rank_le(items[j + 1]));
        }
        stable_sort_keeps_sorted(rest);
        if rest.len() > 0 {
            assert(items[0].rank_le(items[1]));
        }
        assert(placed(rest, items[0]) =~= items);
    }
}

/// The images of items.
pub open spec fn mapped<T, U>(items: Seq<T>, f: spec_fn(T) -> U) -> Seq<U> {
    Seq::new(items.len(), |i: int| f(items[i]))
}

proof fn lemma_placed_mapped<T: Rank, U: Rank>(sorted: Seq<T>, item: T, f: spec_fn(T) -> U)
    requires
        forall|k: int|
            #![trigger sorted[k]]
            0 <= k < sorted.len() ==> f(item).rank_le(f(sorted[k])) == item.rank_le(sorted[k]),
    ensures
        placed(mapped(sorted, f), f(item)) == mapped(placed(sorted, item), f),
    decreases sorted.len(),
{
    let images = mapped(sorted, f);
    if sorted.len() == 0 {
        assert(placed(images, f(item)) =~= mapped(placed(sorted, item), f));
    } else {
        assert(f(item).rank_le(f(sorted[0])) == item.rank_le(sorted[0]));
        if !item.rank_le(sorted[0]) {
            let rest = sorted.skip(1);
            assert forall|k: int|
                #![trigger rest[k]]
                0 <= k < rest.len() implies f(item).rank_le(f(rest[k])) == item.rank_le(
                rest[k],
            ) by {
                assert(sorted[k + 1] == rest[k]);
            }
            lemma_placed_mapped(rest, item, f);
            assert(images.skip(1) =~= mapped(rest, f));
        }
        assert(placed(images, f(item)) =~= mapped(placed(sorted, item), f));
    }
}

/// Sorting the images of items gives the images of the sorted items, where the
/// images are in the same order as the items.
pub proof fn stable_sort_of_images<T: Rank, U: Rank>(items: Seq<T>, f: spec_fn(T) -> U)
    requires
        forall|i: int, j: int|
            #![trigger items[i], items[j]]
            0 <= i < items.len() && 0 <= j < items.len() ==> f(items[i]).rank_le(f(items[j]))
                == items[i].rank_le(items[j]),
    ensures
        stable_sorted(mapped(items, f)) == mapped(stable_sorted(items), f),
    decreases items.len(),
{
    broadcast use vstd::seq_lib::group_to_multiset_ensures;

    if items.len() > 0 {
        let rest = items.skip(1);
        assert forall|i: int, j: int|
            #![trigger rest[i], rest[j]]
            0 <= i < rest.len() && 0 <= j < rest.len() implies f(rest[i]).rank_le(f(rest[j]))
            == rest[i].rank_le(rest[j]) by {
            assert(items[i + 1] == rest[i]);
            assert(items[j + 1] == rest[j]);
        }
        stable_sort_of_images(rest, f);
        assert(mapped(items, f).skip(1) =~= mapped(rest, f));
        let sorted = stable_sorted(rest);
        stable_sort_orders(rest);
        assert forall|k: int|
            #![trigger sorted[k]]
            0 <= k < sorted.len() implies f(items[0]).rank_le(f(sorted[k])) == items[0].rank_le(
            sorted[k],
        ) by {
            assert(sorted.to_multiset().count(sorted[k]) > 0);
            assert(rest.contains(sorted[k]));
            let m = choose|m: int| 0 <= m < rest.len() && rest[m] == sorted[k];
            assert(items[m + 1] == sorted[k]);
        }
        lemma_placed_mapped(sorted, items[0], f);
    } else {
        assert(stable_sorted(mapped(items, f)) =~= mapped(stable_sorted(items), f));
    }
}

} // verus!
