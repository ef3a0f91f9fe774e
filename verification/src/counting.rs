//! Counting over sequences: how often an item occurs, which items occur, and
//! in what order they were first seen.

use vstd::prelude::*;

verus! {

/// How many times `item` occurs in `items`.
pub open spec fn occurrences<T>(items: Seq<T>, item: T) -> nat
    decreases items.len(),
{
    if items.len() == 0 {
        0
    } else {
        occurrences(items.drop_last(), item) + if items.last() == item {
            1nat
        } else {
            0nat
        }
    }
}

/// `seen`, followed by the items of `items` that are not in `seen`, each once,
/// in the order of their first occurrence in `items`.
pub open spec fn first_seen<T>(seen: Seq<T>, items: Seq<T>) -> Seq<T>
    decreases items.len(),
{
    if items.len() == 0 {
        seen
    } else {
        let earlier = first_seen(seen, items.drop_last());
        if earlier.contains(items.last()) {
            earlier
        } else {
            earlier.push(items.last())
        }
    }
}

/// The distinct items of `items`, in the order of their first occurrence.
pub open spec fn distinct<T>(items: Seq<T>) -> Seq<T> {
    first_seen(Seq::empty(), items)
}

/// The occurrences in `items` of each entry of `keys`, added up.
pub open spec fn occurrences_of_all<T>(keys: Seq<T>, items: Seq<T>) -> nat
    decreases keys.len(),
{
    if keys.len() == 0 {
        0
    } else {
        occurrences_of_all(keys.drop_last(), items) + occurrences(items, keys.last())
    }
}

/// One more item at the end counts once more for itself and not for others.
pub proof fn lemma_occurrences_push<T>(items: Seq<T>, last: T, item: T)
    ensures
        occurrences(items.push(last), item) == occurrences(items, item) + if last == item {
            1nat
        } else {
            0nat
        },
{
    assert(items.push(last).drop_last() =~= items);
}

/// Occurrences add up over concatenation.
pub proof fn lemma_occurrences_add<T>(front: Seq<T>, back: Seq<T>, item: T)
    ensures
        occurrences(front + back, item) == occurrences(front, item) + occurrences(back, item),
    decreases back.len(),
{
    if back.len() == 0 {
        assert(front + back =~= front);
    } else {
        assert((front + back).drop_last() =~= front + back.drop_last());
        lemma_occurrences_add(front, back.drop_last(), item);
    }
}

/// An item occurs at most as often as the sequence is long, and it occurs at
/// all exactly when the sequence contains it.
pub proof fn lemma_occurrences_bounds<T>(items: Seq<T>, item: T)
    ensures
        occurrences(items, item) <= items.len(),
        occurrences(items, item) > 0 <==> items.contains(item),
    decreases items.len(),
{
    if items.len() > 0 {
        let front = items.drop_last();
        lemma_occurrences_bounds(front, item);
        if items.last() == item {
            assert(items[items.len() - 1] == item);
        } else if front.contains(item) {
            let i = choose|i: int| 0 <= i < front.len() && front[i] == item;
            assert(items[i] == item);
        } else if items.contains(item) {
            let i = choose|i: int| 0 <= i < items.len() && items[i] == item;
            assert(front[i] == item);
        }
    }
}

/// In a sequence without duplicates an item occurs once or not at all.
pub proof fn lemma_occurrences_no_duplicates<T>(items: Seq<T>, item: T)
    requires
        items.no_duplicates(),
    ensures
        occurrences(items, item) == if items.contains(item) {
            1nat
        } else {
            0nat
        },
    decreases items.len(),
{
    if items.len() > 0 {
        let front = items.drop_last();
        lemma_occurrences_no_duplicates(front, item);
        lemma_occurrences_bounds(items, item);
        lemma_occurrences_bounds(front, item);
        if items.last() == item && front.contains(item) {
            let i = choose|i: int| 0 <= i < front.len() && front[i] == item;
            assert(items[i] == items[items.len() - 1]);
        }
    }
}

/// One more item at the end is appended to the first-seen order exactly when
/// it has not been seen before.
pub proof fn lemma_first_seen_push<T>(seen: Seq<T>, items: Seq<T>, last: T)
    ensures
        first_seen(seen, items.push(last)) == if first_seen(seen, items).contains(last) {
            first_seen(seen, items)
        } else {
            first_seen(seen, items).push(last)
        },
{
    assert(items.push(last).drop_last() =~= items);
}

/// The first-seen order starts with `seen`, holds exactly the items of `seen`
/// and of `items`, and repeats none if `seen` repeats none.
pub proof fn lemma_first_seen<T>(seen: Seq<T>, items: Seq<T>)
    ensures
        seen.is_prefix_of(first_seen(seen, items)),
        forall|item: T| #[trigger]
            first_seen(seen, items).contains(item) <==> seen.contains(item) || items.contains(
                item,
            ),
        seen.no_duplicates() ==> first_seen(seen, items).no_duplicates(),
    decreases items.len(),
{
    let order = first_seen(seen, items);
    if items.len() == 0 {
        assert(seen.is_prefix_of(seen));
    } else {
        let front = items.drop_last();
        let earlier = first_seen(seen, front);
        lemma_first_seen(seen, front);
        assert forall|item: T| #[trigger]
            order.contains(item) <==> seen.contains(item) || items.contains(item) by {
            if order.contains(item) {
                let i = choose|i: int| 0 <= i < order.len() && order[i] == item;
                if i < earlier.len() {
                    assert(earlier[i] == item);
                    assert(earlier.contains(item));
                    if front.contains(item) {
                        let j = choose|j: int| 0 <= j < front.len() && front[j] == item;
                        assert(items[j] == item);
                    }
                } else {
                    assert(items[items.len() - 1] == item);
                }
            }
            if items.contains(item) {
                let j = choose|j: int| 0 <= j < items.len() && items[j] == item;
                if j < front.len() {
                    assert(front[j] == item);
                    assert(earlier.contains(item));
                    let i = choose|i: int| 0 <= i < earlier.len() && earlier[i] == item;
                    assert(order[i] == item);
                } else if earlier.contains(item) {
                    let i = choose|i: int| 0 <= i < earlier.len() && earlier[i] == item;
                    assert(order[i] == item);
                } else {
                    assert(order[order.len() - 1] == item);
                }
            }
            if seen.contains(item) {
                assert(earlier.contains(item));
                let i = choose|i: int| 0 <= i < earlier.len() && earlier[i] == item;
                assert(order[i] == item);
            }
        }
    }
}

/// The distinct items of a sequence repeat none, and they are the items that
/// occur in it at least once.
pub proof fn lemma_distinct<T>(items: Seq<T>)
    ensures
        distinct(items).no_duplicates(),
        forall|item: T| #[trigger] distinct(items).contains(item) <==> occurrences(items, item) > 0,
{
    lemma_first_seen(Seq::<T>::empty(), items);
    assert forall|item: T| #[trigger]
        distinct(items).contains(item) <==> occurrences(items, item) > 0 by {
        lemma_occurrences_bounds(items, item);
    }
}

/// One more item at the end of `items` adds to the total what `keys` holds of it.
pub proof fn lemma_occurrences_of_all_push<T>(keys: Seq<T>, items: Seq<T>, last: T)
    ensures
        occurrences_of_all(keys, items.push(last)) == occurrences_of_all(keys, items)
            + occurrences(keys, last),
    decreases keys.len(),
{
    if keys.len() > 0 {
        lemma_occurrences_of_all_push(keys.drop_last(), items, last);
        lemma_occurrences_push(items, last, keys.last());
    }
}

/// Added up over its distinct items, the occurrences in a sequence give its
/// length.
pub proof fn lemma_occurrences_of_distinct<T>(items: Seq<T>)
    ensures
        occurrences_of_all(distinct(items), items) == items.len(),
    decreases items.len(),
{
    if items.len() > 0 {
        let front = items.drop_last();
        let last = items.last();
        let earlier = distinct(front);
        assert(front.push(last) =~= items);
        lemma_occurrences_of_distinct(front);
        lemma_distinct(front);
        lemma_occurrences_of_all_push(earlier, front, last);
        lemma_occurrences_no_duplicates(earlier, last);
        if !earlier.contains(last) {
            assert(earlier.push(last).drop_last() =~= earlier);
            lemma_occurrences_push(front, last, last);
        }
    }
}

} // verus!
