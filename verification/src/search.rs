//! Finding the first item of a list that is wanted.

use vstd::prelude::*;

verus! {

/// The first place at or after `from` at which `items` holds an item that is
/// wanted.
pub open spec fn first_where<T>(items: Seq<T>, wanted: spec_fn(T) -> bool, from: int) -> Option<
    int,
>
    decreases items.len() - from,
{
    if from < 0 || from >= items.len() {
        None
    } else if wanted(items[from]) {
        Some(from)
    } else {
        first_where(items, wanted, from + 1)
    }
}

/// What is wanted where `item` is looked for: an item that equals it.
pub open spec fn same_as<T>(item: T) -> spec_fn(T) -> bool {
    |other: T| other == item
}

/// The first place at or after `from` at which `items` holds `item`.
pub open spec fn first_index<T>(items: Seq<T>, item: T, from: int) -> Option<int> {
    first_where(items, same_as(item), from)
}

/// A search from `from` on finds the first place at or after `from` that
/// holds a wanted item, and finds nothing only where no item there is wanted.
pub proof fn lemma_first_where<T>(items: Seq<T>, wanted: spec_fn(T) -> bool, from: int)
    requires
        0 <= from,
    ensures
        match first_where(items, wanted, from) {
            Some(i) => from <= i < items.len() && wanted(items[i]) && forall|j: int|
                from <= j < i ==> !wanted(#[trigger] items[j]),
            None => forall|j: int| from <= j < items.len() ==> !wanted(#[trigger] items[j]),
        },
    decreases items.len() - from,
{
    if from < items.len() && !wanted(items[from]) {
        lemma_first_where(items, wanted, from + 1);
    }
}

/// The same of the search for one item.
pub proof fn lemma_first_index<T>(items: Seq<T>, item: T, from: int)
    requires
        0 <= from,
    ensures
        match first_index(items, item, from) {
            Some(i) => from <= i < items.len() && items[i] == item && forall|j: int|
                from <= j < i ==> (#[trigger] items[j]) != item,
            None => forall|j: int| from <= j < items.len() ==> (#[trigger] items[j]) != item,
        },
{
    lemma_first_where(items, same_as(item), from);
}

} // verus!
