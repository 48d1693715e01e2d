//! Counting items: how often each is placed, and how often it is still to be placed.
use crate::items::{lemma_ids_items, lemma_item_ids, Item, ITEM_COUNT};
use crate::state::{total, ItemLocationState};
use vstd::multiset::Multiset;
use vstd::prelude::*;

verus! {

/// The items at the locations.
pub open spec fn placed(locations: Seq<ItemLocationState>) -> Multiset<Item>
    decreases locations.len(),
{
    if locations.len() == 0 {
        Multiset::empty()
    } else {
        match locations.last().placed_item {
            Some(item) => placed(locations.drop_last()).insert(item),
            None => placed(locations.drop_last()),
        }
    }
}

/// The number of locations without an item.
pub open spec fn unplaced(locations: Seq<ItemLocationState>) -> nat
    decreases locations.len(),
{
    if locations.len() == 0 {
        0
    } else if locations.last().placed_item is None {
        unplaced(locations.drop_last()) + 1
    } else {
        unplaced(locations.drop_last())
    }
}

/// Of every item, the copies placed and the copies remaining make up the initial count.
pub open spec fn conserved(
    initial: Seq<usize>,
    remaining: Seq<usize>,
    locations: Seq<ItemLocationState>,
) -> bool {
    forall|item: Item|
        #![trigger placed(locations).count(item)]
        placed(locations).count(item) + remaining[item.id()] == initial[item.id()]
}

/// How often an item occurs in a list.
pub open spec fn occurrences(items: Seq<Item>, item: Item) -> nat {
    items.to_multiset().count(item)
}

/// The counts left after taking each listed item once.
pub open spec fn deducted(counts: Seq<usize>, items: Seq<Item>) -> Seq<usize> {
    Seq::new(
        counts.len(),
        |id: int| (counts[id] - occurrences(items, Item::with_id(id))) as usize,
    )
}

/// No item is listed more often than it is counted.
pub open spec fn affordable(counts: Seq<usize>, items: Seq<Item>) -> bool {
    forall|item: Item| #[trigger] occurrences(items, item) <= counts[item.id()]
}

/// The number of elements of a multiset among the first `n` items.
pub open spec fn tally(items: Multiset<Item>, n: nat) -> nat
    decreases n,
{
    if n == 0 {
        0
    } else {
        tally(items, (n - 1) as nat) + items.count(Item::with_id(n - 1))
    }
}

pub proof fn lemma_occurrences_empty(item: Item)
    ensures
        occurrences(Seq::empty(), item) == 0,
{
    broadcast use vstd::seq_lib::group_to_multiset_ensures;

    assert(!Seq::<Item>::empty().contains(item));
}

pub proof fn lemma_occurrences_push(items: Seq<Item>, added: Item, item: Item)
    ensures
        occurrences(items.push(added), item) == occurrences(items, item) + (if item == added {
            1nat
        } else {
            0nat
        }),
{
    broadcast use vstd::seq_lib::group_to_multiset_ensures;

}

pub proof fn lemma_occurrences_add(a: Seq<Item>, b: Seq<Item>, item: Item)
    ensures
        occurrences(a + b, item) == occurrences(a, item) + occurrences(b, item),
{
    vstd::seq_lib::lemma_multiset_commutative(a, b);
}

proof fn lemma_tally_insert(items: Multiset<Item>, item: Item, n: nat)
    requires
        n <= ITEM_COUNT,
    ensures
        tally(items.insert(item), n) == tally(items, n) + (if item.id() < n {
            1nat
        } else {
            0nat
        }),
    decreases n,
{
    if n > 0 {
        lemma_tally_insert(items, item, (n - 1) as nat);
        lemma_ids_items(n - 1);
        lemma_item_ids(item);
    }
}

proof fn lemma_tally_empty(n: nat)
    ensures
        tally(Multiset::empty(), n) == 0,
    decreases n,
{
    if n > 0 {
        lemma_tally_empty((n - 1) as nat);
    }
}

proof fn lemma_tally_placed(locations: Seq<ItemLocationState>)
    ensures
        tally(placed(locations), ITEM_COUNT as nat) + unplaced(locations) == locations.len(),
    decreases locations.len(),
{
    if locations.len() == 0 {
        lemma_tally_empty(ITEM_COUNT as nat);
    } else {
        lemma_tally_placed(locations.drop_last());
        if let Some(item) = locations.last().placed_item {
            lemma_tally_insert(placed(locations.drop_last()), item, ITEM_COUNT as nat);
            lemma_item_ids(item);
        }
    }
}

proof fn lemma_tally_occurrences(items: Seq<Item>)
    ensures
        tally(items.to_multiset(), ITEM_COUNT as nat) == items.len(),
    decreases items.len(),
{
    broadcast use vstd::seq_lib::group_to_multiset_ensures;

    if items.len() == 0 {
        assert(items.to_multiset() =~= Multiset::empty());
        lemma_tally_empty(ITEM_COUNT as nat);
    } else {
        lemma_tally_occurrences(items.drop_last());
        assert(items =~= items.drop_last().push(items.last()));
        lemma_tally_insert(items.drop_last().to_multiset(), items.last(), ITEM_COUNT as nat);
        lemma_item_ids(items.last());
    }
}

/// Totals differ by what the tables differ by.
proof fn lemma_total_difference(
    larger: Seq<usize>,
    smaller: Seq<usize>,
    items: Multiset<Item>,
    n: nat,
)
    requires
        n <= larger.len(),
        n <= smaller.len(),
        forall|id: int|
            0 <= id < n ==> #[trigger] larger[id] == smaller[id] + items.count(Item::with_id(id)),
    ensures
        total(larger.take(n as int)) == total(smaller.take(n as int)) + tally(items, n),
    decreases n,
{
    if n > 0 {
        lemma_total_difference(larger, smaller, items, (n - 1) as nat);
        assert(larger.take(n as int).drop_last() =~= larger.take(n - 1));
        assert(smaller.take(n as int).drop_last() =~= smaller.take(n - 1));
        assert(larger[n - 1] == smaller[n - 1] + items.count(Item::with_id(n - 1)));
    }
}

/// As many copies remain as there are locations without an item.
pub proof fn lemma_remaining_is_unplaced(
    initial: Seq<usize>,
    remaining: Seq<usize>,
    locations: Seq<ItemLocationState>,
)
    requires
        initial.len() == ITEM_COUNT,
        remaining.len() == ITEM_COUNT,
        conserved(initial, remaining, locations),
        total(initial) == locations.len(),
    ensures
        total(remaining) == unplaced(locations),
{
    let items = placed(locations);
    assert forall|id: int| 0 <= id < ITEM_COUNT implies #[trigger] initial[id] == remaining[id]
        + items.count(Item::with_id(id)) by {
        lemma_ids_items(id);
        assert(items.count(Item::with_id(id)) + remaining[id] == initial[id]);
    }
    lemma_total_difference(initial, remaining, items, ITEM_COUNT as nat);
    assert(initial.take(ITEM_COUNT as int) =~= initial);
    assert(remaining.take(ITEM_COUNT as int) =~= remaining);
    lemma_tally_placed(locations);
}

/// A total is no more than the number of items that bound its entries.
pub proof fn lemma_total_below_tally(counts: Seq<usize>, items: Seq<Item>)
    requires
        counts.len() == ITEM_COUNT,
        forall|item: Item| counts[item.id()] <= #[trigger] occurrences(items, item),
    ensures
        total(counts) <= items.len(),
{
    lemma_tally_occurrences(items);
    lemma_total_prefix_below_tally(counts, items, ITEM_COUNT as nat);
    assert(counts.take(ITEM_COUNT as int) =~= counts);
}

proof fn lemma_total_prefix_below_tally(counts: Seq<usize>, items: Seq<Item>, n: nat)
    requires
        n <= ITEM_COUNT == counts.len(),
        forall|item: Item| counts[item.id()] <= #[trigger] occurrences(items, item),
    ensures
        total(counts.take(n as int)) <= tally(items.to_multiset(), n),
    decreases n,
{
    if n > 0 {
        lemma_total_prefix_below_tally(counts, items, (n - 1) as nat);
        assert(counts.take(n as int).drop_last() =~= counts.take(n - 1));
        lemma_ids_items(n - 1);
        assert(counts[n - 1] <= occurrences(items, Item::with_id(n - 1)));
    }
}

/// Taking items lowers the total by their number.
pub proof fn lemma_deducted_total(counts: Seq<usize>, items: Seq<Item>)
    requires
        counts.len() == ITEM_COUNT,
        affordable(counts, items),
    ensures
        total(counts) == total(deducted(counts, items)) + items.len(),
{
    let left = deducted(counts, items);
    assert forall|id: int| 0 <= id < ITEM_COUNT implies #[trigger] counts[id] == left[id]
        + items.to_multiset().count(Item::with_id(id)) by {
        lemma_ids_items(id);
        assert(occurrences(items, Item::with_id(id)) <= counts[id]);
    }
    lemma_total_difference(counts, left, items.to_multiset(), ITEM_COUNT as nat);
    assert(counts.take(ITEM_COUNT as int) =~= counts);
    assert(left.take(ITEM_COUNT as int) =~= left);
    lemma_tally_occurrences(items);
}

/// Putting an item at a free location.
pub proof fn lemma_place_one(locations: Seq<ItemLocationState>, i: int, after: ItemLocationState)
    requires
        0 <= i < locations.len(),
        locations[i].placed_item is None,
        after.placed_item is Some,
    ensures
        placed(locations.update(i, after)) == placed(locations).insert(after.placed_item->0),
        unplaced(locations.update(i, after)) + 1 == unplaced(locations),
    decreases locations.len(),
{
    let updated = locations.update(i, after);
    if i == locations.len() - 1 {
        assert(updated.drop_last() =~= locations.drop_last());
    } else {
        lemma_place_one(locations.drop_last(), i, after);
        assert(updated.drop_last() =~= locations.drop_last().update(i, after));
        assert(updated.last() == locations.last());
        if let Some(item) = locations.last().placed_item {
            let rest = placed(locations.drop_last());
            assert(rest.insert(after.placed_item->0).insert(item) =~= rest.insert(item).insert(
                after.placed_item->0,
            ));
        }
    }
}

/// Only the items at the locations matter.
pub proof fn lemma_same_items(a: Seq<ItemLocationState>, b: Seq<ItemLocationState>)
    requires
        a.len() == b.len(),
        forall|i: int| 0 <= i < a.len() ==> (#[trigger] a[i]).placed_item == b[i].placed_item,
    ensures
        placed(a) == placed(b),
        unplaced(a) == unplaced(b),
    decreases a.len(),
{
    if a.len() > 0 {
        assert forall|i: int| 0 <= i < a.len() - 1 implies (#[trigger] a.drop_last()[i]).placed_item
            == b.drop_last()[i].placed_item by {
            assert(a[i].placed_item == b[i].placed_item);
        }
        lemma_same_items(a.drop_last(), b.drop_last());
        assert(a[a.len() - 1].placed_item == b[a.len() - 1].placed_item);
    }
}

/// Adds up a table of counts.
pub fn sum_counts(counts: &Vec<usize>) -> (sum: usize)
    requires
        total(counts@) <= usize::MAX,
    ensures
        sum == total(counts@),
{
    let mut sum: usize = 0;
    let mut i: usize = 0;
    assert(counts@.take(0) =~= Seq::empty());
    while i < counts.len()
        invariant
            i <= counts@.len(),
            sum == total(counts@.take(i as int)),
            total(counts@) <= usize::MAX,
        decreases counts@.len() - i,
    {
        assert(counts@.take(i as int + 1).drop_last() =~= counts@.take(i as int));
        proof {
            lemma_total_monotone(counts@, i as int + 1);
        }
        sum += counts[i];
        i += 1;
    }
    assert(counts@.take(i as int) =~= counts@);
    sum
}

proof fn lemma_total_monotone(counts: Seq<usize>, n: int)
    requires
        0 <= n <= counts.len(),
    ensures
        total(counts.take(n)) <= total(counts),
    decreases counts.len(),
{
    if n == counts.len() {
        assert(counts.take(n) =~= counts);
    } else {
        lemma_total_monotone(counts.drop_last(), n);
        assert(counts.drop_last().take(n) =~= counts.take(n));
    }
}

/// Takes each listed item once.
pub fn deduct(counts: &mut Vec<usize>, items: &Vec<Item>)
    requires
        old(counts)@.len() == ITEM_COUNT,
        affordable(old(counts)@, items@),
    ensures
        final(counts)@ == deducted(old(counts)@, items@),
{
    let ghost start = counts@;
    let mut i: usize = 0;
    proof {
        assert forall|item: Item| occurrences(Seq::empty(), item) == 0 by {
            lemma_occurrences_empty(item);
        }
        assert(items@.take(0) =~= Seq::empty());
        assert(counts@ =~= deducted(start, items@.take(0)));
    }
    while i < items.len()
        invariant
            i <= items@.len(),
            start.len() == ITEM_COUNT,
            affordable(start, items@),
            counts@ == deducted(start, items@.take(i as int)),
        decreases items@.len() - i,
    {
        let item: Item = items[i];
        let id: usize = item.index();
        let ghost taken = items@.take(i as int);
        proof {
            assert(items@.take(i as int + 1) =~= taken.push(item));
            lemma_item_ids(item);
            lemma_occurrences_push(taken, item, item);
            assert(items@ =~= taken.push(item) + items@.skip(i as int + 1));
            lemma_occurrences_add(taken.push(item), items@.skip(i as int + 1), item);
            assert(occurrences(items@, item) <= start[item.id()]);
        }
        let left: usize = counts[id];
        counts.set(id, left - 1);
        proof {
            assert forall|j: int| 0 <= j < ITEM_COUNT implies #[trigger] counts@[j] == deducted(
                start,
                taken.push(item),
            )[j] by {
                lemma_ids_items(j);
                lemma_occurrences_push(taken, item, Item::with_id(j));
            }
            assert(counts@ =~= deducted(start, taken.push(item)));
        }
        i += 1;
    }
    assert(items@.take(i as int) =~= items@);
}

/// Whether each listed item can be taken once.
pub fn can_afford(counts: &Vec<usize>, items: &Vec<Item>) -> (yes: bool)
    requires
        counts@.len() == ITEM_COUNT,
    ensures
        yes == affordable(counts@, items@),
{
    let mut left: Vec<usize> = counts.clone();
    assert(left@ =~= counts@);
    let mut i: usize = 0;
    proof {
        assert(items@.take(0) =~= Seq::empty());
        assert forall|item: Item| occurrences(items@.take(0), item) == 0 by {
            lemma_occurrences_empty(item);
        }
        assert(left@ =~= deducted(counts@, items@.take(0)));
    }
    while i < items.len()
        invariant
            i <= items@.len(),
            counts@.len() == ITEM_COUNT,
            affordable(counts@, items@.take(i as int)),
            left@ == deducted(counts@, items@.take(i as int)),
        decreases items@.len() - i,
    {
        let item: Item = items[i];
        let id: usize = item.index();
        let ghost taken = items@.take(i as int);
        proof {
            assert(items@.take(i as int + 1) =~= taken.push(item));
            lemma_item_ids(item);
            lemma_occurrences_push(taken, item, item);
            assert(occurrences(taken, item) <= counts@[item.id()]);
        }
        let rest: usize = left[id];
        if rest == 0 {
            proof {
                assert(items@ =~= taken.push(item) + items@.skip(i as int + 1));
                lemma_occurrences_add(taken.push(item), items@.skip(i as int + 1), item);
                assert(occurrences(items@, item) > counts@[item.id()]);
            }
            return false;
        }
        left.set(id, rest - 1);
        proof {
            assert forall|other: Item| #[trigger]
                occurrences(taken.push(item), other) <= counts@[other.id()] by {
                lemma_occurrences_push(taken, item, other);
                assert(occurrences(taken, other) <= counts@[other.id()]);
            }
            assert forall|j: int| 0 <= j < ITEM_COUNT implies #[trigger] left@[j] == deducted(
                counts@,
                taken.push(item),
            )[j] by {
                lemma_ids_items(j);
                lemma_occurrences_push(taken, item, Item::with_id(j));
            }
            assert(left@ =~= deducted(counts@, taken.push(item)));
        }
        i += 1;
    }
    assert(items@.take(i as int) =~= items@);
    true
}

}
