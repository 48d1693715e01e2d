//! Choosing the items of a step: key items that open up the map, and others to fill in.
use crate::counting::{
    affordable, can_afford, deduct, deducted, lemma_deducted_total, lemma_occurrences_add,
    lemma_occurrences_empty, lemma_occurrences_push, lemma_total_below_tally, occurrences,
    sum_counts,
};
use crate::items::{all_items, lemma_ids_items, lemma_item_ids, Item, ITEM_COUNT};
use crate::outside::{may_shuffle, shuffle};
use crate::single::{key_item_share, lemma_share_positive, single_share};
use crate::state::{
    initial_counts, total, ItemPlacementStrategy, RandomizationState, Randomizer,
    SelectItemsOutput, StateView,
};
use rand::rngs::StdRng;
use vstd::prelude::*;

verus! {

/// Every item occurs once.
pub open spec fn is_ordering(items: Seq<Item>) -> bool {
    forall|item: Item| #[trigger] occurrences(items, item) == 1
}

/// A number of copies of an item.
pub open spec fn copies(item: Item, count: nat) -> Seq<Item> {
    Seq::new(count, |i: int| item)
}

/// All copies that are counted of each listed item, in the order of the list.
pub open spec fn stock(items: Seq<Item>, counts: Seq<usize>) -> Seq<Item>
    decreases items.len(),
{
    if items.len() == 0 {
        Seq::empty()
    } else {
        stock(items.drop_last(), counts) + copies(items.last(), counts[items.last().id()] as nat)
    }
}

/// The items that occur only once, by number.
pub open spec fn unique_items() -> Seq<Item> {
    all_items().filter(|item: Item| !item.is_expansion())
}

pub open spec fn lesser(a: int, b: int) -> int {
    if a <= b {
        a
    } else {
        b
    }
}

impl<'a> Randomizer<'a> {
    /// A copy of the item has been placed.
    pub open spec fn begun(self, remaining: Seq<usize>, item: Item) -> bool {
        remaining[item.id()] < self.initial_items_remaining@[item.id()]
    }

    /// The items of which no copy has been placed, in their order of precedence.
    pub open spec fn key_candidates<T>(self, s: StateView<T>) -> Seq<Item> {
        s.item_precedence.filter(
            |item: Item| s.remaining[item.id()] == self.initial_items_remaining@[item.id()],
        )
    }

    /// The number of key items to place at `num_bireachable` locations that can be reached
    /// and left, and `num_oneway` that can only be reached. All that are left are wanted
    /// once fewer than twenty locations would stay free; before that one at a time, or with
    /// the open strategy in proportion to the number of locations.
    pub open spec fn key_item_count<T>(
        self,
        s: StateView<T>,
        num_bireachable: int,
        num_oneway: int,
    ) -> int {
        let candidates = self.key_candidates(s).len() as int;
        let places = num_bireachable + num_oneway;
        let wanted = if total(s.remaining) < places + 20 {
            candidates
        } else {
            match self.difficulty.item_placement_strategy {
                ItemPlacementStrategy::Open => single_share(
                    candidates,
                    total(s.remaining) as int,
                    places,
                ),
                _ => 1,
            }
        };
        lesser(wanted, lesser(num_bireachable, candidates))
    }

    /// No candidate is left for the last key item.
    pub open spec fn exhausted<T>(
        self,
        s: StateView<T>,
        num_bireachable: int,
        num_oneway: int,
        attempt_num: int,
    ) -> bool {
        self.key_item_count(s, num_bireachable, num_oneway) - 1 + attempt_num
            >= self.key_candidates(s).len()
    }

    /// The key items to place: the first candidates, but for the last one, which is passed
    /// on to the next candidate with every attempt.
    pub open spec fn key_items<T>(
        self,
        s: StateView<T>,
        num_bireachable: int,
        num_oneway: int,
        attempt_num: int,
    ) -> Seq<Item> {
        let count = self.key_item_count(s, num_bireachable, num_oneway);
        let candidates = self.key_candidates(s);
        candidates.take(count - 1).push(candidates[count - 1 + attempt_num])
    }

    /// The items that occur repeatedly and are placed in random order.
    pub open spec fn types_to_mix(self, remaining: Seq<usize>) -> Seq<Item> {
        match self.difficulty.item_placement_strategy {
            ItemPlacementStrategy::Open => seq![
                Item::Missile,
                Item::ETank,
                Item::ReserveTank,
                Item::Super,
                Item::PowerBomb,
            ],
            ItemPlacementStrategy::Semiclosed => seq![
                Item::Missile,
                Item::ETank,
                Item::ReserveTank,
            ] + (if self.begun(remaining, Item::Super) {
                seq![Item::Super]
            } else {
                seq![]
            }) + (if self.begun(remaining, Item::PowerBomb) {
                seq![Item::PowerBomb]
            } else {
                seq![]
            }),
            ItemPlacementStrategy::Closed => seq![Item::Missile],
        }
    }

    /// The items that occur repeatedly and are placed only after those in random order.
    pub open spec fn types_to_delay(self, remaining: Seq<usize>) -> Seq<Item> {
        match self.difficulty.item_placement_strategy {
            ItemPlacementStrategy::Open => seq![],
            ItemPlacementStrategy::Semiclosed => (if self.begun(remaining, Item::Super) {
                seq![]
            } else {
                seq![Item::Super]
            }) + (if self.begun(remaining, Item::PowerBomb) {
                seq![]
            } else {
                seq![Item::PowerBomb]
            }),
            ItemPlacementStrategy::Closed => if self.begun(remaining, Item::PowerBomb)
                && remaining[Item::Super.id()]
                == self.initial_items_remaining@[Item::Super.id()] {
                seq![Item::ETank, Item::ReserveTank, Item::PowerBomb, Item::Super]
            } else {
                seq![Item::ETank, Item::ReserveTank, Item::Super, Item::PowerBomb]
            },
        }
    }

    /// The order in which items other than key items are placed, given the order `mixed`
    /// of those that are placed in random order.
    pub open spec fn supply(self, mixed: Seq<Item>, remaining: Seq<usize>) -> Seq<Item> {
        mixed + stock(self.types_to_delay(remaining), remaining) + unique_items()
    }

    /// The items to place beside the key items.
    pub open spec fn other_items<T>(
        self,
        s: StateView<T>,
        num_bireachable: int,
        num_oneway: int,
        attempt_num: int,
        mixed: Seq<Item>,
    ) -> Seq<Item> {
        let keys = self.key_items(s, num_bireachable, num_oneway, attempt_num);
        self.supply(mixed, deducted(s.remaining, keys)).take(
            num_bireachable + num_oneway - keys.len(),
        )
    }

    /// The copies that are placed in random order.
    pub open spec fn mix<T>(
        self,
        s: StateView<T>,
        num_bireachable: int,
        num_oneway: int,
        attempt_num: int,
    ) -> Seq<Item> {
        let left = deducted(
            s.remaining,
            self.key_items(s, num_bireachable, num_oneway, attempt_num),
        );
        stock(self.types_to_mix(left), left)
    }

    /// The items to place include one of which no copy is left.
    pub open spec fn overdrawn<T>(
        self,
        s: StateView<T>,
        num_bireachable: int,
        num_oneway: int,
        attempt_num: int,
    ) -> bool {
        &&& !self.exhausted(s, num_bireachable, num_oneway, attempt_num)
        &&& !affordable(
            deducted(s.remaining, self.key_items(s, num_bireachable, num_oneway, attempt_num)),
            self.other_items(
                s,
                num_bireachable,
                num_oneway,
                attempt_num,
                self.mix(s, num_bireachable, num_oneway, attempt_num),
            ),
        )
    }

    /// `plan` is the choice of items for a step up to the random order.
    pub open spec fn plans<T>(
        self,
        s: StateView<T>,
        num_bireachable: int,
        num_oneway: int,
        attempt_num: int,
        plan: Plan,
    ) -> bool {
        &&& plan.key_items@ == self.key_items(s, num_bireachable, num_oneway, attempt_num)
        &&& plan.remaining@ == deducted(s.remaining, plan.key_items@)
        &&& plan.mix@ == self.mix(s, num_bireachable, num_oneway, attempt_num)
        &&& plan.delayed@ == stock(self.types_to_delay(plan.remaining@), plan.remaining@)
        &&& plan.num_other_items == num_bireachable + num_oneway - plan.key_items@.len()
    }

    /// `out` is the choice of items for a step with the mix in the order `mixed`.
    pub open spec fn selects_in_order<T>(
        self,
        s: StateView<T>,
        num_bireachable: int,
        num_oneway: int,
        attempt_num: int,
        mixed: Seq<Item>,
        out: SelectItemsOutput,
    ) -> bool {
        &&& mixed.to_multiset() == self.mix(
            s,
            num_bireachable,
            num_oneway,
            attempt_num,
        ).to_multiset()
        &&& out.key_items@ == self.key_items(s, num_bireachable, num_oneway, attempt_num)
        &&& out.other_items@ == self.other_items(
            s,
            num_bireachable,
            num_oneway,
            attempt_num,
            mixed,
        )
        &&& out.new_items_remaining@ == deducted(
            deducted(s.remaining, out.key_items@),
            out.other_items@,
        )
    }

    /// `out` is a choice of items for a step, with the mix in some order.
    pub open spec fn selects<T>(
        self,
        s: StateView<T>,
        num_bireachable: int,
        num_oneway: int,
        attempt_num: int,
        out: SelectItemsOutput,
    ) -> bool {
        exists|mixed: Seq<Item>| #[trigger]
            self.selects_in_order(s, num_bireachable, num_oneway, attempt_num, mixed, out)
    }

    /// `out` is a choice of items for a step, with the mix in an order that is drawn with a
    /// generator in the state `rng`, and leaves it in the state `next`.
    pub open spec fn selects_drawing<T>(
        self,
        s: StateView<T>,
        num_bireachable: int,
        num_oneway: int,
        attempt_num: int,
        rng: StdRng,
        out: SelectItemsOutput,
        next: StdRng,
    ) -> bool {
        exists|mixed: Seq<Item>|
            {
                &&& #[trigger] self.selects_in_order(
                    s,
                    num_bireachable,
                    num_oneway,
                    attempt_num,
                    mixed,
                    out,
                )
                &&& may_shuffle(
                    self.mix(s, num_bireachable, num_oneway, attempt_num),
                    rng,
                    mixed,
                    next,
                )
            }
    }

    /// The counts and the order of precedence that a choice of items rests on.
    pub open spec fn stocked<T>(self, s: StateView<T>) -> bool {
        &&& self.initial_items_remaining@ == initial_counts(ITEM_COUNT as nat)
        &&& s.remaining.len() == ITEM_COUNT
        &&& forall|id: int|
            0 <= id < ITEM_COUNT ==> #[trigger] s.remaining[id]
                <= self.initial_items_remaining@[id]
        &&& is_ordering(s.item_precedence)
    }

    /// A choice can be made for so many locations: there is one to leave again, there are
    /// no more than copies left, and some item has not been placed at all.
    pub open spec fn choosable<T>(
        self,
        s: StateView<T>,
        num_bireachable: int,
        num_oneway: int,
    ) -> bool {
        &&& self.stocked(s)
        &&& num_bireachable >= 1
        &&& num_oneway >= 0
        &&& num_bireachable + num_oneway <= total(s.remaining)
        &&& self.key_candidates(s).len() >= 1
    }
}

pub proof fn lemma_occurrences_filter(items: Seq<Item>, pred: spec_fn(Item) -> bool, item: Item)
    ensures
        occurrences(items.filter(pred), item) == (if pred(item) {
            occurrences(items, item)
        } else {
            0
        }),
    decreases items.len(),
{
    reveal(Seq::filter);
    if items.len() == 0 {
        lemma_occurrences_empty(item);
        assert(items =~= Seq::empty());
        assert(items.filter(pred) =~= Seq::empty());
    } else {
        lemma_occurrences_filter(items.drop_last(), pred, item);
        assert(items =~= items.drop_last().push(items.last()));
        lemma_occurrences_push(items.drop_last(), items.last(), item);
        lemma_occurrences_push(items.drop_last().filter(pred), items.last(), item);
    }
}

proof fn lemma_occurrences_copies(item: Item, count: nat, other: Item)
    ensures
        occurrences(copies(item, count), other) == (if other == item {
            count
        } else {
            0
        }),
    decreases count,
{
    if count == 0 {
        lemma_occurrences_empty(other);
        assert(copies(item, count) =~= Seq::empty());
    } else {
        lemma_occurrences_copies(item, (count - 1) as nat, other);
        assert(copies(item, count) =~= copies(item, (count - 1) as nat).push(item));
        lemma_occurrences_push(copies(item, (count - 1) as nat), item, other);
    }
}

/// The stock of distinct items holds the counted copies of each.
pub proof fn lemma_occurrences_stock(items: Seq<Item>, counts: Seq<usize>, item: Item)
    requires
        items.no_duplicates(),
    ensures
        occurrences(stock(items, counts), item) == (if items.contains(item) {
            counts[item.id()] as nat
        } else {
            0
        }),
    decreases items.len(),
{
    if items.len() == 0 {
        lemma_occurrences_empty(item);
    } else {
        let rest = items.drop_last();
        lemma_occurrences_stock(rest, counts, item);
        lemma_occurrences_copies(items.last(), counts[items.last().id()] as nat, item);
        lemma_occurrences_add(
            stock(rest, counts),
            copies(items.last(), counts[items.last().id()] as nat),
            item,
        );
        assert(items.contains(item) <==> rest.contains(item) || item == items.last()) by {
            if rest.contains(item) {
                let i = choose|i: int| 0 <= i < rest.len() && rest[i] == item;
                assert(items[i] == item);
            }
            if items.contains(item) && item != items.last() {
                let i = choose|i: int| 0 <= i < items.len() && items[i] == item;
                assert(rest[i] == item);
            }
            assert(items[items.len() - 1] == items.last());
        }
        assert(!(rest.contains(item) && item == items.last())) by {
            if rest.contains(item) && item == items.last() {
                let i = choose|i: int| 0 <= i < rest.len() && rest[i] == item;
                assert(items[i] == items[items.len() - 1]);
            }
        }
    }
}

/// A part of a list holds no more of an item than the list.
pub proof fn lemma_occurrences_take(items: Seq<Item>, n: int, item: Item)
    requires
        0 <= n <= items.len(),
    ensures
        occurrences(items.take(n), item) <= occurrences(items, item),
{
    lemma_occurrences_add(items.take(n), items.skip(n), item);
    assert(items.take(n) + items.skip(n) =~= items);
}

/// The list of all items is an ordering of them.
pub proof fn lemma_all_items_ordering()
    ensures
        is_ordering(all_items()),
{
    assert forall|item: Item| #[trigger] occurrences(all_items(), item) == 1 by {
        broadcast use vstd::seq_lib::group_to_multiset_ensures;

        assert(all_items().no_duplicates()) by {
            assert forall|i: int, j: int|
                0 <= i < all_items().len() && 0 <= j < all_items().len() && i
                    != j implies all_items()[i] != all_items()[j] by {
                lemma_ids_items(i);
                lemma_ids_items(j);
            }
        }
        all_items().lemma_multiset_has_no_duplicates();
        lemma_item_ids(item);
        assert(all_items()[item.id()] == item);
        assert(all_items().contains(item));
    }
}

impl<'a> Randomizer<'a> {
    /// Candidates are distinct items with all their copies left.
    pub proof fn lemma_candidates<T>(self, s: StateView<T>)
        requires
            self.stocked(s),
        ensures
            forall|item: Item|
                (#[trigger] occurrences(self.key_candidates(s), item)) == (if s.remaining[item.id()]
                    == self.initial_items_remaining@[item.id()] {
                    1nat
                } else {
                    0nat
                }),
            affordable(s.remaining, self.key_candidates(s)),
            self.key_candidates(s).len() <= total(s.remaining),
    {
        let pred = |item: Item|
            s.remaining[item.id()] == self.initial_items_remaining@[item.id()];
        assert forall|item: Item|
            (#[trigger] occurrences(self.key_candidates(s), item)) == (if s.remaining[item.id()]
                == self.initial_items_remaining@[item.id()] {
                1nat
            } else {
                0nat
            }) by {
            lemma_occurrences_filter(s.item_precedence, pred, item);
            assert(occurrences(s.item_precedence, item) == 1);
        }
        assert forall|item: Item| #[trigger]
            occurrences(self.key_candidates(s), item) <= s.remaining[item.id()] by {
            lemma_item_ids(item);
            assert(self.initial_items_remaining@[item.id()] >= 1);
        }
        lemma_deducted_total(s.remaining, self.key_candidates(s));
    }

    /// At least one key item is placed, at a location that can be left again.
    pub proof fn lemma_key_item_count<T>(
        self,
        s: StateView<T>,
        num_bireachable: int,
        num_oneway: int,
    )
        requires
            self.choosable(s, num_bireachable, num_oneway),
        ensures
            1 <= self.key_item_count(s, num_bireachable, num_oneway),
            self.key_item_count(s, num_bireachable, num_oneway) <= num_bireachable,
            self.key_item_count(s, num_bireachable, num_oneway) <= self.key_candidates(s).len(),
    {
        lemma_share_positive(
            self.key_candidates(s).len() as int,
            total(s.remaining) as int,
            num_bireachable + num_oneway,
        );
    }

    /// Key items are distinct, and no copy of them has been placed before.
    pub proof fn lemma_key_items<T>(
        self,
        s: StateView<T>,
        num_bireachable: int,
        num_oneway: int,
        attempt_num: int,
    )
        requires
            self.choosable(s, num_bireachable, num_oneway),
            attempt_num >= 0,
            !self.exhausted(s, num_bireachable, num_oneway, attempt_num),
        ensures
            self.key_items(s, num_bireachable, num_oneway, attempt_num).len()
                == self.key_item_count(s, num_bireachable, num_oneway),
            forall|item: Item|
                (#[trigger] occurrences(
                    self.key_items(s, num_bireachable, num_oneway, attempt_num),
                    item,
                )) <= occurrences(self.key_candidates(s), item),
            affordable(
                s.remaining,
                self.key_items(s, num_bireachable, num_oneway, attempt_num),
            ),
    {
        self.lemma_key_item_count(s, num_bireachable, num_oneway);
        self.lemma_candidates(s);
        let candidates = self.key_candidates(s);
        let count = self.key_item_count(s, num_bireachable, num_oneway);
        let keys = self.key_items(s, num_bireachable, num_oneway, attempt_num);
        let last = count - 1 + attempt_num;
        assert forall|item: Item| (#[trigger] occurrences(keys, item)) <= occurrences(
            candidates,
            item,
        ) && occurrences(keys, item) <= s.remaining[item.id()] by {
            lemma_occurrences_push(candidates.take(count - 1), candidates[last], item);
            lemma_occurrences_push(candidates.take(last), candidates[last], item);
            lemma_occurrences_take(candidates.take(last), count - 1, item);
            assert(candidates.take(last).take(count - 1) =~= candidates.take(count - 1));
            assert(candidates.take(last + 1) =~= candidates.take(last).push(candidates[last]));
            lemma_occurrences_take(candidates, last + 1, item);
            assert(occurrences(candidates, item) <= s.remaining[item.id()]);
        }
    }

    /// The mixed and the delayed types are the items that occur repeatedly, each once.
    proof fn lemma_types(self, remaining: Seq<usize>)
        ensures
            self.types_to_mix(remaining).no_duplicates(),
            self.types_to_delay(remaining).no_duplicates(),
            forall|item: Item|
                #![trigger self.types_to_mix(remaining).contains(item)]
                #![trigger self.types_to_delay(remaining).contains(item)]
                (self.types_to_mix(remaining).contains(item) || self.types_to_delay(
                    remaining,
                ).contains(item) <==> item.is_expansion()) && !(self.types_to_mix(
                    remaining,
                ).contains(item) && self.types_to_delay(remaining).contains(item)),
    {
        let mixed = self.types_to_mix(remaining);
        let delayed = self.types_to_delay(remaining);
        let both = mixed + delayed;
        assert(both.len() == 5);
        assert(mixed[0] == Item::Missile);
        assert forall|item: Item| item.is_expansion() implies both.contains(item) by {
            assert(both[0] == item || both[1] == item || both[2] == item || both[3] == item
                || both[4] == item);
        }
        assert(both.no_duplicates()) by {
            assert forall|i: int, j: int|
                0 <= i < both.len() && 0 <= j < both.len() && i != j implies both[i]
                != both[j] by {
                assert(i == 0 || i == 1 || i == 2 || i == 3 || i == 4);
                assert(j == 0 || j == 1 || j == 2 || j == 3 || j == 4);
            }
        }
        assert forall|i: int| 0 <= i < both.len() implies (#[trigger] both[i]).is_expansion() by {
            assert(i == 0 || i == 1 || i == 2 || i == 3 || i == 4);
        }
        assert forall|i: int, j: int|
            0 <= i < mixed.len() && 0 <= j < mixed.len() && i != j implies mixed[i] != mixed[j] by {
            assert(both[i] != both[j]);
        }
        assert forall|i: int, j: int|
            0 <= i < delayed.len() && 0 <= j < delayed.len() && i != j implies delayed[i]
            != delayed[j] by {
            assert(both[i + mixed.len()] != both[j + mixed.len()]);
        }
        assert forall|item: Item|
            (mixed.contains(item) || delayed.contains(item) <==> item.is_expansion()) && !(
            #[trigger] mixed.contains(item) && #[trigger] delayed.contains(item)) by {
            if mixed.contains(item) {
                let i = choose|i: int| 0 <= i < mixed.len() && mixed[i] == item;
                assert(both[i] == item);
                if delayed.contains(item) {
                    let j = choose|j: int| 0 <= j < delayed.len() && delayed[j] == item;
                    assert(both[j + mixed.len()] == item);
                }
            }
            if delayed.contains(item) {
                let j = choose|j: int| 0 <= j < delayed.len() && delayed[j] == item;
                assert(both[j + mixed.len()] == item);
            }
            if item.is_expansion() {
                let i = choose|i: int| 0 <= i < both.len() && both[i] == item;
                if i < mixed.len() {
                    assert(mixed[i] == item);
                } else {
                    assert(delayed[i - mixed.len()] == item);
                }
            }
        }
    }

    /// Ahead of the items that occur once, the supply holds every copy left of the others.
    pub proof fn lemma_supply_head(self, mixed: Seq<Item>, remaining: Seq<usize>, item: Item)
        requires
            mixed.to_multiset() == stock(self.types_to_mix(remaining), remaining).to_multiset(),
        ensures
            occurrences(mixed + stock(self.types_to_delay(remaining), remaining), item) == (
            if item.is_expansion() {
                remaining[item.id()] as nat
            } else {
                0
            }),
    {
        self.lemma_types(remaining);
        lemma_occurrences_stock(self.types_to_mix(remaining), remaining, item);
        lemma_occurrences_stock(self.types_to_delay(remaining), remaining, item);
        lemma_occurrences_add(mixed, stock(self.types_to_delay(remaining), remaining), item);
        assert(self.types_to_mix(remaining).contains(item) || !self.types_to_mix(
            remaining,
        ).contains(item));
    }
}

/// An item that occurs once is listed once among those.
pub proof fn lemma_unique_items(item: Item)
    ensures
        occurrences(unique_items(), item) == (if item.is_expansion() {
            0nat
        } else {
            1nat
        }),
{
    lemma_all_items_ordering();
    lemma_occurrences_filter(all_items(), |item: Item| !item.is_expansion(), item);
    assert(occurrences(all_items(), item) == 1);
}

impl<'a> Randomizer<'a> {
    /// The supply suffices for all copies left, and whatever is taken ahead of the items
    /// that occur once can be afforded.
    pub proof fn lemma_supply(self, mixed: Seq<Item>, remaining: Seq<usize>)
        requires
            self.initial_items_remaining@ == initial_counts(ITEM_COUNT as nat),
            remaining.len() == ITEM_COUNT,
            forall|id: int|
                0 <= id < ITEM_COUNT ==> #[trigger] remaining[id]
                    <= self.initial_items_remaining@[id],
            mixed.to_multiset() == stock(self.types_to_mix(remaining), remaining).to_multiset(),
        ensures
            total(remaining) <= self.supply(mixed, remaining).len(),
            self.supply(mixed, remaining).len() == mixed.len() + stock(
                self.types_to_delay(remaining),
                remaining,
            ).len() + unique_items().len(),
            forall|n: int|
                0 <= n <= mixed.len() + stock(self.types_to_delay(remaining), remaining).len()
                    ==> affordable(remaining, #[trigger] self.supply(mixed, remaining).take(n)),
    {
        let head = mixed + stock(self.types_to_delay(remaining), remaining);
        assert(affordable(remaining, head)) by {
            assert forall|item: Item| #[trigger]
                occurrences(head, item) <= remaining[item.id()] by {
                self.lemma_supply_head(mixed, remaining, item);
            }
        }
        lemma_deducted_total(remaining, head);
        assert forall|item: Item|
            deducted(remaining, head)[item.id()] <= #[trigger] occurrences(
                unique_items(),
                item,
            ) by {
            lemma_item_ids(item);
            lemma_unique_items(item);
            self.lemma_supply_head(mixed, remaining, item);
            assert(remaining[item.id()] <= self.initial_items_remaining@[item.id()]);
        }
        lemma_total_below_tally(deducted(remaining, head), unique_items());
        assert forall|n: int| 0 <= n <= head.len() implies affordable(
            remaining,
            #[trigger] self.supply(mixed, remaining).take(n),
        ) by {
            assert(self.supply(mixed, remaining).take(n) =~= head.take(n));
            assert forall|item: Item| #[trigger]
                occurrences(head.take(n), item) <= remaining[item.id()] by {
                lemma_occurrences_take(head, n, item);
                assert(occurrences(head, item) <= remaining[item.id()]);
            }
        }
    }

    /// Whether a choice can be afforded does not depend on the order of the mix.
    pub proof fn lemma_other_items<T>(
        self,
        s: StateView<T>,
        num_bireachable: int,
        num_oneway: int,
        attempt_num: int,
        mixed: Seq<Item>,
    )
        requires
            self.choosable(s, num_bireachable, num_oneway),
            attempt_num >= 0,
            !self.exhausted(s, num_bireachable, num_oneway, attempt_num),
            mixed.to_multiset() == self.mix(
                s,
                num_bireachable,
                num_oneway,
                attempt_num,
            ).to_multiset(),
        ensures
            self.other_items(s, num_bireachable, num_oneway, attempt_num, mixed).len()
                == num_bireachable + num_oneway - self.key_items(
                s,
                num_bireachable,
                num_oneway,
                attempt_num,
            ).len(),
            num_bireachable + num_oneway - self.key_items(
                s,
                num_bireachable,
                num_oneway,
                attempt_num,
            ).len() <= self.supply(
                mixed,
                deducted(
                    s.remaining,
                    self.key_items(s, num_bireachable, num_oneway, attempt_num),
                ),
            ).len(),
            affordable(
                deducted(
                    s.remaining,
                    self.key_items(s, num_bireachable, num_oneway, attempt_num),
                ),
                self.other_items(s, num_bireachable, num_oneway, attempt_num, mixed),
            ) <==> !self.overdrawn(s, num_bireachable, num_oneway, attempt_num),
    {
        self.lemma_key_item_count(s, num_bireachable, num_oneway);
        self.lemma_key_items(s, num_bireachable, num_oneway, attempt_num);
        let keys = self.key_items(s, num_bireachable, num_oneway, attempt_num);
        let left = deducted(s.remaining, keys);
        let plain = self.mix(s, num_bireachable, num_oneway, attempt_num);
        lemma_deducted_total(s.remaining, keys);
        assert forall|id: int| 0 <= id < ITEM_COUNT implies #[trigger] left[id]
            <= self.initial_items_remaining@[id] by {
            lemma_ids_items(id);
            assert(occurrences(keys, Item::with_id(id)) <= s.remaining[id]);
            assert(s.remaining[id] <= self.initial_items_remaining@[id]);
        }
        self.lemma_supply(mixed, left);
        self.lemma_supply(plain, left);
        vstd::seq_lib::to_multiset_len(mixed);
        vstd::seq_lib::to_multiset_len(plain);
        let delayed = stock(self.types_to_delay(left), left);
        let n = num_bireachable + num_oneway - keys.len();
        let bound = mixed.len() + delayed.len();
        let a = self.supply(mixed, left).take(n);
        let b = self.supply(plain, left).take(n);
        if n > bound {
            let tail = unique_items().take(n - bound);
            assert(a =~= mixed + delayed + tail);
            assert(b =~= plain + delayed + tail);
            assert forall|item: Item| #[trigger] occurrences(a, item) == occurrences(b, item) by {
                lemma_occurrences_add(mixed + delayed, tail, item);
                lemma_occurrences_add(plain + delayed, tail, item);
                lemma_occurrences_add(mixed, delayed, item);
                lemma_occurrences_add(plain, delayed, item);
            }
            if affordable(left, a) {
                assert forall|item: Item| #[trigger] occurrences(b, item) <= left[item.id()] by {
                    assert(occurrences(a, item) == occurrences(b, item));
                }
            }
        }
    }
}

/// The choice of a step up to the random order.
pub struct Plan {
    pub key_items: Vec<Item>,
    /// What remains once the key items are taken.
    pub remaining: Vec<usize>,
    /// The copies to be placed in random order.
    pub mix: Vec<Item>,
    /// The copies to be placed after those in random order.
    pub delayed: Vec<Item>,
    pub num_other_items: usize,
}

/// Lists all copies counted of each listed item.
pub(crate) fn take_stock(items: &Vec<Item>, counts: &Vec<usize>) -> (all: Vec<Item>)
    requires
        counts@.len() == ITEM_COUNT,
    ensures
        all@ == stock(items@, counts@),
{
    let mut all: Vec<Item> = Vec::new();
    let mut i: usize = 0;
    assert(items@.take(0) =~= Seq::empty());
    while i < items.len()
        invariant
            i <= items@.len(),
            counts@.len() == ITEM_COUNT,
            all@ == stock(items@.take(i as int), counts@),
        decreases items@.len() - i,
    {
        let item: Item = items[i];
        let count: usize = counts[item.index()];
        let ghost before = all@;
        let mut c: usize = 0;
        assert(copies(item, 0) =~= Seq::empty());
        while c < count
            invariant
                c <= count,
                all@ == before + copies(item, c as nat),
            decreases count - c,
        {
            all.push(item);
            assert(copies(item, (c + 1) as nat) =~= copies(item, c as nat).push(item));
            c += 1;
        }
        assert(items@.take(i as int + 1).drop_last() =~= items@.take(i as int));
        i += 1;
    }
    assert(items@.take(i as int) =~= items@);
    all
}

/// Lists the items that occur only once.
fn list_unique_items() -> (unique: Vec<Item>)
    ensures
        unique@ == unique_items(),
{
    let mut unique: Vec<Item> = Vec::new();
    let ghost pred = |item: Item| !item.is_expansion();
    let mut id: usize = 0;
    reveal(Seq::filter);
    assert(all_items().take(0) =~= Seq::empty());
    while id < ITEM_COUNT
        invariant
            id <= ITEM_COUNT,
            pred == (|item: Item| !item.is_expansion()),
            unique@ == all_items().take(id as int).filter(pred),
        decreases ITEM_COUNT - id,
    {
        reveal(Seq::filter);
        let item: Item = Item::from_index(id).unwrap();
        assert(all_items().take(id as int + 1).drop_last() =~= all_items().take(id as int));
        if !item.occurs_repeatedly() {
            unique.push(item);
        }
        id += 1;
    }
    assert(all_items().take(id as int) =~= all_items());
    unique
}

impl<'a> Randomizer<'a> {
    /// Lists the items of which no copy has been placed, in their order of precedence.
    fn list_candidates<T>(&self, state: &RandomizationState<T>) -> (candidates: Vec<Item>)
        requires
            self.stocked(state@),
        ensures
            candidates@ == self.key_candidates(state@),
    {
        let ghost pred = |item: Item|
            state@.remaining[item.id()] == self.initial_items_remaining@[item.id()];
        let mut candidates: Vec<Item> = Vec::new();
        let mut i: usize = 0;
        reveal(Seq::filter);
        assert(state.item_precedence@.take(0) =~= Seq::empty());
        while i < state.item_precedence.len()
            invariant
                i <= state.item_precedence@.len(),
                self.stocked(state@),
                pred == (|item: Item|
                    state@.remaining[item.id()] == self.initial_items_remaining@[item.id()]),
                candidates@ == state.item_precedence@.take(i as int).filter(pred),
            decreases state.item_precedence@.len() - i,
        {
            reveal(Seq::filter);
            let item: Item = state.item_precedence[i];
            let id: usize = item.index();
            assert(state.item_precedence@.take(i as int + 1).drop_last()
                =~= state.item_precedence@.take(i as int));
            if state.items_remaining[id] == self.initial_items_remaining[id] {
                candidates.push(item);
            }
            i += 1;
        }
        assert(state.item_precedence@.take(i as int) =~= state.item_precedence@);
        candidates
    }

    /// Lists the types that are placed in random order, and those that are delayed.
    fn list_types(&self, remaining: &Vec<usize>) -> (types: (Vec<Item>, Vec<Item>))
        requires
            self.initial_items_remaining@.len() == ITEM_COUNT,
            remaining@.len() == ITEM_COUNT,
        ensures
            types.0@ == self.types_to_mix(remaining@),
            types.1@ == self.types_to_delay(remaining@),
    {
        let supers: usize = Item::Super.index();
        let power_bombs: usize = Item::PowerBomb.index();
        let supers_begun: bool = remaining[supers] < self.initial_items_remaining[supers];
        let supers_whole: bool = remaining[supers] == self.initial_items_remaining[supers];
        let power_bombs_begun: bool = remaining[power_bombs]
            < self.initial_items_remaining[power_bombs];
        match self.difficulty.item_placement_strategy {
            ItemPlacementStrategy::Open => {
                let mixed: Vec<Item> = vec![
                    Item::Missile,
                    Item::ETank,
                    Item::ReserveTank,
                    Item::Super,
                    Item::PowerBomb,
                ];
                let delayed: Vec<Item> = Vec::new();
                assert(mixed@ =~= self.types_to_mix(remaining@));
                assert(delayed@ =~= self.types_to_delay(remaining@));
                (mixed, delayed)
            },
            ItemPlacementStrategy::Semiclosed => {
                let mut mixed: Vec<Item> = vec![Item::Missile, Item::ETank, Item::ReserveTank];
                let mut delayed: Vec<Item> = Vec::new();
                if supers_begun {
                    mixed.push(Item::Super);
                } else {
                    delayed.push(Item::Super);
                }
                if power_bombs_begun {
                    mixed.push(Item::PowerBomb);
                } else {
                    delayed.push(Item::PowerBomb);
                }
                assert(mixed@ =~= self.types_to_mix(remaining@));
                assert(delayed@ =~= self.types_to_delay(remaining@));
                (mixed, delayed)
            },
            ItemPlacementStrategy::Closed => {
                let mixed: Vec<Item> = vec![Item::Missile];
                let delayed: Vec<Item> = if power_bombs_begun && supers_whole {
                    vec![Item::ETank, Item::ReserveTank, Item::PowerBomb, Item::Super]
                } else {
                    vec![Item::ETank, Item::ReserveTank, Item::Super, Item::PowerBomb]
                };
                assert(mixed@ =~= self.types_to_mix(remaining@));
                assert(delayed@ =~= self.types_to_delay(remaining@));
                (mixed, delayed)
            },
        }
    }

    /// The number of key items to place.
    fn count_key_items(
        &self,
        num_candidates: usize,
        num_remaining: usize,
        num_bireachable: usize,
        num_oneway_reachable: usize,
    ) -> (count: usize)
        requires
            1 <= num_candidates <= num_remaining <= 0xff_ffff,
            1 <= num_bireachable,
            num_bireachable + num_oneway_reachable <= num_remaining,
        ensures
            count == lesser(
                if num_remaining < num_bireachable + num_oneway_reachable + 20 {
                    num_candidates as int
                } else {
                    match self.difficulty.item_placement_strategy {
                        ItemPlacementStrategy::Open => single_share(
                            num_candidates as int,
                            num_remaining as int,
                            num_bireachable + num_oneway_reachable,
                        ),
                        _ => 1,
                    }
                },
                lesser(num_bireachable as int, num_candidates as int),
            ),
    {
        let places: usize = num_bireachable + num_oneway_reachable;
        let wanted: usize = if num_remaining < places + 20 {
            num_candidates
        } else {
            match self.difficulty.item_placement_strategy {
                ItemPlacementStrategy::Semiclosed | ItemPlacementStrategy::Closed => 1,
                ItemPlacementStrategy::Open => key_item_share(
                    num_candidates,
                    num_remaining,
                    places,
                ),
            }
        };
        let limit: usize = if num_bireachable <= num_candidates {
            num_bireachable
        } else {
            num_candidates
        };
        if wanted <= limit {
            wanted
        } else {
            limit
        }
    }

    /// Makes the choice of a step up to the random order. There is none once every
    /// candidate has been tried for the last key item.
    pub fn plan_items<T>(
        &self,
        state: &RandomizationState<T>,
        num_bireachable: usize,
        num_oneway_reachable: usize,
        attempt_num: usize,
    ) -> (plan: Option<Plan>)
        requires
            self.choosable(state@, num_bireachable as int, num_oneway_reachable as int),
        ensures
            plan is None <==> self.exhausted(
                state@,
                num_bireachable as int,
                num_oneway_reachable as int,
                attempt_num as int,
            ),
            plan matches Some(plan) ==> self.plans(
                state@,
                num_bireachable as int,
                num_oneway_reachable as int,
                attempt_num as int,
                plan,
            ),
            plan matches Some(plan) ==> {
                &&& plan.key_items@ == self.key_items(
                    state@,
                    num_bireachable as int,
                    num_oneway_reachable as int,
                    attempt_num as int,
                )
                &&& plan.remaining@ == deducted(state@.remaining, plan.key_items@)
                &&& plan.mix@ == self.mix(
                    state@,
                    num_bireachable as int,
                    num_oneway_reachable as int,
                    attempt_num as int,
                )
                &&& plan.delayed@ == stock(self.types_to_delay(plan.remaining@), plan.remaining@)
                &&& plan.num_other_items == num_bireachable + num_oneway_reachable
                    - plan.key_items@.len()
            },
    {
        let candidates: Vec<Item> = self.list_candidates(state);
        proof {
            self.lemma_candidates(state@);
            self.lemma_key_item_count(
                state@,
                num_bireachable as int,
                num_oneway_reachable as int,
            );
            lemma_stock_bounded(state@.remaining, self.initial_items_remaining@);
        }
        let num_remaining: usize = sum_counts(&state.items_remaining);
        let count: usize = self.count_key_items(
            candidates.len(),
            num_remaining,
            num_bireachable,
            num_oneway_reachable,
        );
        if attempt_num > candidates.len() - count {
            return None;
        }
        let mut key_items: Vec<Item> = Vec::new();
        let mut i: usize = 0;
        while i < count - 1
            invariant
                i <= count - 1,
                1 <= count <= candidates@.len(),
                key_items@ == candidates@.take(i as int),
            decreases count - i,
        {
            key_items.push(candidates[i]);
            i += 1;
        }
        key_items.push(candidates[count - 1 + attempt_num]);
        let ghost nb = num_bireachable as int;
        let ghost no = num_oneway_reachable as int;
        assert(key_items@ == self.key_items(state@, nb, no, attempt_num as int));
        proof {
            self.lemma_key_items(state@, nb, no, attempt_num as int);
        }
        let mut remaining: Vec<usize> = state.items_remaining.clone();
        assert(remaining@ =~= state.items_remaining@);
        deduct(&mut remaining, &key_items);
        let (mix_types, delay_types) = self.list_types(&remaining);
        let mix: Vec<Item> = take_stock(&mix_types, &remaining);
        let delayed: Vec<Item> = take_stock(&delay_types, &remaining);
        Some(
            Plan {
                key_items,
                remaining,
                mix,
                delayed,
                num_other_items: num_bireachable + num_oneway_reachable - count,
            },
        )
    }
}

/// Counts that stay within the initial ones have a small total.
pub proof fn lemma_stock_bounded(counts: Seq<usize>, initial: Seq<usize>)
    requires
        counts.len() == ITEM_COUNT,
        initial == initial_counts(ITEM_COUNT as nat),
        forall|id: int| 0 <= id < ITEM_COUNT ==> #[trigger] counts[id] <= initial[id],
    ensures
        total(counts) <= 46 * ITEM_COUNT,
{
    lemma_total_bounded(counts, 46);
}

proof fn lemma_total_bounded(counts: Seq<usize>, most: nat)
    requires
        forall|id: int| 0 <= id < counts.len() ==> #[trigger] counts[id] <= most,
    ensures
        total(counts) <= most * counts.len(),
    decreases counts.len(),
{
    if counts.len() > 0 {
        lemma_total_bounded(counts.drop_last(), most);
        assert(counts.last() == counts[counts.len() - 1]);
        assert(most * counts.len() == most * (counts.len() - 1) + most) by (nonlinear_arith);
    } else {
        assert(most * 0 == 0) by (nonlinear_arith);
    }
}

/// Lists the items to place beside the key items, with the mix in the order `mixed`.
fn list_others(mixed: &Vec<Item>, delayed: &Vec<Item>, num: usize) -> (others: Vec<Item>)
    requires
        num <= mixed@.len() + delayed@.len() + unique_items().len(),
    ensures
        others@ == (mixed@ + delayed@ + unique_items()).take(num as int),
{
    let unique: Vec<Item> = list_unique_items();
    let ghost all = mixed@ + delayed@ + unique_items();
    let mut others: Vec<Item> = Vec::new();
    let mut i: usize = 0;
    while i < num
        invariant
            i <= num <= all.len(),
            all == mixed@ + delayed@ + unique_items(),
            unique@ == unique_items(),
            others@ == all.take(i as int),
        decreases num - i,
    {
        let item: Item = if i < mixed.len() {
            mixed[i]
        } else if i - mixed.len() < delayed.len() {
            delayed[i - mixed.len()]
        } else {
            unique[i - mixed.len() - delayed.len()]
        };
        others.push(item);
        assert(all.take(i as int + 1) =~= all.take(i as int).push(item));
        i += 1;
    }
    others
}

/// Completes the choice of a step once the random order is known.
pub fn complete_selection(plan: Plan, mixed: Vec<Item>) -> (out: SelectItemsOutput)
    requires
        plan.remaining@.len() == ITEM_COUNT,
        plan.num_other_items <= mixed@.len() + plan.delayed@.len() + unique_items().len(),
        affordable(
            plan.remaining@,
            (mixed@ + plan.delayed@ + unique_items()).take(plan.num_other_items as int),
        ),
    ensures
        out.key_items == plan.key_items,
        out.other_items@ == (mixed@ + plan.delayed@ + unique_items()).take(
            plan.num_other_items as int,
        ),
        out.new_items_remaining@ == deducted(plan.remaining@, out.other_items@),
{
    let other_items: Vec<Item> = list_others(&mixed, &plan.delayed, plan.num_other_items);
    let mut new_items_remaining: Vec<usize> = plan.remaining;
    deduct(&mut new_items_remaining, &other_items);
    SelectItemsOutput { key_items: plan.key_items, other_items, new_items_remaining }
}

impl<'a> Randomizer<'a> {
    /// Whether the items to place include one of which no copy is left.
    pub fn overdraws<T>(
        &self,
        state: &RandomizationState<T>,
        num_bireachable: usize,
        num_oneway_reachable: usize,
        attempt_num: usize,
    ) -> (yes: bool)
        requires
            self.choosable(state@, num_bireachable as int, num_oneway_reachable as int),
        ensures
            yes == self.overdrawn(
                state@,
                num_bireachable as int,
                num_oneway_reachable as int,
                attempt_num as int,
            ),
    {
        match self.plan_items(state, num_bireachable, num_oneway_reachable, attempt_num) {
            Some(plan) => {
                proof {
                    self.lemma_other_items(
                        state@,
                        num_bireachable as int,
                        num_oneway_reachable as int,
                        attempt_num as int,
                        plan.mix@,
                    );
                }
                let others: Vec<Item> = list_others(
                    &plan.mix,
                    &plan.delayed,
                    plan.num_other_items,
                );
                !can_afford(&plan.remaining, &others)
            },
            None => false,
        }
    }

    /// Chooses the items of a step: key items for some of the locations that can be left
    /// again, others for the rest. There is no choice once every candidate has been tried
    /// for the last key item; nothing is drawn from `rng` then.
    pub fn select_items<T>(
        &self,
        state: &RandomizationState<T>,
        num_bireachable: usize,
        num_oneway_reachable: usize,
        attempt_num: usize,
        rng: &mut StdRng,
    ) -> (selection: Option<SelectItemsOutput>)
        requires
            self.choosable(state@, num_bireachable as int, num_oneway_reachable as int),
            !self.overdrawn(
                state@,
                num_bireachable as int,
                num_oneway_reachable as int,
                attempt_num as int,
            ),
        ensures
            selection is None <==> self.exhausted(
                state@,
                num_bireachable as int,
                num_oneway_reachable as int,
                attempt_num as int,
            ),
            selection matches Some(out) ==> self.selects(
                state@,
                num_bireachable as int,
                num_oneway_reachable as int,
                attempt_num as int,
                out,
            ),
            selection matches Some(out) ==> self.selects_drawing(
                state@,
                num_bireachable as int,
                num_oneway_reachable as int,
                attempt_num as int,
                *old(rng),
                out,
                *final(rng),
            ),
            selection is None ==> *final(rng) == *old(rng),
    {
        match self.plan_items(state, num_bireachable, num_oneway_reachable, attempt_num) {
            Some(plan) => {
                let mut plan: Plan = plan;
                let mut mixed: Vec<Item> = Vec::new();
                let ghost mix = plan.mix@;
                mixed.append(&mut plan.mix);
                assert(mixed@ =~= mix);
                shuffle(&mut mixed, rng);
                let ghost nb = num_bireachable as int;
                let ghost no = num_oneway_reachable as int;
                let ghost attempt = attempt_num as int;
                let ghost order = mixed@;
                proof {
                    self.lemma_other_items(state@, nb, no, attempt, mixed@);
                }
                let out: SelectItemsOutput = complete_selection(plan, mixed);
                assert(self.selects_in_order(state@, nb, no, attempt, order, out));
                Some(out)
            },
            None => None,
        }
    }
}

}
