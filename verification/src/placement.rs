//! Putting items at locations, picking them up, and filling in what is left at the end.
use crate::counting::unplaced;
use crate::game_data::{GameData, ItemLocationId};
use crate::items::{all_items, lemma_ids_items, Item, ITEM_COUNT};
use crate::selection::{stock, take_stock};
use crate::state::{
    total, Failure, ItemLocationState, Randomization, RandomizationState, Randomizer,
    SpoilerDetails, SpoilerLog, StateView,
};
use crate::traverse::{may_collect, GlobalState, GlobalView, Traversal};
use vstd::prelude::*;

verus! {

/// The locations after the first `n` items have been put at the first `n` places.
pub open spec fn with_items(
    locations: Seq<ItemLocationState>,
    places: Seq<ItemLocationId>,
    items: Seq<Item>,
    n: nat,
) -> Seq<ItemLocationState>
    decreases n,
{
    if n == 0 {
        locations
    } else {
        let before = with_items(locations, places, items, (n - 1) as nat);
        let place = places[n - 1] as int;
        before.update(
            place,
            ItemLocationState { placed_item: Some(items[n - 1]), ..before[place] },
        )
    }
}

/// The number of pairs of places and items.
pub open spec fn num_pairs(places: Seq<ItemLocationId>, items: Seq<Item>) -> nat {
    if places.len() <= items.len() {
        places.len()
    } else {
        items.len()
    }
}

/// An item that lies ready to be picked up.
pub open spec fn ready(location: ItemLocationState) -> bool {
    !location.collected && location.bireachable && location.placed_item is Some
}

/// The items that lie ready, in the order of the locations.
pub open spec fn ready_items(locations: Seq<ItemLocationState>) -> Seq<Item>
    decreases locations.len(),
{
    if locations.len() == 0 {
        Seq::empty()
    } else if ready(locations.last()) {
        ready_items(locations.drop_last()).push(locations.last().placed_item->0)
    } else {
        ready_items(locations.drop_last())
    }
}

/// The locations once everything that lay ready has been picked up.
pub open spec fn emptied(locations: Seq<ItemLocationState>) -> Seq<ItemLocationState> {
    Seq::new(
        locations.len(),
        |i: int|
            ItemLocationState {
                collected: locations[i].collected || ready(locations[i]),
                ..locations[i]
            },
    )
}

/// The numbers of items and flags are the same.
pub open spec fn same_shape(a: GlobalView, b: GlobalView) -> bool {
    a.items.len() == b.items.len() && a.flags.len() == b.flags.len()
}

/// What the player owns before and after picking up each of the items in turn.
pub open spec fn pickups<W: Traversal>(
    world: &W,
    game_data: &GameData,
    items: Seq<Item>,
    globals: Seq<GlobalView>,
) -> bool {
    &&& globals.len() == items.len() + 1
    &&& forall|i: int|
        0 <= i < items.len() ==> {
            &&& may_collect(world, globals[i], #[trigger] items[i], game_data, globals[i + 1])
            &&& same_shape(globals[i], globals[i + 1])
        }
}

/// `after` is what the player may own after picking up the items.
pub open spec fn picks_up<W: Traversal>(
    world: &W,
    game_data: &GameData,
    before: GlobalView,
    items: Seq<Item>,
    after: GlobalView,
) -> bool {
    exists|globals: Seq<GlobalView>|
        {
            &&& #[trigger] pickups(world, game_data, items, globals)
            &&& globals.first() == before
            &&& globals.last() == after
        }
}

/// Picking up one of the items may change the number of items or flags.
pub open spec fn reshapes<W: Traversal>(
    world: &W,
    game_data: &GameData,
    before: GlobalView,
    items: Seq<Item>,
) -> bool {
    exists|n: int, between: GlobalView, after: GlobalView|
        {
            &&& 0 <= n < items.len()
            &&& #[trigger] picks_up(world, game_data, before, items.take(n), between)
            &&& #[trigger] may_collect(world, between, items[n], game_data, after)
            &&& !same_shape(between, after)
        }
}

/// The locations with the free ones filled in order.
pub open spec fn filled(locations: Seq<ItemLocationState>, items: Seq<Item>) -> Seq<
    ItemLocationState,
> {
    Seq::new(
        locations.len(),
        |i: int|
            if locations[i].placed_item is None {
                ItemLocationState {
                    placed_item: Some(items[unplaced(locations.take(i)) as int]),
                    ..locations[i]
                }
            } else {
                locations[i]
            },
    )
}

proof fn lemma_with_items_len(
    locations: Seq<ItemLocationState>,
    places: Seq<ItemLocationId>,
    items: Seq<Item>,
    n: nat,
)
    requires
        forall|i: int| 0 <= i < n ==> (#[trigger] places[i]) < locations.len(),
    ensures
        with_items(locations, places, items, n).len() == locations.len(),
    decreases n,
{
    if n > 0 {
        lemma_with_items_len(locations, places, items, (n - 1) as nat);
    }
}

proof fn lemma_stock_len(items: Seq<Item>, counts: Seq<usize>, n: nat)
    requires
        n <= ITEM_COUNT == counts.len(),
        items == all_items().take(n as int),
    ensures
        stock(items, counts).len() == total(counts.take(n as int)),
    decreases n,
{
    if n > 0 {
        assert(items.drop_last() =~= all_items().take(n - 1));
        lemma_stock_len(items.drop_last(), counts, (n - 1) as nat);
        assert(counts.take(n as int).drop_last() =~= counts.take(n - 1));
        assert(items.last() == Item::with_id(n - 1));
        lemma_ids_items(n - 1);
    }
}

/// The stock of all items is as large as their counts add up to.
pub proof fn lemma_full_stock_len(counts: Seq<usize>)
    requires
        counts.len() == ITEM_COUNT,
    ensures
        stock(all_items(), counts).len() == total(counts),
{
    assert(all_items().take(ITEM_COUNT as int) =~= all_items());
    assert(counts.take(ITEM_COUNT as int) =~= counts);
    lemma_stock_len(all_items(), counts, ITEM_COUNT as nat);
}

/// Locations are free in a part only if they are free in the whole.
pub proof fn lemma_unplaced_take(locations: Seq<ItemLocationState>, n: int)
    requires
        0 <= n <= locations.len(),
    ensures
        unplaced(locations.take(n)) <= unplaced(locations),
        n < locations.len() && locations[n].placed_item is None ==> unplaced(locations.take(n))
            < unplaced(locations),
    decreases locations.len(),
{
    if n == locations.len() {
        assert(locations.take(n) =~= locations);
    } else {
        lemma_unplaced_take(locations.drop_last(), n);
        assert(locations.drop_last().take(n) =~= locations.take(n));
    }
}

/// Lists every item once, by number.
pub(crate) fn list_all_items() -> (items: Vec<Item>)
    ensures
        items@ == all_items(),
{
    let mut items: Vec<Item> = Vec::new();
    let mut id: usize = 0;
    while id < ITEM_COUNT
        invariant
            id <= ITEM_COUNT,
            items@ == all_items().take(id as int),
        decreases ITEM_COUNT - id,
    {
        items.push(Item::from_index(id).unwrap());
        assert(all_items().take(id as int + 1) =~= all_items().take(id as int).push(
            Item::with_id(id as int),
        ));
        id += 1;
    }
    assert(all_items().take(id as int) =~= all_items());
    items
}

impl<'a> Randomizer<'a> {
    /// Puts the key items and then the others at the locations that can be left again and
    /// then at those that cannot, one at each.
    pub fn place_items<T>(
        &self,
        state: &mut RandomizationState<T>,
        bireachable_locations: &[ItemLocationId],
        other_locations: &[ItemLocationId],
        key_items_to_place: &[Item],
        other_items_to_place: &[Item],
    )
        requires
            forall|i: int|
                0 <= i < num_pairs(
                    bireachable_locations@ + other_locations@,
                    key_items_to_place@ + other_items_to_place@,
                ) ==> (#[trigger] (bireachable_locations@ + other_locations@)[i]) < old(
                    state,
                )@.locations.len(),
            bireachable_locations@.len() + other_locations@.len() <= usize::MAX,
            key_items_to_place@.len() + other_items_to_place@.len() <= usize::MAX,
        ensures
            final(state)@ == (StateView {
                locations: with_items(
                    old(state)@.locations,
                    bireachable_locations@ + other_locations@,
                    key_items_to_place@ + other_items_to_place@,
                    num_pairs(
                        bireachable_locations@ + other_locations@,
                        key_items_to_place@ + other_items_to_place@,
                    ),
                ),
                ..old(state)@
            }),
    {
        let ghost start = state@;
        let ghost places = bireachable_locations@ + other_locations@;
        let ghost items = key_items_to_place@ + other_items_to_place@;
        let num_places: usize = bireachable_locations.len() + other_locations.len();
        let num_items: usize = key_items_to_place.len() + other_items_to_place.len();
        let num: usize = if num_places <= num_items {
            num_places
        } else {
            num_items
        };
        let mut n: usize = 0;
        while n < num
            invariant
                n <= num,
                num == num_pairs(places, items),
                places == bireachable_locations@ + other_locations@,
                items == key_items_to_place@ + other_items_to_place@,
                forall|i: int|
                    0 <= i < num_pairs(places, items) ==> (#[trigger] places[i])
                        < start.locations.len(),
                state@ == (StateView {
                    locations: with_items(start.locations, places, items, n as nat),
                    ..start
                }),
            decreases num - n,
        {
            let place: ItemLocationId = if n < bireachable_locations.len() {
                bireachable_locations[n]
            } else {
                other_locations[n - bireachable_locations.len()]
            };
            let item: Item = if n < key_items_to_place.len() {
                key_items_to_place[n]
            } else {
                other_items_to_place[n - key_items_to_place.len()]
            };
            assert(place == places[n as int]);
            assert(item == items[n as int]);
            proof {
                lemma_with_items_len(start.locations, places, items, n as nat);
            }
            let mut location: ItemLocationState = state.item_location_state[place];
            location.placed_item = Some(item);
            state.item_location_state.set(place, location);
            n += 1;
        }
    }

    /// Picks up every item that lies ready. The state stays as it was if picking up an item
    /// changes the number of items or flags.
    pub fn collect_items<W: Traversal>(
        &self,
        world: &W,
        state: &mut RandomizationState<W::Trail>,
    ) -> (result: Result<(), Failure>)
        ensures
            match result {
                Ok(_) => {
                    &&& picks_up(
                        world,
                        self.game_data,
                        old(state)@.global,
                        ready_items(old(state)@.locations),
                        final(state)@.global,
                    )
                    &&& final(state)@ == (StateView {
                        locations: emptied(old(state)@.locations),
                        global: final(state)@.global,
                        ..old(state)@
                    })
                },
                Err(failure) => {
                    &&& failure == Failure::StateReshaped
                    &&& reshapes(
                        world,
                        self.game_data,
                        old(state)@.global,
                        ready_items(old(state)@.locations),
                    )
                    &&& final(state)@ == old(state)@
                },
            },
    {
        let ghost start = state@;
        let ghost all = ready_items(start.locations);
        let mut global: GlobalState = state.global_state.clone();
        let mut locations: Vec<ItemLocationState> = Vec::new();
        let ghost mut globals: Seq<GlobalView> = seq![global@];
        let mut i: usize = 0;
        assert(start.locations.take(0) =~= Seq::empty());
        while i < state.item_location_state.len()
            invariant
                start == old(state)@,
                state@ == start,
                all == ready_items(start.locations),
                i <= start.locations.len(),
                locations@ == emptied(start.locations).take(i as int),
                pickups(
                    world,
                    self.game_data,
                    ready_items(start.locations.take(i as int)),
                    globals,
                ),
                globals.first() == start.global,
                globals.last() == global@,
            decreases start.locations.len() - i,
        {
            let mut location: ItemLocationState = state.item_location_state[i];
            let ghost done = ready_items(start.locations.take(i as int));
            assert(start.locations.take(i as int + 1).drop_last() =~= start.locations.take(
                i as int,
            ));
            if !location.collected && location.bireachable {
                if let Some(item) = location.placed_item {
                    let next: GlobalState = world.collect(&global, item, self.game_data);
                    assert(may_collect(world, global@, item, self.game_data, next@));
                    if next.items.len() != global.items.len() || next.flags.len()
                        != global.flags.len() {
                        proof {
                            lemma_ready_prefix(start.locations, i as int);
                            assert(picks_up(
                                world,
                                self.game_data,
                                start.global,
                                all.take(done.len() as int),
                                global@,
                            ));
                        }
                        return Err(Failure::StateReshaped);
                    }
                    proof {
                        let more = done.push(item);
                        let longer = globals.push(next@);
                        assert forall|k: int| 0 <= k < more.len() implies may_collect(
                            world,
                            longer[k],
                            #[trigger] more[k],
                            self.game_data,
                            longer[k + 1],
                        ) && same_shape(longer[k], longer[k + 1]) by {
                            if k < done.len() {
                                assert(more[k] == done[k]);
                            }
                        }
                        globals = longer;
                    }
                    global = next;
                    location.collected = true;
                }
            }
            locations.push(location);
            assert(emptied(start.locations).take(i as int + 1) =~= emptied(start.locations).take(
                i as int,
            ).push(location));
            i += 1;
        }
        assert(start.locations.take(i as int) =~= start.locations);
        assert(emptied(start.locations).take(i as int) =~= emptied(start.locations));
        state.item_location_state = locations;
        state.global_state = global;
        Ok(())
    }

    /// Fills the free locations with the copies that are left, by the numbers of the items.
    pub fn finish<T>(&self, state: &mut RandomizationState<T>)
        requires
            old(state)@.remaining.len() == ITEM_COUNT,
            total(old(state)@.remaining) == unplaced(old(state)@.locations),
        ensures
            final(state)@ == (StateView {
                locations: filled(
                    old(state)@.locations,
                    stock(all_items(), old(state)@.remaining),
                ),
                ..old(state)@
            }),
    {
        let ghost start = state@;
        let items: Vec<Item> = list_all_items();
        let remaining_items: Vec<Item> = take_stock(&items, &state.items_remaining);
        proof {
            lemma_full_stock_len(start.remaining);
        }
        let ghost all = filled(start.locations, remaining_items@);
        let mut idx: usize = 0;
        let mut i: usize = 0;
        assert(start.locations.take(0) =~= Seq::empty());
        while i < state.item_location_state.len()
            invariant
                i <= start.locations.len(),
                all == filled(start.locations, remaining_items@),
                remaining_items@.len() == unplaced(start.locations),
                idx == unplaced(start.locations.take(i as int)),
                state@ == (StateView { locations: state@.locations, ..start }),
                state@.locations.len() == start.locations.len(),
                forall|k: int| 0 <= k < i ==> (#[trigger] state@.locations[k]) == all[k],
                forall|k: int|
                    i <= k < start.locations.len() ==> (#[trigger] state@.locations[k])
                        == start.locations[k],
            decreases start.locations.len() - i,
        {
            let mut location: ItemLocationState = state.item_location_state[i];
            proof {
                lemma_unplaced_take(start.locations, i as int);
                assert(start.locations.take(i as int + 1).drop_last() =~= start.locations.take(
                    i as int,
                ));
            }
            if location.placed_item.is_none() {
                assert(idx < remaining_items.len());
                location.placed_item = Some(remaining_items[idx]);
                state.item_location_state.set(i, location);
                idx += 1;
            }
            i += 1;
        }
        assert(state@.locations =~= all);
    }

    /// The outcome of a finished attempt.
    pub fn get_randomization<T>(
        &self,
        state: &RandomizationState<T>,
        spoiler_details: Vec<SpoilerDetails>,
    ) -> (randomization: Randomization)
        requires
            forall|i: int|
                0 <= i < state@.locations.len() ==> (
                #[trigger] state@.locations[i]).placed_item is Some,
        ensures
            randomization.map@ == self.map@,
            randomization.item_placement@ == Seq::new(
                state@.locations.len(),
                |i: int| state@.locations[i].placed_item->0,
            ),
            randomization.spoiler_log.details == spoiler_details,
    {
        let mut item_placement: Vec<Item> = Vec::new();
        let ghost all = Seq::new(
            state@.locations.len(),
            |i: int| state@.locations[i].placed_item->0,
        );
        let mut i: usize = 0;
        while i < state.item_location_state.len()
            invariant
                i <= state@.locations.len(),
                all == Seq::new(
                    state@.locations.len(),
                    |i: int| state@.locations[i].placed_item->0,
                ),
                forall|i: int|
                    0 <= i < state@.locations.len() ==> (
                    #[trigger] state@.locations[i]).placed_item is Some,
                item_placement@ == all.take(i as int),
            decreases state@.locations.len() - i,
        {
            assert(state@.locations[i as int].placed_item is Some);
            let item: Item = state.item_location_state[i].placed_item.unwrap();
            item_placement.push(item);
            assert(all.take(i as int + 1) =~= all.take(i as int).push(item));
            i += 1;
        }
        assert(all.take(i as int) =~= all);
        Randomization {
            map: self.map.clone(),
            item_placement,
            spoiler_log: SpoilerLog { details: spoiler_details },
        }
    }
}

/// What lies ready at the first locations comes first of all that lies ready.
pub proof fn lemma_ready_prefix(locations: Seq<ItemLocationState>, n: int)
    requires
        0 <= n < locations.len(),
    ensures
        ready_items(locations.take(n)).len() <= ready_items(locations).len(),
        ready_items(locations).take(ready_items(locations.take(n)).len() as int) == ready_items(
            locations.take(n),
        ),
        ready(locations[n]) ==> {
            &&& ready_items(locations.take(n)).len() < ready_items(locations).len()
            &&& ready_items(locations)[ready_items(locations.take(n)).len() as int]
                == locations[n].placed_item->0
        },
    decreases locations.len(),
{
    let rest = locations.drop_last();
    if n == locations.len() - 1 {
        assert(locations.take(n) =~= rest);
        assert(ready_items(locations).take(ready_items(rest).len() as int) =~= ready_items(rest));
    } else {
        lemma_ready_prefix(rest, n);
        assert(rest.take(n) =~= locations.take(n));
        let m = ready_items(locations.take(n)).len() as int;
        assert(ready_items(locations).take(m) =~= ready_items(rest).take(m));
    }
}

/// No more locations are free than there are.
pub proof fn lemma_unplaced_len(locations: Seq<ItemLocationState>)
    ensures
        unplaced(locations) <= locations.len(),
    decreases locations.len(),
{
    if locations.len() > 0 {
        lemma_unplaced_len(locations.drop_last());
    }
}

}
