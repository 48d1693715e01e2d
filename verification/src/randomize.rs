//! An attempt at placing the items, from the first look at the map to the last item.
use crate::counting::{
    lemma_occurrences_empty, lemma_occurrences_push, lemma_remaining_is_unplaced, occurrences,
    placed, unplaced,
};
use crate::game_data::{names_view, WeaponMask};
use crate::items::{all_items, lemma_ids_items, lemma_item_ids, Item, ITEM_COUNT};
use crate::outside::{collect_names, holds_name, names_held, shuffle, NameSet};
use crate::placement::{filled, lemma_full_stock_len, list_all_items};
use crate::selection::{lemma_all_items_ordering, lemma_occurrences_stock, stock};
use crate::state::{
    initial_counts, opening_flag, total, Attempt, Failure, ItemLocationState, Progress, Randomization,
    RandomizationState, Randomizer, SpoilerDetails, StateView,
};
use crate::step::{lemma_unplaced_lists, unplaced_bireachable};
use crate::traverse::{may_arm, GlobalState, GlobalView, Traversal};
use rand::rngs::StdRng;
use vstd::multiset::Multiset;
use vstd::prelude::*;

verus! {

/// A location of which nothing is known.
pub open spec fn untouched() -> ItemLocationState {
    ItemLocationState {
        placed_item: None,
        collected: false,
        reachable: false,
        bireachable: false,
        bireachable_vertex_id: None,
    }
}

/// The number of locations that something holds of.
pub open spec fn num_locations(
    locations: Seq<ItemLocationState>,
    holds: spec_fn(ItemLocationState) -> bool,
) -> nat {
    locations.filter(holds).len()
}

/// How far a state has come.
pub open spec fn progress_of<T>(s: StateView<T>) -> Progress {
    Progress {
        step_num: s.step_num,
        num_bireachable: num_locations(
            s.locations,
            |location: ItemLocationState| location.bireachable,
        ) as usize,
        num_reachable: num_locations(
            s.locations,
            |location: ItemLocationState| location.reachable,
        ) as usize,
        num_placed: num_locations(
            s.locations,
            |location: ItemLocationState| location.placed_item is Some,
        ) as usize,
        num_collected: num_locations(
            s.locations,
            |location: ItemLocationState| location.collected,
        ) as usize,
    }
}

/// The items at the locations, where every location has one.
pub open spec fn placement(locations: Seq<ItemLocationState>) -> Seq<Item> {
    Seq::new(locations.len(), |i: int| locations[i].placed_item->0)
}

impl<'a> Randomizer<'a> {
    /// Which techniques the player is expected to use.
    pub open spec fn tech(self) -> Seq<bool> {
        Seq::new(
            self.game_data.tech_isv.keys@.len(),
            |i: int|
                names_view(self.difficulty.tech@).contains(self.game_data.tech_isv.keys@[i]@),
        )
    }

    /// The player owns no items.
    pub open spec fn no_items(self) -> Seq<bool> {
        Seq::new(self.game_data.item_isv.keys@.len(), |id: int| false)
    }

    /// What the player owns at the start.
    pub open spec fn initial_global(self, weapon_mask: WeaponMask) -> GlobalView {
        GlobalView {
            tech: self.tech(),
            items: self.no_items(),
            flags: Seq::new(
                self.game_data.flag_isv.keys@.len(),
                |flag: int| flag == self.game_data.flag_isv.name_position(opening_flag()),
            ),
            max_energy: 99,
            max_reserves: 0,
            max_missiles: 0,
            max_supers: 0,
            max_power_bombs: 0,
            weapon_mask,
            shine_charge_tiles: self.difficulty.shine_charge_tiles,
        }
    }

    /// The state at the start.
    pub open spec fn initial_state<T>(
        self,
        item_precedence: Seq<Item>,
        weapon_mask: WeaponMask,
    ) -> StateView<T> {
        StateView {
            step_num: 1,
            item_precedence,
            locations: Seq::new(self.game_data.item_locations@.len(), |i: int| untouched()),
            flag_bireachable: Seq::new(self.game_data.flag_locations@.len(), |i: int| false),
            remaining: self.initial_items_remaining@,
            global: self.initial_global(weapon_mask),
            done: false,
            debug_data: None,
        }
    }

    /// An order of precedence and a set of weapons with which an attempt may start.
    pub open spec fn may_start<W: Traversal>(
        self,
        world: &W,
        item_precedence: Seq<Item>,
        weapon_mask: WeaponMask,
    ) -> bool {
        &&& item_precedence.to_multiset() == all_items().to_multiset()
        &&& may_arm(world, self.no_items(), self.game_data, weapon_mask)
    }

    /// `s` is the state after the first look at the map.
    pub open spec fn starts<W: Traversal>(self, world: &W, s: StateView<W::Trail>) -> bool {
        exists|item_precedence: Seq<Item>, weapon_mask: WeaponMask|
            {
                &&& #[trigger] self.may_start(world, item_precedence, weapon_mask)
                &&& self.updates(world, self.initial_state(item_precedence, weapon_mask), s)
            }
    }

    /// The first look at the map does not cover every vertex.
    pub open spec fn start_fails<W: Traversal>(self, world: &W) -> bool {
        exists|item_precedence: Seq<Item>, weapon_mask: WeaponMask|
            {
                &&& #[trigger] self.may_start(world, item_precedence, weapon_mask)
                &&& self.falls_short(world, self.initial_global(weapon_mask))
            }
    }

    /// Some location can be reached and left again.
    pub open spec fn any_bireachable<T>(self, s: StateView<T>) -> bool {
        exists|i: int| 0 <= i < s.locations.len() && (#[trigger] s.locations[i]).bireachable
    }

    /// A step leads on to the next.
    pub open spec fn steps_on<W: Traversal>(
        self,
        world: &W,
        before: StateView<W::Trail>,
        after: StateView<W::Trail>,
        details: SpoilerDetails,
    ) -> bool {
        &&& !before.done
        &&& after.step_num == before.step_num + 1
        &&& self.steps(
            world,
            before,
            StateView { step_num: before.step_num, ..after },
            details,
        )
    }

    /// The states between the steps of an attempt, with the accounts of the steps.
    pub open spec fn runs<W: Traversal>(
        self,
        world: &W,
        states: Seq<StateView<W::Trail>>,
        details: Seq<SpoilerDetails>,
    ) -> bool {
        &&& states.len() == details.len() + 1
        &&& self.starts(world, states[0])
        &&& self.any_bireachable(states[0])
        &&& forall|i: int|
            0 <= i < details.len() ==> self.steps_on(
                world,
                states[i],
                states[i + 1],
                #[trigger] details[i],
            )
    }

    /// The progress is told of the first states of an attempt.
    pub open spec fn tells_progress<T>(
        self,
        states: Seq<StateView<T>>,
        progress: Seq<Progress>,
    ) -> bool {
        &&& progress.len() <= states.len()
        &&& forall|i: int|
            0 <= i < progress.len() ==> #[trigger] progress[i] == progress_of(states[i])
    }

    /// `randomization` is what may come of an attempt that ends with every item placed.
    pub open spec fn produces<W: Traversal>(
        self,
        world: &W,
        states: Seq<StateView<W::Trail>>,
        randomization: Randomization,
    ) -> bool {
        &&& self.runs(world, states, randomization.spoiler_log.details@)
        &&& states.last().done
        &&& randomization.map@ == self.map@
        &&& randomization.item_placement@ == placement(
            filled(states.last().locations, stock(all_items(), states.last().remaining)),
        )
    }

    /// Every item has its number of copies among `items`.
    pub open spec fn holds_every_copy(self, items: Seq<Item>) -> bool {
        forall|item: Item| #[trigger]
            occurrences(items, item) == self.initial_items_remaining@[item.id()]
    }

    /// What may come of an attempt, with the progress told of the states before its steps.
    pub open spec fn may_come_out<W: Traversal>(self, world: &W, attempt: Attempt) -> bool {
        match attempt.outcome {
            Ok(randomization) => exists|states: Seq<StateView<W::Trail>>|
                {
                    &&& #[trigger] self.produces(world, states, randomization)
                    &&& self.tells_progress(states, attempt.progress@)
                    &&& attempt.progress@.len() == states.len() - 1
                },
            Err(Failure::NoBireachableLocation) => {
                &&& exists|s: StateView<W::Trail>| #[trigger]
                    self.starts(world, s) && !self.any_bireachable(s)
                &&& attempt.progress@.len() == 0
            },
            Err(failure) => {
                ||| failure == Failure::TraversalTooShort && self.start_fails(world)
                    && attempt.progress@.len() == 0
                ||| exists|
                    states: Seq<StateView<W::Trail>>,
                    details: Seq<SpoilerDetails>,
                    last: StateView<W::Trail>,
                |
                    {
                        &&& #[trigger] self.runs(world, states, details)
                        &&& !states.last().done
                        &&& #[trigger] self.step_fails(world, states.last(), last, failure)
                        &&& self.tells_progress(states, attempt.progress@)
                        &&& attempt.progress@.len() == states.len()
                    }
            },
        }
    }

    /// Which techniques the player is expected to use.
    pub fn get_tech_vec(&self) -> (tech: Vec<bool>)
        ensures
            tech@ == self.tech(),
    {
        let tech_set: NameSet = collect_names(&self.difficulty.tech);
        let mut tech: Vec<bool> = Vec::new();
        let mut i: usize = 0;
        while i < self.game_data.tech_isv.keys.len()
            invariant
                i <= self.game_data.tech_isv.keys@.len(),
                names_held(tech_set) == names_view(
                    self.difficulty.tech@,
                ).to_set(),
                tech@ == self.tech().take(i as int),
            decreases self.game_data.tech_isv.keys@.len() - i,
        {
            let held: bool = holds_name(&tech_set, &self.game_data.tech_isv.keys[i]);
            tech.push(held);
            assert(held == self.tech()[i as int]);
            assert(self.tech().take(i as int + 1) =~= self.tech().take(i as int).push(held));
            i += 1;
        }
        assert(self.tech().take(i as int) =~= self.tech());
        tech
    }

    /// The state at the start, for a given order of precedence.
    pub fn new_state<T>(
        &self,
        item_precedence: Vec<Item>,
        weapon_mask: WeaponMask,
    ) -> (state: RandomizationState<T>)
        requires
            self.game_data.flag_isv.has_name(opening_flag()),
        ensures
            state@ == self.initial_state::<T>(item_precedence@, weapon_mask),
    {
        let items: Vec<bool> = vec![false; self.game_data.item_isv.keys.len()];
        assert(items@ =~= self.no_items());
        let global_state: GlobalState = GlobalState {
            tech: self.get_tech_vec(),
            items,
            flags: self.get_flag_vec(),
            max_energy: 99,
            max_reserves: 0,
            max_missiles: 0,
            max_supers: 0,
            max_power_bombs: 0,
            weapon_mask,
            shine_charge_tiles: self.difficulty.shine_charge_tiles,
        };
        let location: ItemLocationState = ItemLocationState {
            placed_item: None,
            collected: false,
            reachable: false,
            bireachable: false,
            bireachable_vertex_id: None,
        };
        let state: RandomizationState<T> = RandomizationState {
            step_num: 1,
            item_precedence,
            item_location_state: vec![location; self.game_data.item_locations.len()],
            flag_bireachable: vec![false; self.game_data.flag_locations.len()],
            items_remaining: self.initial_items_remaining.clone(),
            global_state,
            done: false,
            debug_data: None,
        };
        let ghost expected = self.initial_state::<T>(item_precedence@, weapon_mask);
        assert(state@.locations =~= expected.locations);
        assert(state@.flag_bireachable =~= expected.flag_bireachable);
        assert(state@.remaining =~= expected.remaining);
        assert(state@.global =~= expected.global);
        state
    }

    /// How far a state has come.
    pub fn get_progress<T>(&self, state: &RandomizationState<T>) -> (progress: Progress)
        ensures
            progress == progress_of(state@),
    {
        let ghost is_bireachable = |location: ItemLocationState| location.bireachable;
        let ghost is_reachable = |location: ItemLocationState| location.reachable;
        let ghost is_placed = |location: ItemLocationState| location.placed_item is Some;
        let ghost is_collected = |location: ItemLocationState| location.collected;
        let mut num_bireachable: usize = 0;
        let mut num_reachable: usize = 0;
        let mut num_placed: usize = 0;
        let mut num_collected: usize = 0;
        let mut i: usize = 0;
        reveal(Seq::filter);
        assert(state@.locations.take(0) =~= Seq::empty());
        while i < state.item_location_state.len()
            invariant
                i <= state@.locations.len(),
                is_bireachable == (|location: ItemLocationState| location.bireachable),
                is_reachable == (|location: ItemLocationState| location.reachable),
                is_placed == (|location: ItemLocationState| location.placed_item is Some),
                is_collected == (|location: ItemLocationState| location.collected),
                num_bireachable == num_locations(
                    state@.locations.take(i as int),
                    is_bireachable,
                ),
                num_reachable == num_locations(state@.locations.take(i as int), is_reachable),
                num_placed == num_locations(state@.locations.take(i as int), is_placed),
                num_collected == num_locations(state@.locations.take(i as int), is_collected),
                num_bireachable <= i,
                num_reachable <= i,
                num_placed <= i,
                num_collected <= i,
            decreases state@.locations.len() - i,
        {
            reveal(Seq::filter);
            let location: ItemLocationState = state.item_location_state[i];
            assert(state@.locations.take(i as int + 1).drop_last() =~= state@.locations.take(
                i as int,
            ));
            if location.bireachable {
                num_bireachable += 1;
            }
            if location.reachable {
                num_reachable += 1;
            }
            if location.placed_item.is_some() {
                num_placed += 1;
            }
            if location.collected {
                num_collected += 1;
            }
            i += 1;
        }
        assert(state@.locations.take(i as int) =~= state@.locations);
        Progress {
            step_num: state.step_num,
            num_bireachable,
            num_reachable,
            num_placed,
            num_collected,
        }
    }

    /// Whether some location can be reached and left again.
    fn has_bireachable<T>(&self, state: &RandomizationState<T>) -> (yes: bool)
        ensures
            yes == self.any_bireachable(state@),
    {
        let mut i: usize = 0;
        while i < state.item_location_state.len()
            invariant
                i <= state@.locations.len(),
                forall|k: int| 0 <= k < i ==> !(#[trigger] state@.locations[k]).bireachable,
            decreases state@.locations.len() - i,
        {
            if state.item_location_state[i].bireachable {
                assert(state@.locations[i as int].bireachable);
                return true;
            }
            i += 1;
        }
        false
    }
}

proof fn lemma_nothing_placed(locations: Seq<ItemLocationState>)
    requires
        forall|i: int| 0 <= i < locations.len() ==> (#[trigger] locations[i]).placed_item is None,
    ensures
        unplaced(locations) == locations.len(),
        placed(locations) == Multiset::<Item>::empty(),
    decreases locations.len(),
{
    if locations.len() > 0 {
        assert(locations[locations.len() - 1].placed_item is None);
        assert forall|i: int| 0 <= i < locations.len() - 1 implies (
        #[trigger] locations.drop_last()[i]).placed_item is None by {
            assert(locations[i].placed_item is None);
        }
        lemma_nothing_placed(locations.drop_last());
    }
}

/// The copies of so many items, of which some occur repeatedly.
pub proof fn lemma_counts_total(num_items: nat)
    ensures
        total(initial_counts(num_items)) == num_items + (if num_items > Item::ETank.id() {
            13nat
        } else {
            0nat
        }) + (if num_items > Item::Missile.id() {
            45nat
        } else {
            0nat
        }) + (if num_items > Item::Super.id() {
            9nat
        } else {
            0nat
        }) + (if num_items > Item::PowerBomb.id() {
            9nat
        } else {
            0nat
        }) + (if num_items > Item::ReserveTank.id() {
            3nat
        } else {
            0nat
        }),
    decreases num_items,
{
    if num_items > 0 {
        lemma_counts_total((num_items - 1) as nat);
        assert(initial_counts(num_items).drop_last() =~= initial_counts((num_items - 1) as nat));
    }
}

/// There are a hundred copies of items.
pub proof fn lemma_initial_total()
    ensures
        total(initial_counts(ITEM_COUNT as nat)) == 100,
{
    lemma_counts_total(ITEM_COUNT as nat);
}

/// Filling in the free locations adds the items with which they are filled.
pub proof fn lemma_filled(locations: Seq<ItemLocationState>, items: Seq<Item>, item: Item)
    requires
        unplaced(locations) <= items.len(),
    ensures
        placed(filled(locations, items)).count(item) == placed(locations).count(item)
            + occurrences(items.take(unplaced(locations) as int), item),
        forall|i: int|
            0 <= i < locations.len() ==> (#[trigger] filled(
                locations,
                items,
            )[i]).placed_item is Some,
    decreases locations.len(),
{
    let all = filled(locations, items);
    if locations.len() == 0 {
        assert(items.take(0) =~= Seq::empty());
        lemma_occurrences_empty(item);
    } else {
        let rest = locations.drop_last();
        lemma_filled(rest, items, item);
        assert(all.drop_last() =~= filled(rest, items)) by {
            assert forall|i: int| 0 <= i < rest.len() implies all[i] == filled(rest, items)[i] by {
                assert(rest.take(i) =~= locations.take(i));
            }
        }
        assert(locations.take(locations.len() - 1) =~= rest);
        if locations.last().placed_item is None {
            let n = unplaced(rest) as int;
            assert(items.take(n + 1) =~= items.take(n).push(items[n]));
            lemma_occurrences_push(items.take(n), items[n], item);
        }
    }
}

/// Where every location has an item, those are the items placed.
pub proof fn lemma_placement(locations: Seq<ItemLocationState>, item: Item)
    requires
        forall|i: int| 0 <= i < locations.len() ==> (#[trigger] locations[i]).placed_item is Some,
    ensures
        occurrences(placement(locations), item) == placed(locations).count(item),
    decreases locations.len(),
{
    if locations.len() == 0 {
        assert(placement(locations) =~= Seq::empty());
        lemma_occurrences_empty(item);
    } else {
        let rest = locations.drop_last();
        assert(locations[locations.len() - 1].placed_item is Some);
        assert forall|i: int| 0 <= i < rest.len() implies (
        #[trigger] rest[i]).placed_item is Some by {
            assert(locations[i].placed_item is Some);
        }
        lemma_placement(rest, item);
        assert(placement(locations) =~= placement(rest).push(locations.last().placed_item->0));
        lemma_occurrences_push(placement(rest), locations.last().placed_item->0, item);
    }
}

impl<'a> Randomizer<'a> {
    /// The state at the start is valid, and nothing has been placed.
    pub proof fn lemma_initial_state<T>(
        self,
        item_precedence: Seq<Item>,
        weapon_mask: WeaponMask,
    )
        requires
            self.valid(),
            item_precedence.to_multiset() == all_items().to_multiset(),
        ensures
            self.state_ok(self.initial_state::<T>(item_precedence, weapon_mask)),
    {
        let s = self.initial_state::<T>(item_precedence, weapon_mask);
        lemma_all_items_ordering();
        assert forall|item: Item| #[trigger] occurrences(item_precedence, item) == 1 by {
            assert(occurrences(all_items(), item) == 1);
        }
        lemma_nothing_placed(s.locations);
    }

    /// After a first look that found a location to be left again, a step can be taken.
    pub proof fn lemma_starts<W: Traversal>(self, world: &W, s: StateView<W::Trail>)
        requires
            self.valid(),
            self.starts(world, s),
        ensures
            self.state_ok(s),
            s.step_num == 1,
            !s.done,
            unplaced(s.locations) == s.locations.len(),
            self.any_bireachable(s) ==> self.stepping(s),
    {
        let (item_precedence, weapon_mask) = choose|
            item_precedence: Seq<Item>,
            weapon_mask: WeaponMask,
        |
            {
                &&& #[trigger] self.may_start(world, item_precedence, weapon_mask)
                &&& self.updates(world, self.initial_state(item_precedence, weapon_mask), s)
            };
        let first = self.initial_state::<W::Trail>(item_precedence, weapon_mask);
        self.lemma_initial_state::<W::Trail>(item_precedence, weapon_mask);
        self.lemma_updates(world, first, s);
        lemma_nothing_placed(s.locations);
        lemma_initial_total();
        lemma_unplaced_lists(s.locations);
        if self.any_bireachable(s) {
            let i = choose|i: int|
                0 <= i < s.locations.len() && (#[trigger] s.locations[i]).bireachable;
            assert(unplaced_bireachable(s.locations).contains(i as usize));
        }
        assert(!(s.remaining[0] < self.initial_items_remaining@[0]));
    }

    /// A step carries an attempt on.
    proof fn lemma_runs_push<W: Traversal>(
        self,
        world: &W,
        states: Seq<StateView<W::Trail>>,
        details: Seq<SpoilerDetails>,
        next: StateView<W::Trail>,
        step_details: SpoilerDetails,
    )
        requires
            self.runs(world, states, details),
            self.steps_on(world, states.last(), next, step_details),
        ensures
            self.runs(world, states.push(next), details.push(step_details)),
    {
        let longer = states.push(next);
        let more = details.push(step_details);
        assert(longer[0] == states[0]);
        assert forall|i: int| 0 <= i < more.len() implies self.steps_on(
            world,
            longer[i],
            longer[i + 1],
            #[trigger] more[i],
        ) by {
            if i < details.len() {
                assert(more[i] == details[i]);
                assert(longer[i] == states[i]);
                assert(longer[i + 1] == states[i + 1]);
            } else {
                assert(longer[i] == states.last());
                assert(longer[i + 1] == next);
            }
        }
    }

    /// A filled state holds every copy of every item.
    pub proof fn lemma_every_copy<T>(self, s: StateView<T>)
        requires
            self.valid(),
            self.state_ok(s),
        ensures
            total(s.remaining) == unplaced(s.locations),
            forall|i: int|
                0 <= i < s.locations.len() ==> (#[trigger] filled(
                    s.locations,
                    stock(all_items(), s.remaining),
                )[i]).placed_item is Some,
            self.holds_every_copy(
                placement(filled(s.locations, stock(all_items(), s.remaining))),
            ),
    {
        let items = stock(all_items(), s.remaining);
        let all = filled(s.locations, items);
        lemma_remaining_is_unplaced(self.initial_items_remaining@, s.remaining, s.locations);
        lemma_full_stock_len(s.remaining);
        assert(items.take(unplaced(s.locations) as int) =~= items);
        lemma_filled(s.locations, items, Item::Missile);
        assert forall|i: int| 0 <= i < all.len() implies (
        #[trigger] all[i]).placed_item is Some by {}
        assert forall|item: Item| #[trigger]
            occurrences(placement(all), item) == self.initial_items_remaining@[item.id()] by {
            lemma_placement(all, item);
            lemma_filled(s.locations, items, item);
            assert(all_items().no_duplicates()) by {
                assert forall|i: int, j: int|
                    0 <= i < all_items().len() && 0 <= j < all_items().len() && i
                        != j implies all_items()[i] != all_items()[j] by {
                    lemma_ids_items(i);
                    lemma_ids_items(j);
                }
            }
            lemma_item_ids(item);
            assert(all_items()[item.id()] == item);
            lemma_occurrences_stock(all_items(), s.remaining, item);
            assert(placed(s.locations).count(item) + s.remaining[item.id()]
                == self.initial_items_remaining@[item.id()]);
        }
    }

    /// Makes an attempt at placing the items. It succeeds once every item has been placed
    /// at least once; the copies that are left then fill the remaining locations.
    pub fn randomize<W: Traversal>(&self, world: &W, rng: &mut StdRng) -> (attempt: Attempt)
        requires
            self.valid(),
        ensures
            self.may_come_out(world, attempt),
            self.may_come_out_from(world, *old(rng), attempt, *final(rng)),
            attempt.outcome matches Ok(randomization) ==> {
                &&& randomization.item_placement@.len() == self.game_data.item_locations@.len()
                &&& self.holds_every_copy(randomization.item_placement@)
                &&& forall|i: int|
                    0 <= i < randomization.spoiler_log.details@.len() ==> (
                    #[trigger] randomization.spoiler_log.details@[i]).step == i + 1
            },
    {
        let mut progress: Vec<Progress> = Vec::new();
        let items: Vec<bool> = vec![false; self.game_data.item_isv.keys.len()];
        assert(items@ =~= self.no_items());
        let weapon_mask: WeaponMask = world.get_weapon_mask(&items, self.game_data);
        assert(may_arm(world, self.no_items(), self.game_data, weapon_mask));
        let mut item_precedence: Vec<Item> = list_all_items();
        shuffle(&mut item_precedence, rng);
        let ghost order = item_precedence@;
        assert(self.may_start(world, order, weapon_mask));
        let mut state: RandomizationState<W::Trail> = self.new_state(item_precedence, weapon_mask);
        match self.update_reachability(world, &mut state) {
            Ok(_) => {},
            Err(failure) => {
                assert(self.start_fails_as_drawn(world, order));
                return Attempt { progress, outcome: Err(failure) };
            },
        }
        assert(self.starts(world, state@));
        assert(self.starts_as_drawn(world, order, state@));
        assert(self.starts_from(world, *old(rng), state@, *rng));
        proof {
            self.lemma_starts(world, state@);
        }
        if !self.has_bireachable(&state) {
            return Attempt { progress, outcome: Err(Failure::NoBireachableLocation) };
        }
        let num_locations: usize = state.item_location_state.len();
        proof {
            lemma_initial_total();
        }
        let ghost mut states: Seq<StateView<W::Trail>> = seq![state@];
        let ghost mut rngs: Seq<StdRng> = seq![*rng];
        let mut details: Vec<SpoilerDetails> = Vec::new();
        while !state.done
            invariant
                self.valid(),
                self.state_ok(state@),
                state@.locations.len() == num_locations,
                num_locations <= 0xffff,
                !state.done ==> self.stepping(state@),
                self.runs(world, states, details@),
                states.last() == state@,
                self.runs_from(world, *old(rng), states, details@, rngs),
                rngs.last() == *rng,
                state@.step_num == details@.len() + 1,
                state@.step_num + unplaced(state@.locations) <= num_locations + 1,
                self.tells_progress(states, progress@),
                progress@.len() == states.len() - 1,
                forall|i: int|
                    0 <= i < details@.len() ==> (#[trigger] details@[i]).step == i + 1,
            decreases unplaced(state@.locations),
        {
            let ghost before = state@;
            let ghost rng_before = *rng;
            proof {
                self.lemma_may_step(world, before);
            }
            progress.push(self.get_progress(&state));
            match self.step(world, &mut state, rng) {
                Ok(step_details) => {
                    let ghost after = state@;
                    let ghost done = details@;
                    details.push(step_details);
                    state.step_num += 1;
                    proof {
                        assert((StateView { step_num: before.step_num, ..state@ }) == after);
                        self.lemma_runs_push(world, states, done, state@, step_details);
                        assert(self.steps_on_from(
                            world,
                            before,
                            rng_before,
                            state@,
                            step_details,
                            *rng,
                        ));
                        self.lemma_runs_from_push(
                            world,
                            *old(rng),
                            states,
                            done,
                            rngs,
                            state@,
                            step_details,
                            *rng,
                        );
                        states = states.push(state@);
                        rngs = rngs.push(*rng);
                    }
                },
                Err(failure) => {
                    assert(self.run_fails_from(
                        world,
                        *old(rng),
                        states,
                        details@,
                        rngs,
                        failure,
                        *rng,
                    ));
                    return Attempt { progress, outcome: Err(failure) };
                },
            }
        }
        proof {
            self.lemma_every_copy(state@);
        }
        self.finish(&mut state);
        let randomization: Randomization = self.get_randomization(&state, details);
        assert(randomization.item_placement@ =~= placement(state@.locations));
        let attempt: Attempt = Attempt { progress, outcome: Ok(randomization) };
        assert(self.produces(world, states, attempt.outcome->Ok_0));
        attempt
    }
}

}
