//! The randomizer, the state of an attempt, and what comes out of it.
use crate::game_data::{names_view, Capacity, GameData, GameMap, Link, VertexId};
use crate::items::{Item, ITEM_COUNT};
use crate::traverse::{GlobalState, GlobalView, TraverseResult};
use vstd::prelude::*;

verus! {

/// How early items that occur repeatedly are handed out.
#[derive(Clone, Copy, Debug, PartialEq, Eq, Structural)]
pub enum ItemPlacementStrategy {
    Open,
    Semiclosed,
    Closed,
}

pub struct DifficultyConfig {
    /// The names of the techniques that the player is expected to use.
    pub tech: Vec<String>,
    pub shine_charge_tiles: i32,
    pub item_placement_strategy: ItemPlacementStrategy,
}

impl Clone for DifficultyConfig {
    fn clone(&self) -> (copy: Self)
        ensures
            names_view(copy.tech@) == names_view(self.tech@),
            copy.shine_charge_tiles == self.shine_charge_tiles,
            copy.item_placement_strategy == self.item_placement_strategy,
    {
        let mut tech: Vec<String> = Vec::new();
        let mut i: usize = 0;
        while i < self.tech.len()
            invariant
                i <= self.tech@.len(),
                names_view(tech@) == names_view(self.tech@).take(i as int),
            decreases self.tech@.len() - i,
        {
            let ghost before = tech@;
            let name: String = self.tech[i].clone();
            tech.push(name);
            assert(names_view(tech@) =~= names_view(before).push(name@));
            i += 1;
        }
        DifficultyConfig {
            tech,
            shine_charge_tiles: self.shine_charge_tiles,
            item_placement_strategy: self.item_placement_strategy,
        }
    }
}

/// A map prepared for item placement.
pub struct Randomizer<'a> {
    pub map: &'a GameMap,
    pub game_data: &'a GameData,
    pub difficulty: &'a DifficultyConfig,
    /// The links within rooms, followed by those through the doors of the map.
    pub links: Vec<Link>,
    /// How often each item is to be placed.
    pub initial_items_remaining: Vec<usize>,
}

/// What is known of an item location.
#[derive(Clone, Copy, Debug, PartialEq, Eq, Structural)]
pub struct ItemLocationState {
    pub placed_item: Option<Item>,
    pub collected: bool,
    pub reachable: bool,
    pub bireachable: bool,
    pub bireachable_vertex_id: Option<VertexId>,
}

/// The traversals behind what is known of the locations.
pub struct DebugData<T> {
    pub forward: TraverseResult<T>,
    pub reverse: TraverseResult<T>,
}

/// The state that changes over the course of item placement.
pub struct RandomizationState<T> {
    pub step_num: usize,
    /// An ordering of the items. Key items earlier in the list are placed first.
    pub item_precedence: Vec<Item>,
    pub item_location_state: Vec<ItemLocationState>,
    pub flag_bireachable: Vec<bool>,
    /// How often each item is still to be placed.
    pub items_remaining: Vec<usize>,
    pub global_state: GlobalState,
    /// Whether every item has been placed at least once.
    pub done: bool,
    pub debug_data: Option<DebugData<T>>,
}

#[verifier::ext_equal]
pub ghost struct StateView<T> {
    pub step_num: usize,
    pub item_precedence: Seq<Item>,
    pub locations: Seq<ItemLocationState>,
    pub flag_bireachable: Seq<bool>,
    pub remaining: Seq<usize>,
    pub global: GlobalView,
    pub done: bool,
    pub debug_data: Option<DebugData<T>>,
}

impl<T> View for RandomizationState<T> {
    type V = StateView<T>;

    open spec fn view(&self) -> StateView<T> {
        StateView {
            step_num: self.step_num,
            item_precedence: self.item_precedence@,
            locations: self.item_location_state@,
            flag_bireachable: self.flag_bireachable@,
            remaining: self.items_remaining@,
            global: self.global_state@,
            done: self.done,
            debug_data: self.debug_data,
        }
    }
}

/// One link of a route, with the amounts left where the link changed them.
pub struct SpoilerRouteEntry {
    pub room: String,
    pub node: String,
    pub strat_name: String,
    pub energy_remaining: Option<Capacity>,
    pub reserves_remaining: Option<Capacity>,
    pub missiles_remaining: Option<Capacity>,
    pub supers_remaining: Option<Capacity>,
    pub power_bombs_remaining: Option<Capacity>,
}

pub struct SpoilerLocation {
    pub room: String,
    pub node: String,
}

/// What the player owns before setting out for an item.
pub struct SpoilerStartState {
    pub max_energy: Capacity,
    pub max_reserves: Capacity,
    pub max_missiles: Capacity,
    pub max_supers: Capacity,
    pub max_power_bombs: Capacity,
    pub items: Vec<String>,
    pub flags: Vec<String>,
}

/// Where an item is first found, and how to get there and back.
pub struct SpoilerItemDetails {
    pub item: String,
    pub location: SpoilerLocation,
    pub start_state: SpoilerStartState,
    pub obtain_route: Vec<SpoilerRouteEntry>,
    pub return_route: Vec<SpoilerRouteEntry>,
}

/// The items first found in one step.
pub struct SpoilerDetails {
    pub step: usize,
    pub items: Vec<SpoilerItemDetails>,
}

pub struct SpoilerLog {
    pub details: Vec<SpoilerDetails>,
}

/// A map with an item at every location.
pub struct Randomization {
    pub map: GameMap,
    pub item_placement: Vec<Item>,
    pub spoiler_log: SpoilerLog,
}

/// The items chosen for one step.
pub struct SelectItemsOutput {
    pub key_items: Vec<Item>,
    pub other_items: Vec<Item>,
    pub new_items_remaining: Vec<usize>,
}

/// The names of the room and the node of a vertex.
pub struct VertexInfo {
    pub room_name: String,
    pub node_name: String,
}

/// Why an attempt ended without a result.
#[derive(Clone, Copy, Debug, PartialEq, Eq, Structural)]
pub enum Failure {
    /// No item location can be reached and left again with nothing in hand.
    NoBireachableLocation,
    /// No choice of the last key item opened up a new location.
    AttemptsExhausted,
    /// More copies of an item would have been placed than were left.
    ItemOverdrawn,
    /// A traversal came back without an entry for every vertex.
    TraversalTooShort,
    /// Picking up an item changed the number of items or flags.
    StateReshaped,
    /// A route could not be followed along its links, or a vertex on it has no name.
    RouteBlocked,
}

/// How far an attempt has come before a step.
#[derive(Clone, Copy, Debug, PartialEq, Eq, Structural)]
pub struct Progress {
    pub step_num: usize,
    pub num_bireachable: usize,
    pub num_reachable: usize,
    pub num_placed: usize,
    pub num_collected: usize,
}

/// An attempt at placing the items: its steps, and what came of it.
pub struct Attempt {
    pub progress: Vec<Progress>,
    pub outcome: Result<Randomization, Failure>,
}

/// How often each of `len` items occurs.
pub open spec fn initial_counts(len: nat) -> Seq<usize> {
    Seq::new(
        len,
        |id: int|
            if id == Item::Missile.id() {
                46usize
            } else if id == Item::Super.id() || id == Item::PowerBomb.id() {
                10usize
            } else if id == Item::ETank.id() {
                14usize
            } else if id == Item::ReserveTank.id() {
                4usize
            } else {
                1usize
            },
    )
}

/// The total of a table of counts.
pub open spec fn total(counts: Seq<usize>) -> nat
    decreases counts.len(),
{
    if counts.len() == 0 {
        0
    } else {
        total(counts.drop_last()) + counts.last() as nat
    }
}

/// The flag that is set from the start.
pub open spec fn opening_flag() -> Seq<char> {
    "f_TourianOpen"@
}

/// The vertex at which the game starts: the landing site.
pub open spec fn start_key() -> (usize, usize, usize) {
    (8, 5, 0)
}

/// The vertices listed at an index, none past the end of the table.
pub open spec fn listed(table: Seq<Vec<VertexId>>, i: int) -> Seq<VertexId> {
    if 0 <= i < table.len() {
        table[i]@
    } else {
        Seq::empty()
    }
}

impl GameData {
    pub open spec fn num_vertices(self) -> nat {
        self.vertex_isv.keys@.len()
    }

    /// The name tables cover a vertex.
    pub open spec fn vertex_named(self, vertex_id: int) -> bool {
        let key = self.vertex_isv.keys@[vertex_id];
        &&& 0 <= vertex_id < self.num_vertices()
        &&& self.room_names.has(key.0)
        &&& self.node_names.has((key.0, key.1))
    }

    /// The tables fit together: item placement finds the entries of every item, location, flag
    /// and vertex that it looks up. Names are looked up only for the vertices on a route.
    pub open spec fn playable(self) -> bool {
        &&& self.item_isv.keys@.len() == ITEM_COUNT
        &&& self.item_locations@.len() == total(initial_counts(ITEM_COUNT as nat))
        &&& self.flag_isv.has_name(opening_flag())
        &&& self.vertex_isv.has(start_key())
        &&& self.item_vertex_ids@.len() <= self.item_locations@.len()
        &&& self.flag_vertex_ids@.len() <= self.flag_locations@.len()
        &&& forall|i: int, j: int|
            0 <= i < self.item_vertex_ids@.len() && 0 <= j < self.item_vertex_ids@[i]@.len()
                ==> (#[trigger] self.item_vertex_ids@[i]@[j]) < self.num_vertices()
        &&& forall|i: int, j: int|
            0 <= i < self.flag_vertex_ids@.len() && 0 <= j < self.flag_vertex_ids@[i]@.len()
                ==> (#[trigger] self.flag_vertex_ids@[i]@[j]) < self.num_vertices()
        &&& forall|i: int|
            0 <= i < self.flag_locations@.len() ==> (#[trigger] self.flag_locations@[i]).2
                < self.flag_isv.keys@.len()
    }
}

impl<'a> Randomizer<'a> {
    /// The validity of a randomizer.
    pub open spec fn valid(self) -> bool {
        &&& self.game_data.playable()
        &&& self.initial_items_remaining@ == initial_counts(ITEM_COUNT as nat)
    }
}

}
