//! Deciding whether the tables of a game fit together, before anything is looked up in them.
use crate::game_data::{Door, GameData, GameMap, NodeId, ObstacleMask, RoomId, VertexId, VertexKey};
use crate::items::{Item, ITEM_COUNT};
use crate::randomize::{lemma_counts_total, lemma_initial_total};
use crate::state::{initial_counts, total, Randomizer};
use vstd::prelude::*;

verus! {

/// Whether all listed vertices are less than `num_vertices`.
fn check_vertex_ids(table: &Vec<Vec<VertexId>>, num_vertices: usize) -> (yes: bool)
    ensures
        yes == forall|i: int, j: int|
            0 <= i < table@.len() && 0 <= j < table@[i]@.len() ==> (#[trigger] table@[i]@[j])
                < num_vertices,
{
    let mut i: usize = 0;
    while i < table.len()
        invariant
            i <= table@.len(),
            forall|k: int, j: int|
                0 <= k < i && 0 <= j < table@[k]@.len() ==> (#[trigger] table@[k]@[j])
                    < num_vertices,
        decreases table@.len() - i,
    {
        let vertices: &Vec<VertexId> = &table[i];
        let mut j: usize = 0;
        while j < vertices.len()
            invariant
                i < table@.len(),
                vertices == table@[i as int],
                j <= vertices@.len(),
                forall|k: int| 0 <= k < j ==> (#[trigger] vertices@[k]) < num_vertices,
            decreases vertices@.len() - j,
        {
            if vertices[j] >= num_vertices {
                assert(table@[i as int]@[j as int] >= num_vertices);
                return false;
            }
            j += 1;
        }
        i += 1;
    }
    true
}

impl GameData {
    /// Whether the items are all listed, with as many locations as they have copies.
    pub fn is_item_count_matched(&self) -> (yes: bool)
        ensures
            yes == (self.item_isv.keys@.len() >= ITEM_COUNT && self.item_locations@.len() == total(
                initial_counts(self.item_isv.keys@.len()),
            )),
    {
        let num_items: usize = self.item_isv.keys.len();
        if num_items < ITEM_COUNT {
            return false;
        }
        proof {
            lemma_counts_total(num_items as nat);
        }
        self.item_locations.len() >= 79 && self.item_locations.len() - 79 == num_items
    }

    /// Whether the name tables cover a vertex.
    pub fn is_vertex_named(&self, vertex_id: VertexId) -> (yes: bool)
        ensures
            yes == self.vertex_named(vertex_id as int),
    {
        if vertex_id >= self.vertex_isv.keys.len() {
            return false;
        }
        let key: VertexKey = self.vertex_isv.keys[vertex_id];
        self.room_names.get(key.0).is_some() && self.node_names.get((key.0, key.1)).is_some()
    }

    /// Whether all flag locations set a listed flag.
    fn check_flags(&self) -> (yes: bool)
        ensures
            yes == forall|i: int|
                0 <= i < self.flag_locations@.len() ==> (#[trigger] self.flag_locations@[i]).2
                    < self.flag_isv.keys@.len(),
    {
        let mut i: usize = 0;
        while i < self.flag_locations.len()
            invariant
                i <= self.flag_locations@.len(),
                forall|k: int|
                    0 <= k < i ==> (#[trigger] self.flag_locations@[k]).2
                        < self.flag_isv.keys@.len(),
            decreases self.flag_locations@.len() - i,
        {
            if self.flag_locations[i].2 >= self.flag_isv.keys.len() {
                assert(self.flag_locations@[i as int].2 >= self.flag_isv.keys@.len());
                return false;
            }
            i += 1;
        }
        true
    }

    /// Whether the tables fit together for item placement.
    pub fn is_playable(&self) -> (yes: bool)
        ensures
            yes == self.playable(),
    {
        proof {
            lemma_initial_total();
        }
        self.item_isv.keys.len() == ITEM_COUNT && self.item_locations.len() == 100
            && self.flag_isv.index_by_name("f_TourianOpen").is_some()
            && self.vertex_isv.index_by_key((8, 5, 0)).is_some() && self.item_vertex_ids.len()
            <= self.item_locations.len() && self.flag_vertex_ids.len() <= self.flag_locations.len()
            && check_vertex_ids(&self.item_vertex_ids, self.vertex_isv.keys.len())
            && check_vertex_ids(&self.flag_vertex_ids, self.vertex_isv.keys.len())
            && self.check_flags()
    }

    /// Whether every state of the obstacles around a node has a vertex.
    fn is_node_mapped(&self, node: (RoomId, NodeId)) -> (yes: bool)
        ensures
            yes == self.node_mapped(node),
    {
        let obstacles: usize = match self.room_num_obstacles.get(node.0) {
            Some(count) => *count,
            None => {
                return false;
            },
        };
        if obstacles >= usize::BITS as usize {
            return false;
        }
        let masks: usize = 1usize << obstacles;
        let mut mask: ObstacleMask = 0;
        while mask < masks
            invariant
                mask <= masks,
                masks == self.num_masks(node.0),
                forall|m: ObstacleMask|
                    m < mask ==> #[trigger] self.vertex_isv.has((node.0, node.1, m)),
            decreases masks - mask,
        {
            if self.vertex_isv.index_by_key((node.0, node.1, mask)).is_none() {
                return false;
            }
            mask += 1;
        }
        true
    }

    /// Whether the tables cover both sides of a door.
    pub fn is_door_mapped(&self, door: &Door) -> (yes: bool)
        ensures
            yes == self.door_mapped(*door),
    {
        let (src, dst): ((RoomId, NodeId), (RoomId, NodeId)) = match (
            self.door_ptr_pair_map.get(door.0),
            self.door_ptr_pair_map.get(door.1),
        ) {
            (Some(src), Some(dst)) => (*src, *dst),
            _ => {
                return false;
            },
        };
        self.is_node_mapped(src) && self.vertex_isv.index_by_key((dst.0, dst.1, 0)).is_some() && (
        !door.2 || (self.is_node_mapped(dst) && self.vertex_isv.index_by_key(
            (src.0, src.1, 0),
        ).is_some()))
    }

    /// Whether the tables cover every door of a map.
    pub fn is_map_covered(&self, map: &GameMap) -> (yes: bool)
        ensures
            yes == forall|i: int|
                0 <= i < map.doors@.len() ==> self.door_mapped(#[trigger] map.doors@[i]),
    {
        let mut i: usize = 0;
        while i < map.doors.len()
            invariant
                i <= map.doors@.len(),
                forall|k: int| 0 <= k < i ==> self.door_mapped(#[trigger] map.doors@[k]),
            decreases map.doors@.len() - i,
        {
            if !self.is_door_mapped(&map.doors[i]) {
                assert(!self.door_mapped(map.doors@[i as int]));
                return false;
            }
            i += 1;
        }
        true
    }
}

impl<'a> Randomizer<'a> {
    /// Whether each item is to be placed as often as it occurs.
    fn check_counts(&self) -> (yes: bool)
        ensures
            yes == (self.initial_items_remaining@ == initial_counts(ITEM_COUNT as nat)),
    {
        if self.initial_items_remaining.len() != ITEM_COUNT {
            return false;
        }
        let mut id: usize = 0;
        while id < ITEM_COUNT
            invariant
                id <= ITEM_COUNT,
                self.initial_items_remaining@.len() == ITEM_COUNT,
                forall|k: int|
                    0 <= k < id ==> #[trigger] self.initial_items_remaining@[k] == initial_counts(
                        ITEM_COUNT as nat,
                    )[k],
            decreases ITEM_COUNT - id,
        {
            let item: Item = Item::from_index(id).unwrap();
            let expected: usize = match item {
                Item::Missile => 46,
                Item::Super | Item::PowerBomb => 10,
                Item::ETank => 14,
                Item::ReserveTank => 4,
                _ => 1,
            };
            assert(expected == initial_counts(ITEM_COUNT as nat)[id as int]);
            if self.initial_items_remaining[id] != expected {
                return false;
            }
            id += 1;
        }
        assert(self.initial_items_remaining@ =~= initial_counts(ITEM_COUNT as nat));
        true
    }

    /// Whether the randomizer is fit for item placement.
    pub fn is_valid(&self) -> (yes: bool)
        ensures
            yes == self.valid(),
    {
        self.game_data.is_playable() && self.check_counts()
    }
}

}
