//! Preparing a map: the links through its doors, and how often each item occurs.
use crate::game_data::{
    links_view, Door, GameData, GameMap, Link, LinkView, NodeId, ObstacleMask, Requirement, RoomId,
    VertexId,
};
use crate::items::{Item, ITEM_COUNT};
use crate::state::{initial_counts, total, DifficultyConfig, Randomizer};
use vstd::prelude::*;

verus! {

impl GameData {
    /// The vertex of a node with some obstacles cleared.
    pub open spec fn vertex_at(self, node: (RoomId, NodeId), mask: ObstacleMask) -> VertexId {
        self.vertex_isv.position((node.0, node.1, mask))
    }

    /// The number of sets of obstacles that a room can have cleared.
    pub open spec fn num_masks(self, room: RoomId) -> usize {
        1usize << self.room_num_obstacles.at(room)
    }

    /// Every state of the obstacles around a node has a vertex.
    pub open spec fn node_mapped(self, node: (RoomId, NodeId)) -> bool {
        &&& self.room_num_obstacles.has(node.0)
        &&& self.room_num_obstacles.at(node.0) < usize::BITS
        &&& forall|mask: ObstacleMask|
            mask < self.num_masks(node.0) ==> #[trigger] self.vertex_isv.has(
                (node.0, node.1, mask),
            )
    }

    /// The tables cover both sides of a door.
    pub open spec fn door_mapped(self, door: Door) -> bool {
        let src = self.door_ptr_pair_map.at(door.0);
        let dst = self.door_ptr_pair_map.at(door.1);
        &&& self.door_ptr_pair_map.has(door.0)
        &&& self.door_ptr_pair_map.has(door.1)
        &&& self.node_mapped(src)
        &&& self.vertex_isv.has((dst.0, dst.1, 0))
        &&& door.2 ==> self.node_mapped(dst) && self.vertex_isv.has((src.0, src.1, 0))
    }

    /// The edges through a door in one direction. The door can be entered whatever
    /// obstacles have been cleared; the room behind it is entered with none cleared.
    pub open spec fn passage(self, from: (RoomId, NodeId), to: (RoomId, NodeId)) -> Seq<
        (VertexId, VertexId),
    > {
        Seq::new(
            self.num_masks(from.0) as nat,
            |mask: int| (self.vertex_at(from, mask as usize), self.vertex_at(to, 0)),
        )
    }

    /// The edges through a door.
    pub open spec fn door_edges(self, door: Door) -> Seq<(VertexId, VertexId)> {
        let src = self.door_ptr_pair_map.at(door.0);
        let dst = self.door_ptr_pair_map.at(door.1);
        if door.2 {
            self.passage(src, dst) + self.passage(dst, src)
        } else {
            self.passage(src, dst)
        }
    }

    /// The edges through all doors, in the order of the doors.
    pub open spec fn map_edges(self, doors: Seq<Door>) -> Seq<(VertexId, VertexId)>
        decreases doors.len(),
    {
        if doors.len() == 0 {
            Seq::empty()
        } else {
            self.map_edges(doors.drop_last()) + self.door_edges(doors.last())
        }
    }
}

/// The link along an edge through a door.
pub open spec fn door_link(edge: (VertexId, VertexId)) -> LinkView {
    LinkView {
        from_vertex_id: edge.0,
        to_vertex_id: edge.1,
        requirement: Requirement::Free,
        strat_name: "(Door transition)"@,
    }
}

/// The links within rooms, followed by those through doors.
pub open spec fn all_links(game_data: GameData, doors: Seq<Door>) -> Seq<LinkView> {
    links_view(game_data.links@) + game_data.map_edges(doors).map_values(
        |edge: (VertexId, VertexId)| door_link(edge),
    )
}

fn find_vertex(game_data: &GameData, node: (RoomId, NodeId), mask: ObstacleMask) -> (id: VertexId)
    requires
        game_data.vertex_isv.has((node.0, node.1, mask)),
    ensures
        id == game_data.vertex_at(node, mask),
{
    game_data.vertex_isv.index_by_key((node.0, node.1, mask)).unwrap()
}

fn add_passage(
    game_data: &GameData,
    from: (RoomId, NodeId),
    to: (RoomId, NodeId),
    edges: &mut Vec<(VertexId, VertexId)>,
)
    requires
        game_data.node_mapped(from),
        game_data.vertex_isv.has((to.0, to.1, 0)),
    ensures
        final(edges)@ == old(edges)@ + game_data.passage(from, to),
{
    let obstacles: usize = *game_data.room_num_obstacles.get(from.0).unwrap();
    let masks: usize = 1usize << obstacles;
    let mut mask: ObstacleMask = 0;
    let ghost start = edges@;
    while mask < masks
        invariant
            mask <= masks,
            masks == game_data.num_masks(from.0),
            game_data.node_mapped(from),
            game_data.vertex_isv.has((to.0, to.1, 0)),
            edges@ == start + game_data.passage(from, to).take(mask as int),
        decreases masks - mask,
    {
        let from_vertex_id: VertexId = find_vertex(game_data, from, mask);
        let to_vertex_id: VertexId = find_vertex(game_data, to, 0);
        edges.push((from_vertex_id, to_vertex_id));
        assert(game_data.passage(from, to).take(mask as int + 1) =~= game_data.passage(
            from,
            to,
        ).take(mask as int).push((from_vertex_id, to_vertex_id)));
        mask += 1;
    }
    assert(game_data.passage(from, to).take(masks as int) =~= game_data.passage(from, to));
}

impl<'r> Randomizer<'r> {
    /// Prepares `map` for item placement.
    pub fn new(
        map: &'r GameMap,
        difficulty: &'r DifficultyConfig,
        game_data: &'r GameData,
    ) -> (randomizer: Randomizer<'r>)
        requires
            forall|i: int|
                0 <= i < map.doors@.len() ==> game_data.door_mapped(#[trigger] map.doors@[i]),
            game_data.item_isv.keys@.len() >= ITEM_COUNT,
            game_data.item_locations@.len() == total(
                initial_counts(game_data.item_isv.keys@.len()),
            ),
        ensures
            randomizer.map == map,
            randomizer.difficulty == difficulty,
            randomizer.game_data == game_data,
            links_view(randomizer.links@) == all_links(*game_data, map.doors@),
            randomizer.initial_items_remaining@ == initial_counts(game_data.item_isv.keys@.len()),
            game_data.playable() ==> randomizer.valid(),
    {
        let mut edges: Vec<(VertexId, VertexId)> = Vec::new();
        let mut d: usize = 0;
        while d < map.doors.len()
            invariant
                d <= map.doors@.len(),
                forall|i: int|
                    0 <= i < map.doors@.len() ==> game_data.door_mapped(#[trigger] map.doors@[i]),
                edges@ == game_data.map_edges(map.doors@.take(d as int)),
            decreases map.doors@.len() - d,
        {
            let door: Door = map.doors[d];
            assert(game_data.door_mapped(map.doors@[d as int]));
            let src: (RoomId, NodeId) = *game_data.door_ptr_pair_map.get(door.0).unwrap();
            let dst: (RoomId, NodeId) = *game_data.door_ptr_pair_map.get(door.1).unwrap();
            let ghost before = edges@;
            add_passage(game_data, src, dst, &mut edges);
            if door.2 {
                add_passage(game_data, dst, src, &mut edges);
            }
            assert(edges@ =~= before + game_data.door_edges(door));
            assert(map.doors@.take(d as int + 1).drop_last() =~= map.doors@.take(d as int));
            d += 1;
        }
        assert(map.doors@.take(d as int) =~= map.doors@);

        let mut links: Vec<Link> = Vec::new();
        let mut i: usize = 0;
        while i < game_data.links.len()
            invariant
                i <= game_data.links@.len(),
                links@.len() == i,
                forall|j: int|
                    0 <= j < i ==> (#[trigger] links@[j])@ == game_data.links@[j]@,
            decreases game_data.links@.len() - i,
        {
            links.push(game_data.links[i].clone());
            i += 1;
        }
        assert(links_view(links@) =~= links_view(game_data.links@));
        let ghost within = links_view(links@);
        let ghost through = edges@.map_values(|edge: (VertexId, VertexId)| door_link(edge));
        let mut e: usize = 0;
        while e < edges.len()
            invariant
                e <= edges@.len(),
                within == links_view(game_data.links@),
                through == edges@.map_values(|edge: (VertexId, VertexId)| door_link(edge)),
                links@.len() == game_data.links@.len() + e,
                links_view(links@) == within + through.take(e as int),
            decreases edges@.len() - e,
        {
            let ghost before = links@;
            let link: Link = Link {
                from_vertex_id: edges[e].0,
                to_vertex_id: edges[e].1,
                requirement: Requirement::Free,
                strat_name: "(Door transition)".to_owned(),
            };
            links.push(link);
            assert(link@ == door_link(edges@[e as int]));
            assert(links_view(links@) =~= links_view(before).push(link@));
            assert(through.take(e as int + 1) =~= through.take(e as int).push(through[e as int]));
            e += 1;
        }
        assert(through.take(e as int) =~= through);

        let num_items: usize = game_data.item_isv.keys.len();
        let mut initial_items_remaining: Vec<usize> = vec![1; num_items];
        initial_items_remaining.set(Item::Missile.index(), 46);
        initial_items_remaining.set(Item::Super.index(), 10);
        initial_items_remaining.set(Item::PowerBomb.index(), 10);
        initial_items_remaining.set(Item::ETank.index(), 14);
        initial_items_remaining.set(Item::ReserveTank.index(), 4);
        assert(initial_items_remaining@ =~= initial_counts(num_items as nat));
        Randomizer { map, game_data, difficulty, links, initial_items_remaining }
    }
}

}
