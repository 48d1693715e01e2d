//! The description of the game that item placement reads: rooms, doors, links, locations.
use vstd::prelude::*;

verus! {

pub type RoomId = usize;

pub type NodeId = usize;

/// The set of cleared obstacles of a room, one bit per obstacle.
pub type ObstacleMask = usize;

pub type VertexId = usize;

pub type ItemLocationId = usize;

pub type FlagId = usize;

pub type RequirementId = usize;

pub type LinkIdx = u32;

/// Amounts of energy and ammunition.
pub type Capacity = i32;

pub type WeaponMask = usize;

/// The exit and entrance pointers of one side of a door.
pub type DoorPtrPair = (Option<usize>, Option<usize>);

/// The two sides of a door, and whether it can be passed both ways.
pub type Door = (DoorPtrPair, DoorPtrPair, bool);

/// A vertex is a node of a room together with the obstacles cleared in that room.
pub type VertexKey = (RoomId, NodeId, ObstacleMask);

/// Values by which table entries are found.
pub trait Key: Sized {
    fn same(&self, other: &Self) -> (same: bool)
        ensures
            same == (*self == *other),
    ;
}

impl Key for usize {
    fn same(&self, other: &Self) -> (same: bool) {
        *self == *other
    }
}

impl Key for (RoomId, NodeId) {
    fn same(&self, other: &Self) -> (same: bool) {
        self.0 == other.0 && self.1 == other.1
    }
}

impl Key for VertexKey {
    fn same(&self, other: &Self) -> (same: bool) {
        self.0 == other.0 && self.1 == other.1 && self.2 == other.2
    }
}

fn same_ptr(a: Option<usize>, b: Option<usize>) -> (same: bool)
    ensures
        same == (a == b),
{
    match (a, b) {
        (Some(x), Some(y)) => x == y,
        (None, None) => true,
        _ => false,
    }
}

impl Key for DoorPtrPair {
    fn same(&self, other: &Self) -> (same: bool) {
        same_ptr(self.0, other.0) && same_ptr(self.1, other.1)
    }
}

/// A list of distinct keys, which number each other by their positions.
pub struct IndexedVec<T> {
    pub keys: Vec<T>,
}

impl<T> IndexedVec<T> {
    pub open spec fn has(self, key: T) -> bool {
        self.keys@.contains(key)
    }

    /// The position of a key.
    pub open spec fn position(self, key: T) -> usize {
        self.keys@.index_of_first(key)->0 as usize
    }
}

impl<T: Key> IndexedVec<T> {
    /// The position of `key`, if it is listed.
    pub fn index_by_key(&self, key: T) -> (found: Option<usize>)
        ensures
            found is Some <==> self.has(key),
            found matches Some(i) ==> {
                &&& i == self.position(key)
                &&& i < self.keys@.len()
                &&& self.keys@[i as int] == key
            },
    {
        let mut i: usize = 0;
        while i < self.keys.len()
            invariant
                i <= self.keys@.len(),
                forall|j: int| 0 <= j < i ==> self.keys@[j] != key,
            decreases self.keys@.len() - i,
        {
            if self.keys[i].same(&key) {
                proof {
                    self.keys@.index_of_first_ensures(key);
                }
                return Some(i);
            }
            i += 1;
        }
        None
    }
}

/// The characters of each name.
pub open spec fn names_view(names: Seq<String>) -> Seq<Seq<char>> {
    names.map_values(|name: String| name@)
}

impl IndexedVec<String> {
    pub open spec fn has_name(self, name: Seq<char>) -> bool {
        names_view(self.keys@).contains(name)
    }

    /// The position of a name.
    pub open spec fn name_position(self, name: Seq<char>) -> int {
        names_view(self.keys@).index_of_first(name)->0
    }

    /// The position of `name`, if it is listed.
    pub fn index_by_name(&self, name: &str) -> (found: Option<usize>)
        ensures
            found is Some <==> self.has_name(name@),
            found matches Some(i) ==> {
                &&& i == self.name_position(name@)
                &&& i < self.keys@.len()
                &&& self.keys@[i as int]@ == name@
            },
    {
        let wanted: String = name.to_owned();
        let mut i: usize = 0;
        while i < self.keys.len()
            invariant
                i <= self.keys@.len(),
                wanted@ == name@,
                forall|j: int| 0 <= j < i ==> names_view(self.keys@)[j] != name@,
            decreases self.keys@.len() - i,
        {
            if self.keys[i] == wanted {
                proof {
                    assert(names_view(self.keys@)[i as int] == name@);
                    names_view(self.keys@).index_of_first_ensures(name@);
                }
                return Some(i);
            }
            i += 1;
        }
        None
    }
}

/// A table of values found by key. Where a key occurs twice, the first entry counts.
pub struct Table<K, V> {
    pub entries: Vec<(K, V)>,
}

impl<K, V> Table<K, V> {
    pub open spec fn key_list(self) -> Seq<K> {
        self.entries@.map_values(|entry: (K, V)| entry.0)
    }

    pub open spec fn has(self, key: K) -> bool {
        self.key_list().contains(key)
    }

    /// The value of a key.
    pub open spec fn at(self, key: K) -> V {
        self.entries@[self.key_list().index_of_first(key)->0].1
    }
}

impl<K: Key, V> Table<K, V> {
    /// The value of `key`, if there is one.
    pub fn get(&self, key: K) -> (found: Option<&V>)
        ensures
            found is Some <==> self.has(key),
            found matches Some(value) ==> *value == self.at(key),
    {
        let mut i: usize = 0;
        while i < self.entries.len()
            invariant
                i <= self.entries@.len(),
                forall|j: int| 0 <= j < i ==> self.key_list()[j] != key,
            decreases self.entries@.len() - i,
        {
            let entry: &(K, V) = &self.entries[i];
            if entry.0.same(&key) {
                proof {
                    assert(self.key_list()[i as int] == key);
                    self.key_list().index_of_first_ensures(key);
                }
                return Some(&entry.1);
            }
            i += 1;
        }
        None
    }
}

/// What has to be met to follow a link. The rules other than the empty one are kept by
/// whoever evaluates them, and are told apart here by number.
#[derive(Clone, Copy, Debug, PartialEq, Eq, Structural)]
pub enum Requirement {
    Free,
    Rule(RequirementId),
}

/// A way to get from one vertex to another.
pub struct Link {
    pub from_vertex_id: VertexId,
    pub to_vertex_id: VertexId,
    pub requirement: Requirement,
    pub strat_name: String,
}

pub ghost struct LinkView {
    pub from_vertex_id: VertexId,
    pub to_vertex_id: VertexId,
    pub requirement: Requirement,
    pub strat_name: Seq<char>,
}

impl View for Link {
    type V = LinkView;

    open spec fn view(&self) -> LinkView {
        LinkView {
            from_vertex_id: self.from_vertex_id,
            to_vertex_id: self.to_vertex_id,
            requirement: self.requirement,
            strat_name: self.strat_name@,
        }
    }
}

impl Clone for Link {
    fn clone(&self) -> (copy: Self)
        ensures
            copy@ == self@,
    {
        Link {
            from_vertex_id: self.from_vertex_id,
            to_vertex_id: self.to_vertex_id,
            requirement: self.requirement,
            strat_name: self.strat_name.clone(),
        }
    }
}

pub open spec fn links_view(links: Seq<Link>) -> Seq<LinkView> {
    links.map_values(|link: Link| link@)
}

/// The doors of a randomized map.
pub struct GameMap {
    pub doors: Vec<Door>,
}

impl View for GameMap {
    type V = Seq<Door>;

    open spec fn view(&self) -> Seq<Door> {
        self.doors@
    }
}

impl Clone for GameMap {
    fn clone(&self) -> (copy: Self)
        ensures
            copy@ == self@,
    {
        let mut doors: Vec<Door> = Vec::new();
        let mut i: usize = 0;
        while i < self.doors.len()
            invariant
                i <= self.doors@.len(),
                doors@ == self.doors@.take(i as int),
            decreases self.doors@.len() - i,
        {
            doors.push(self.doors[i]);
            i += 1;
        }
        GameMap { doors }
    }
}

/// The data of the game. Tables are indexed in parallel: `item_vertex_ids` with
/// `item_locations`, `flag_vertex_ids` with `flag_locations`.
pub struct GameData {
    pub tech_isv: IndexedVec<String>,
    pub flag_isv: IndexedVec<String>,
    pub item_isv: IndexedVec<String>,
    pub vertex_isv: IndexedVec<VertexKey>,
    /// The node that each side of a door leads to.
    pub door_ptr_pair_map: Table<DoorPtrPair, (RoomId, NodeId)>,
    pub room_num_obstacles: Table<RoomId, usize>,
    pub links: Vec<Link>,
    pub item_locations: Vec<(RoomId, NodeId)>,
    pub item_vertex_ids: Vec<Vec<VertexId>>,
    /// The node at which each flag is set, and the flag.
    pub flag_locations: Vec<(RoomId, NodeId, FlagId)>,
    pub flag_vertex_ids: Vec<Vec<VertexId>>,
    pub room_names: Table<RoomId, String>,
    pub node_names: Table<(RoomId, NodeId), String>,
}

}
