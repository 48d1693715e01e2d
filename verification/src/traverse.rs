//! What the player owns and spends, and the questions that item placement puts to the
//! model of the game.
use crate::game_data::{Capacity, GameData, Link, LinkIdx, Requirement, VertexId, WeaponMask};
use crate::items::Item;
use vstd::prelude::*;

verus! {

/// What the player owns.
pub struct GlobalState {
    pub tech: Vec<bool>,
    pub items: Vec<bool>,
    pub flags: Vec<bool>,
    pub max_energy: Capacity,
    pub max_reserves: Capacity,
    pub max_missiles: Capacity,
    pub max_supers: Capacity,
    pub max_power_bombs: Capacity,
    pub weapon_mask: WeaponMask,
    pub shine_charge_tiles: i32,
}

#[verifier::ext_equal]
pub ghost struct GlobalView {
    pub tech: Seq<bool>,
    pub items: Seq<bool>,
    pub flags: Seq<bool>,
    pub max_energy: Capacity,
    pub max_reserves: Capacity,
    pub max_missiles: Capacity,
    pub max_supers: Capacity,
    pub max_power_bombs: Capacity,
    pub weapon_mask: WeaponMask,
    pub shine_charge_tiles: i32,
}

impl View for GlobalState {
    type V = GlobalView;

    open spec fn view(&self) -> GlobalView {
        GlobalView {
            tech: self.tech@,
            items: self.items@,
            flags: self.flags@,
            max_energy: self.max_energy,
            max_reserves: self.max_reserves,
            max_missiles: self.max_missiles,
            max_supers: self.max_supers,
            max_power_bombs: self.max_power_bombs,
            weapon_mask: self.weapon_mask,
            shine_charge_tiles: self.shine_charge_tiles,
        }
    }
}

impl Clone for GlobalState {
    fn clone(&self) -> (copy: Self)
        ensures
            copy@ == self@,
    {
        let copy: GlobalState = GlobalState {
            tech: self.tech.clone(),
            items: self.items.clone(),
            flags: self.flags.clone(),
            max_energy: self.max_energy,
            max_reserves: self.max_reserves,
            max_missiles: self.max_missiles,
            max_supers: self.max_supers,
            max_power_bombs: self.max_power_bombs,
            weapon_mask: self.weapon_mask,
            shine_charge_tiles: self.shine_charge_tiles,
        };
        assert(copy.tech@ =~= self.tech@);
        assert(copy.items@ =~= self.items@);
        assert(copy.flags@ =~= self.flags@);
        copy
    }
}

/// What the player has spent on the way to a vertex.
#[derive(Clone, Copy, Debug, PartialEq, Eq, Structural)]
pub struct LocalState {
    pub energy_used: Capacity,
    pub reserves_used: Capacity,
    pub missiles_used: Capacity,
    pub supers_used: Capacity,
    pub power_bombs_used: Capacity,
}

impl LocalState {
    /// Nothing has been spent.
    pub open spec fn fresh() -> LocalState {
        LocalState {
            energy_used: 0,
            reserves_used: 0,
            missiles_used: 0,
            supers_used: 0,
            power_bombs_used: 0,
        }
    }

    pub fn new() -> (local: LocalState)
        ensures
            local == LocalState::fresh(),
    {
        LocalState {
            energy_used: 0,
            reserves_used: 0,
            missiles_used: 0,
            supers_used: 0,
            power_bombs_used: 0,
        }
    }
}

/// Which vertices can be reached, at what expense, and by which routes.
pub struct TraverseResult<T> {
    pub local_states: Vec<Option<LocalState>>,
    pub trail: T,
}

/// The model of the game: how links are followed and what items do.
///
/// Nothing is promised of the answers. Item placement is specified for every answer that
/// an implementation may give, through the predicates below.
pub trait Traversal: Sized {
    /// What an implementation remembers of the routes that a traversal found.
    type Trail;

    /// The vertices that can be reached from `start_vertex_id` or, with `reverse`, from
    /// which `start_vertex_id` can be reached.
    fn traverse(
        &self,
        links: &Vec<Link>,
        global: &GlobalState,
        num_vertices: usize,
        start_vertex_id: VertexId,
        reverse: bool,
        game_data: &GameData,
    ) -> TraverseResult<Self::Trail>;

    /// Whether a vertex can be reached and left again.
    fn is_bireachable(
        &self,
        global: &GlobalState,
        forward: &Option<LocalState>,
        reverse: &Option<LocalState>,
    ) -> bool;

    /// What has been spent once a requirement is met, or nothing if it cannot be met.
    fn apply_requirement(
        &self,
        requirement: &Requirement,
        global: &GlobalState,
        local: LocalState,
        reverse: bool,
    ) -> Option<LocalState>;

    /// The links of the route that a traversal found to a vertex.
    fn get_spoiler_route(
        &self,
        traversal: &TraverseResult<Self::Trail>,
        vertex_id: VertexId,
        reverse: bool,
    ) -> Vec<LinkIdx>;

    /// What the player owns after picking up an item.
    fn collect(&self, global: &GlobalState, item: Item, game_data: &GameData) -> GlobalState;

    /// The weapons that a set of items makes up.
    fn get_weapon_mask(&self, items: &Vec<bool>, game_data: &GameData) -> WeaponMask;
}

/// `found` is an answer to `traverse`.
pub open spec fn may_traverse<W: Traversal>(
    world: &W,
    links: &Vec<Link>,
    global: GlobalView,
    num_vertices: usize,
    start_vertex_id: VertexId,
    reverse: bool,
    game_data: &GameData,
    found: TraverseResult<W::Trail>,
) -> bool {
    exists|given: &GlobalState|
        given@ == global && #[trigger] call_ensures(
            W::traverse,
            (world, links, given, num_vertices, start_vertex_id, reverse, game_data),
            found,
        )
}

/// `yes` is an answer to `is_bireachable`.
pub open spec fn may_bireach<W: Traversal>(
    world: &W,
    global: GlobalView,
    forward: Option<LocalState>,
    reverse: Option<LocalState>,
    yes: bool,
) -> bool {
    exists|given: &GlobalState|
        given@ == global && #[trigger] call_ensures(
            W::is_bireachable,
            (world, given, &forward, &reverse),
            yes,
        )
}

/// `after` is an answer to `apply_requirement` in the forward direction.
pub open spec fn may_apply<W: Traversal>(
    world: &W,
    requirement: Requirement,
    global: GlobalView,
    before: LocalState,
    after: Option<LocalState>,
) -> bool {
    exists|given: &GlobalState|
        given@ == global && #[trigger] call_ensures(
            W::apply_requirement,
            (world, &requirement, given, before, false),
            after,
        )
}

/// `links` is an answer to `get_spoiler_route`.
pub open spec fn may_route<W: Traversal>(
    world: &W,
    traversal: TraverseResult<W::Trail>,
    vertex_id: VertexId,
    reverse: bool,
    links: Seq<LinkIdx>,
) -> bool {
    exists|found: Vec<LinkIdx>|
        found@ == links && #[trigger] call_ensures(
            W::get_spoiler_route,
            (world, &traversal, vertex_id, reverse),
            found,
        )
}

/// `after` is an answer to `collect`.
pub open spec fn may_collect<W: Traversal>(
    world: &W,
    before: GlobalView,
    item: Item,
    game_data: &GameData,
    after: GlobalView,
) -> bool {
    exists|given: &GlobalState, found: GlobalState|
        given@ == before && found@ == after && #[trigger] call_ensures(
            W::collect,
            (world, given, item, game_data),
            found,
        )
}

/// `mask` is an answer to `get_weapon_mask`.
pub open spec fn may_arm<W: Traversal>(
    world: &W,
    items: Seq<bool>,
    game_data: &GameData,
    mask: WeaponMask,
) -> bool {
    exists|given: &Vec<bool>|
        given@ == items && #[trigger] call_ensures(
            W::get_weapon_mask,
            (world, given, game_data),
            mask,
        )
}

}
