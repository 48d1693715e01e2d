//! The account of an attempt: where each item is first found, and how to get there and back.
use crate::game_data::{names_view, Capacity, Link, LinkIdx, VertexId, VertexKey};
use crate::items::{Item, ITEM_COUNT};
use crate::state::{
    DebugData, RandomizationState, Randomizer, SpoilerDetails, SpoilerItemDetails, SpoilerLocation,
    SpoilerRouteEntry, SpoilerStartState, StateView, VertexInfo,
};
use crate::traverse::{may_apply, may_route, GlobalState, GlobalView, LocalState, Traversal};
use vstd::prelude::*;

verus! {

/// The names of what is held, in the order of the names.
pub open spec fn held_names(names: Seq<Seq<char>>, held: Seq<bool>) -> Seq<Seq<char>>
    decreases names.len(),
{
    if names.len() == 0 {
        Seq::empty()
    } else if held[names.len() - 1] {
        held_names(names.drop_last(), held).push(names.last())
    } else {
        held_names(names.drop_last(), held)
    }
}

/// The amount left, where it has changed.
pub open spec fn amount_left(most: Capacity, before: Capacity, after: Capacity) -> Option<
    Capacity,
> {
    if after != before {
        Some((most - after) as Capacity)
    } else {
        None
    }
}

/// The amount left can be represented, where it has changed.
pub open spec fn amount_fits(most: Capacity, before: Capacity, after: Capacity) -> bool {
    after != before ==> Capacity::MIN <= most - after <= Capacity::MAX
}

/// All amounts left can be represented.
pub open spec fn amounts_fit(global: GlobalView, before: LocalState, after: LocalState) -> bool {
    &&& amount_fits(global.max_energy, before.energy_used, after.energy_used)
    &&& amount_fits(global.max_reserves, before.reserves_used, after.reserves_used)
    &&& amount_fits(global.max_missiles, before.missiles_used, after.missiles_used)
    &&& amount_fits(global.max_supers, before.supers_used, after.supers_used)
    &&& amount_fits(global.max_power_bombs, before.power_bombs_used, after.power_bombs_used)
}

fn check_amount(most: Capacity, before: Capacity, after: Capacity) -> (fits: bool)
    ensures
        fits == amount_fits(most, before, after),
{
    after == before || most.checked_sub(after).is_some()
}

fn check_amounts(global: &GlobalState, before: &LocalState, after: &LocalState) -> (fit: bool)
    ensures
        fit == amounts_fit(global@, *before, *after),
{
    check_amount(global.max_energy, before.energy_used, after.energy_used) && check_amount(
        global.max_reserves,
        before.reserves_used,
        after.reserves_used,
    ) && check_amount(global.max_missiles, before.missiles_used, after.missiles_used)
        && check_amount(global.max_supers, before.supers_used, after.supers_used) && check_amount(
        global.max_power_bombs,
        before.power_bombs_used,
        after.power_bombs_used,
    )
}

fn tell_amount(most: Capacity, before: Capacity, after: Capacity) -> (left: Option<Capacity>)
    requires
        amount_fits(most, before, after),
    ensures
        left == amount_left(most, before, after),
{
    if after != before {
        Some(most - after)
    } else {
        None
    }
}

impl<'a> Randomizer<'a> {
    /// The name of the room of a vertex.
    pub open spec fn room_name(self, vertex_id: VertexId) -> Seq<char> {
        self.game_data.room_names.at(self.game_data.vertex_isv.keys@[vertex_id as int].0)@
    }

    /// The name of the node of a vertex.
    pub open spec fn node_name(self, vertex_id: VertexId) -> Seq<char> {
        let key = self.game_data.vertex_isv.keys@[vertex_id as int];
        self.game_data.node_names.at((key.0, key.1))@
    }

    /// The account of following a link.
    pub open spec fn tells_link(
        self,
        entry: SpoilerRouteEntry,
        global: GlobalView,
        link: Link,
        before: LocalState,
        after: LocalState,
    ) -> bool {
        &&& entry.room@ == self.room_name(link.to_vertex_id)
        &&& entry.node@ == self.node_name(link.to_vertex_id)
        &&& entry.strat_name@ == link.strat_name@
        &&& entry.energy_remaining == amount_left(
            global.max_energy,
            before.energy_used,
            after.energy_used,
        )
        &&& entry.reserves_remaining == amount_left(
            global.max_reserves,
            before.reserves_used,
            after.reserves_used,
        )
        &&& entry.missiles_remaining == amount_left(
            global.max_missiles,
            before.missiles_used,
            after.missiles_used,
        )
        &&& entry.supers_remaining == amount_left(
            global.max_supers,
            before.supers_used,
            after.supers_used,
        )
        &&& entry.power_bombs_remaining == amount_left(
            global.max_power_bombs,
            before.power_bombs_used,
            after.power_bombs_used,
        )
    }

    /// What has been spent before and after each link of a route.
    pub open spec fn follows<W: Traversal>(
        self,
        world: &W,
        global: GlobalView,
        link_idxs: Seq<LinkIdx>,
        locals: Seq<LocalState>,
    ) -> bool {
        &&& locals.len() == link_idxs.len() + 1
        &&& forall|i: int|
            0 <= i < link_idxs.len() ==> {
                &&& (#[trigger] link_idxs[i]) < self.links@.len()
                &&& self.game_data.vertex_named(
                    self.links@[link_idxs[i] as int].to_vertex_id as int,
                )
                &&& may_apply(
                    world,
                    self.links@[link_idxs[i] as int].requirement,
                    global,
                    locals[i],
                    Some(locals[i + 1]),
                )
                &&& amounts_fit(global, locals[i], locals[i + 1])
            }
    }

    /// The account of following a route.
    pub open spec fn tells_route(
        self,
        route: Seq<SpoilerRouteEntry>,
        global: GlobalView,
        link_idxs: Seq<LinkIdx>,
        locals: Seq<LocalState>,
    ) -> bool {
        &&& route.len() == link_idxs.len()
        &&& forall|i: int|
            0 <= i < route.len() ==> self.tells_link(
                #[trigger] route[i],
                global,
                self.links@[link_idxs[i] as int],
                locals[i],
                locals[i + 1],
            )
    }

    /// A link that may not be followed: there is no such link, it leads to a vertex without a
    /// name, its requirement is not met, or an amount left cannot be represented.
    pub open spec fn link_blocked<W: Traversal>(
        self,
        world: &W,
        global: GlobalView,
        link_idx: LinkIdx,
        before: LocalState,
    ) -> bool {
        link_idx >= self.links@.len() || !self.game_data.vertex_named(
            self.links@[link_idx as int].to_vertex_id as int,
        ) || exists|after: Option<LocalState>|
            {
                &&& #[trigger] may_apply(
                    world,
                    self.links@[link_idx as int].requirement,
                    global,
                    before,
                    after,
                )
                &&& after is None || !amounts_fit(global, before, after->0)
            }
    }

    /// A route that may not be followed to its end, but leads to `last`.
    pub open spec fn route_blocked<W: Traversal>(
        self,
        world: &W,
        global: GlobalView,
        link_idxs: Seq<LinkIdx>,
        first: LocalState,
        last: LocalState,
    ) -> bool {
        exists|n: int, locals: Seq<LocalState>|
            {
                &&& 0 <= n < link_idxs.len()
                &&& #[trigger] self.follows(world, global, link_idxs.take(n), locals)
                &&& locals.first() == first
                &&& locals.last() == last
                &&& self.link_blocked(world, global, link_idxs[n], last)
            }
    }

    /// The account of what the player owns.
    pub open spec fn tells_start(self, start: SpoilerStartState, global: GlobalView) -> bool {
        &&& start.max_energy == global.max_energy
        &&& start.max_reserves == global.max_reserves
        &&& start.max_missiles == global.max_missiles
        &&& start.max_supers == global.max_supers
        &&& start.max_power_bombs == global.max_power_bombs
        &&& names_view(start.items@) == held_names(
            names_view(self.game_data.item_isv.keys@),
            global.items,
        )
        &&& start.flags@.len() == 0
    }

    /// The item at a location is picked up between two states, and it is the first of its
    /// kind.
    pub open spec fn first_found<T>(self, s: StateView<T>, t: StateView<T>, i: int) -> bool {
        &&& t.locations[i].placed_item matches Some(item)
        &&& s.remaining[item.id()] == self.initial_items_remaining@[item.id()]
        &&& !s.locations[i].collected
        &&& t.locations[i].collected
    }

    /// No item is picked up between two states that is the first of its kind.
    pub open spec fn nothing_found<T>(self, s: StateView<T>, t: StateView<T>) -> bool {
        forall|i: int| 0 <= i < s.locations.len() ==> !#[trigger] self.first_found(s, t, i)
    }

    /// The account of finding the item at a location.
    pub open spec fn tells_item<W: Traversal>(
        self,
        world: &W,
        s: StateView<W::Trail>,
        t: StateView<W::Trail>,
        i: int,
        details: SpoilerItemDetails,
    ) -> bool {
        let vertex_id = s.locations[i].bireachable_vertex_id->0;
        &&& self.game_data.vertex_named(vertex_id as int)
        &&& details.item@ == (t.locations[i].placed_item->0).label()
        &&& details.location.room@ == self.room_name(vertex_id)
        &&& details.location.node@ == self.node_name(vertex_id)
        &&& self.tells_start(details.start_state, s.global)
        &&& exists|
            there: Seq<LinkIdx>,
            back: Seq<LinkIdx>,
            going: Seq<LocalState>,
            returning: Seq<LocalState>,
        |
            {
                &&& may_route(world, (s.debug_data->0).forward, vertex_id, false, there)
                &&& may_route(world, (s.debug_data->0).reverse, vertex_id, true, back)
                &&& #[trigger] self.follows(world, s.global, there, going)
                &&& #[trigger] self.follows(world, s.global, back, returning)
                &&& going.first() == LocalState::fresh()
                &&& returning.first() == going.last()
                &&& self.tells_route(details.obtain_route@, s.global, there, going)
                &&& self.tells_route(details.return_route@, s.global, back, returning)
            }
    }

    /// The vertex of the item at a location has no name, or the route to it or back may not be
    /// followed.
    pub open spec fn item_blocked<W: Traversal>(
        self,
        world: &W,
        s: StateView<W::Trail>,
        i: int,
    ) -> bool {
        let vertex_id = s.locations[i].bireachable_vertex_id->0;
        ||| !self.game_data.vertex_named(vertex_id as int)
        ||| exists|there: Seq<LinkIdx>, last: LocalState|
            {
                &&& #[trigger] may_route(
                    world,
                    (s.debug_data->0).forward,
                    vertex_id,
                    false,
                    there,
                )
                &&& #[trigger] self.route_blocked(
                    world,
                    s.global,
                    there,
                    LocalState::fresh(),
                    last,
                )
            }
        ||| exists|
            there: Seq<LinkIdx>,
            going: Seq<LocalState>,
            back: Seq<LinkIdx>,
            last: LocalState,
        |
            {
                &&& may_route(world, (s.debug_data->0).forward, vertex_id, false, there)
                &&& #[trigger] self.follows(world, s.global, there, going)
                &&& going.first() == LocalState::fresh()
                &&& may_route(world, (s.debug_data->0).reverse, vertex_id, true, back)
                &&& #[trigger] self.route_blocked(world, s.global, back, going.last(), last)
            }
    }

    /// The account of the items first found at the first `n` locations.
    pub open spec fn tells_items<W: Traversal>(
        self,
        world: &W,
        s: StateView<W::Trail>,
        t: StateView<W::Trail>,
        n: nat,
        items: Seq<SpoilerItemDetails>,
    ) -> bool
        decreases n,
    {
        if n == 0 {
            items.len() == 0
        } else if self.first_found(s, t, n - 1) {
            &&& items.len() > 0
            &&& self.tells_item(world, s, t, n - 1, items.last())
            &&& self.tells_items(world, s, t, (n - 1) as nat, items.drop_last())
        } else {
            self.tells_items(world, s, t, (n - 1) as nat, items)
        }
    }

    /// The account of a step.
    pub open spec fn tells_step<W: Traversal>(
        self,
        world: &W,
        s: StateView<W::Trail>,
        t: StateView<W::Trail>,
        details: SpoilerDetails,
    ) -> bool {
        &&& details.step == s.step_num
        &&& self.tells_items(world, s, t, self.game_data.item_locations@.len(), details.items@)
    }

    /// Where nothing is first found, nothing is told.
    pub proof fn lemma_nothing_told<W: Traversal>(
        self,
        world: &W,
        s: StateView<W::Trail>,
        t: StateView<W::Trail>,
        n: nat,
        items: Seq<SpoilerItemDetails>,
    )
        requires
            n <= s.locations.len(),
            self.nothing_found(s, t),
            self.tells_items(world, s, t, n, items),
        ensures
            items.len() == 0,
        decreases n,
    {
        if n > 0 {
            assert(!self.first_found(s, t, n - 1));
            self.lemma_nothing_told(world, s, t, (n - 1) as nat, items);
        }
    }

    /// The names of the room and the node of a vertex.
    pub fn get_vertex_info(&self, vertex_id: VertexId) -> (info: VertexInfo)
        requires
            self.game_data.vertex_named(vertex_id as int),
        ensures
            info.room_name@ == self.room_name(vertex_id),
            info.node_name@ == self.node_name(vertex_id),
    {
        let key: VertexKey = self.game_data.vertex_isv.keys[vertex_id];
        VertexInfo {
            room_name: self.game_data.room_names.get(key.0).unwrap().clone(),
            node_name: self.game_data.node_names.get((key.0, key.1)).unwrap().clone(),
        }
    }

    /// The account of what the player owns.
    pub fn get_spoiler_start_state(&self, global: &GlobalState) -> (start: SpoilerStartState)
        requires
            self.game_data.item_isv.keys@.len() <= global@.items.len(),
        ensures
            self.tells_start(start, global@),
    {
        let ghost names = names_view(self.game_data.item_isv.keys@);
        let mut items: Vec<String> = Vec::new();
        let mut i: usize = 0;
        assert(names.take(0) =~= Seq::empty());
        assert(names_view(items@) =~= Seq::empty());
        while i < self.game_data.item_isv.keys.len()
            invariant
                i <= self.game_data.item_isv.keys@.len(),
                self.game_data.item_isv.keys@.len() <= global@.items.len(),
                names == names_view(self.game_data.item_isv.keys@),
                names_view(items@) == held_names(names.take(i as int), global@.items),
            decreases self.game_data.item_isv.keys@.len() - i,
        {
            assert(names.take(i as int + 1).drop_last() =~= names.take(i as int));
            if global.items[i] {
                let ghost before = items@;
                let name: String = self.game_data.item_isv.keys[i].clone();
                items.push(name);
                assert(names_view(items@) =~= names_view(before).push(name@));
            }
            i += 1;
        }
        assert(names.take(i as int) =~= names);
        SpoilerStartState {
            max_energy: global.max_energy,
            max_reserves: global.max_reserves,
            max_missiles: global.max_missiles,
            max_supers: global.max_supers,
            max_power_bombs: global.max_power_bombs,
            items,
            flags: Vec::new(),
        }
    }

    /// The account of following a link.
    pub fn tell_link(
        &self,
        global: &GlobalState,
        link: &Link,
        before: &LocalState,
        after: &LocalState,
    ) -> (entry: SpoilerRouteEntry)
        requires
            self.game_data.vertex_named(link.to_vertex_id as int),
            amounts_fit(global@, *before, *after),
        ensures
            self.tells_link(entry, global@, *link, *before, *after),
    {
        let info: VertexInfo = self.get_vertex_info(link.to_vertex_id);
        SpoilerRouteEntry {
            room: info.room_name,
            node: info.node_name,
            strat_name: link.strat_name.clone(),
            energy_remaining: tell_amount(
                global.max_energy,
                before.energy_used,
                after.energy_used,
            ),
            reserves_remaining: tell_amount(
                global.max_reserves,
                before.reserves_used,
                after.reserves_used,
            ),
            missiles_remaining: tell_amount(
                global.max_missiles,
                before.missiles_used,
                after.missiles_used,
            ),
            supers_remaining: tell_amount(
                global.max_supers,
                before.supers_used,
                after.supers_used,
            ),
            power_bombs_remaining: tell_amount(
                global.max_power_bombs,
                before.power_bombs_used,
                after.power_bombs_used,
            ),
        }
    }

    /// Follows a route and gives an account of it, or none if it is blocked.
    /// `local_state` moves along.
    pub fn get_spoiler_route<W: Traversal>(
        &self,
        world: &W,
        global: &GlobalState,
        local_state: &mut LocalState,
        link_idxs: &[LinkIdx],
    ) -> (route: Option<Vec<SpoilerRouteEntry>>)
        ensures
            match route {
                Some(route) => exists|locals: Seq<LocalState>|
                    {
                        &&& #[trigger] self.follows(world, global@, link_idxs@, locals)
                        &&& locals.first() == *old(local_state)
                        &&& locals.last() == *final(local_state)
                        &&& self.tells_route(route@, global@, link_idxs@, locals)
                    },
                None => self.route_blocked(
                    world,
                    global@,
                    link_idxs@,
                    *old(local_state),
                    *final(local_state),
                ),
            },
    {
        let mut route: Vec<SpoilerRouteEntry> = Vec::new();
        let ghost mut locals: Seq<LocalState> = seq![*local_state];
        let mut n: usize = 0;
        while n < link_idxs.len()
            invariant
                n <= link_idxs@.len(),
                self.follows(world, global@, link_idxs@.take(n as int), locals),
                locals.first() == *old(local_state),
                locals.last() == *local_state,
                self.tells_route(route@, global@, link_idxs@.take(n as int), locals),
            decreases link_idxs@.len() - n,
        {
            let link_idx: usize = link_idxs[n] as usize;
            if link_idx >= self.links.len() {
                return None;
            }
            let link: &Link = &self.links[link_idx];
            if !self.game_data.is_vertex_named(link.to_vertex_id) {
                return None;
            }
            let applied: Option<LocalState> = world.apply_requirement(
                &link.requirement,
                global,
                *local_state,
                false,
            );
            assert(may_apply(world, link.requirement, global@, *local_state, applied));
            let after: LocalState = match applied {
                Some(after) => after,
                None => {
                    return None;
                },
            };
            if !check_amounts(global, local_state, &after) {
                return None;
            }
            let entry: SpoilerRouteEntry = self.tell_link(global, link, local_state, &after);
            proof {
                let done = link_idxs@.take(n as int);
                let more = link_idxs@.take(n as int + 1);
                let longer = locals.push(after);
                let told = route@.push(entry);
                assert(more =~= done.push(link_idxs@[n as int]));
                assert forall|i: int| 0 <= i < more.len() implies {
                    &&& (#[trigger] more[i]) < self.links@.len()
                    &&& self.game_data.vertex_named(
                        self.links@[more[i] as int].to_vertex_id as int,
                    )
                    &&& may_apply(
                        world,
                        self.links@[more[i] as int].requirement,
                        global@,
                        longer[i],
                        Some(longer[i + 1]),
                    )
                    &&& amounts_fit(global@, longer[i], longer[i + 1])
                } by {
                    if i < done.len() {
                        assert(more[i] == done[i]);
                    }
                }
                assert forall|i: int| 0 <= i < told.len() implies self.tells_link(
                    #[trigger] told[i],
                    global@,
                    self.links@[more[i] as int],
                    longer[i],
                    longer[i + 1],
                ) by {
                    if i < done.len() {
                        assert(told[i] == route@[i]);
                        assert(more[i] == done[i]);
                    }
                }
                locals = longer;
            }
            route.push(entry);
            *local_state = after;
            n += 1;
        }
        assert(link_idxs@.take(n as int) =~= link_idxs@);
        Some(route)
    }
}

impl<'a> Randomizer<'a> {
    /// The account of finding the item at a location, or none if a route is blocked.
    fn tell_item<W: Traversal>(
        &self,
        world: &W,
        state: &RandomizationState<W::Trail>,
        new_state: &RandomizationState<W::Trail>,
        i: usize,
    ) -> (details: Option<SpoilerItemDetails>)
        requires
            self.valid(),
            state@.debug_data is Some,
            state@.global.items.len() >= ITEM_COUNT,
            i < state@.locations.len(),
            i < new_state@.locations.len(),
            state@.locations[i as int].bireachable_vertex_id is Some,
            new_state@.locations[i as int].placed_item is Some,
        ensures
            match details {
                Some(details) => self.tells_item(world, state@, new_state@, i as int, details),
                None => self.item_blocked(world, state@, i as int),
            },
    {
        let item: Item = new_state.item_location_state[i].placed_item.unwrap();
        let vertex_id: VertexId = state.item_location_state[i].bireachable_vertex_id.unwrap();
        if !self.game_data.is_vertex_named(vertex_id) {
            return None;
        }
        let debug_data: &DebugData<W::Trail> = state.debug_data.as_ref().unwrap();
        let there: Vec<LinkIdx> = world.get_spoiler_route(&debug_data.forward, vertex_id, false);
        assert(may_route(world, debug_data.forward, vertex_id, false, there@));
        let back: Vec<LinkIdx> = world.get_spoiler_route(&debug_data.reverse, vertex_id, true);
        assert(may_route(world, debug_data.reverse, vertex_id, true, back@));
        let mut local_state: LocalState = LocalState::new();
        let obtain_route: Vec<SpoilerRouteEntry> = match self.get_spoiler_route(
            world,
            &state.global_state,
            &mut local_state,
            there.as_slice(),
        ) {
            Some(route) => route,
            None => {
                assert(self.route_blocked(
                    world,
                    state@.global,
                    there@,
                    LocalState::fresh(),
                    local_state,
                ));
                return None;
            },
        };
        let ghost going = choose|locals: Seq<LocalState>|
            {
                &&& #[trigger] self.follows(world, state@.global, there@, locals)
                &&& locals.first() == LocalState::fresh()
                &&& locals.last() == local_state
                &&& self.tells_route(obtain_route@, state@.global, there@, locals)
            };
        let return_route: Vec<SpoilerRouteEntry> = match self.get_spoiler_route(
            world,
            &state.global_state,
            &mut local_state,
            back.as_slice(),
        ) {
            Some(route) => route,
            None => {
                return None;
            },
        };
        let info: VertexInfo = self.get_vertex_info(vertex_id);
        Some(
            SpoilerItemDetails {
                item: item.name().to_owned(),
                location: SpoilerLocation { room: info.room_name, node: info.node_name },
                start_state: self.get_spoiler_start_state(&state.global_state),
                obtain_route,
                return_route,
            },
        )
    }

    /// The account of a step from `state` to `new_state`: the items of which the first copy
    /// was picked up. There is none if a route is blocked. The traversals are looked at only
    /// where there is such an item.
    pub fn get_spoiler_details<W: Traversal>(
        &self,
        world: &W,
        state: &RandomizationState<W::Trail>,
        new_state: &RandomizationState<W::Trail>,
    ) -> (details: Option<SpoilerDetails>)
        requires
            self.valid(),
            state@.remaining.len() == ITEM_COUNT,
            state@.locations.len() == self.game_data.item_locations@.len(),
            new_state@.locations.len() == self.game_data.item_locations@.len(),
            forall|i: int|
                0 <= i < state@.locations.len() && #[trigger] self.first_found(
                    state@,
                    new_state@,
                    i,
                ) ==> {
                    &&& state@.debug_data is Some
                    &&& state@.global.items.len() >= ITEM_COUNT
                    &&& state@.locations[i].bireachable_vertex_id is Some
                },
        ensures
            match details {
                Some(details) => self.tells_step(world, state@, new_state@, details),
                None => exists|i: int|
                    {
                        &&& 0 <= i < state@.locations.len()
                        &&& #[trigger] self.first_found(state@, new_state@, i)
                        &&& self.item_blocked(world, state@, i)
                    },
            },
            self.nothing_found(state@, new_state@) ==> details is Some && (
            details->0).items@.len() == 0,
    {
        let mut items: Vec<SpoilerItemDetails> = Vec::new();
        let mut i: usize = 0;
        while i < self.game_data.item_locations.len()
            invariant
                i <= self.game_data.item_locations@.len(),
                self.valid(),
                state@.remaining.len() == ITEM_COUNT,
                state@.locations.len() == self.game_data.item_locations@.len(),
                new_state@.locations.len() == self.game_data.item_locations@.len(),
                forall|i: int|
                    0 <= i < state@.locations.len() && #[trigger] self.first_found(
                        state@,
                        new_state@,
                        i,
                    ) ==> {
                        &&& state@.debug_data is Some
                        &&& state@.global.items.len() >= ITEM_COUNT
                        &&& state@.locations[i].bireachable_vertex_id is Some
                    },
                self.tells_items(world, state@, new_state@, i as nat, items@),
            decreases self.game_data.item_locations@.len() - i,
        {
            if let Some(item) = new_state.item_location_state[i].placed_item {
                let id: usize = item.index();
                let first_item: bool = state.items_remaining[id]
                    == self.initial_items_remaining[id];
                if first_item && !state.item_location_state[i].collected
                    && new_state.item_location_state[i].collected {
                    assert(self.first_found(state@, new_state@, i as int));
                    match self.tell_item(world, state, new_state, i) {
                        Some(details) => {
                            let ghost before = items@;
                            items.push(details);
                            assert(items@.drop_last() =~= before);
                        },
                        None => {
                            return None;
                        },
                    }
                }
            }
            i += 1;
        }
        proof {
            if self.nothing_found(state@, new_state@) {
                self.lemma_nothing_told(world, state@, new_state@, i as nat, items@);
            }
        }
        Some(SpoilerDetails { step: state.step_num, items })
    }
}

}
