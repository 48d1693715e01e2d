//! What the spoiler log says of an item: where it lies, what the player owns on setting out, and
//! one journey there and back. Everything is said of the entries themselves.
use crate::game_data::{names_view, Capacity, LinkIdx};
use crate::log::law_routes_join;
use crate::spoiler::{amounts_fit, held_names};
use crate::state::{
    Randomizer, SpoilerDetails, SpoilerItemDetails, SpoilerRouteEntry, SpoilerStartState, StateView,
};
use crate::traverse::{may_apply, may_route, GlobalView, LocalState, Traversal};
use vstd::prelude::*;

verus! {

/// An entry of a route names the room and the node that its link leads to, and the strat of the
/// link. Of energy, reserves, missiles, supers and power bombs it tells, each for itself, just
/// those of which the link changed what is used: the most the player can have, less what is used
/// after the link.
pub proof fn law_entries_tell_what_a_link_changed(
    randomizer: Randomizer,
    route: Seq<SpoilerRouteEntry>,
    global: GlobalView,
    link_idxs: Seq<LinkIdx>,
    locals: Seq<LocalState>,
    i: int,
)
    requires
        randomizer.tells_route(route, global, link_idxs, locals),
        0 <= i < route.len(),
    ensures
        route.len() == link_idxs.len(),
        ({
            let entry = route[i];
            let link = randomizer.links@[link_idxs[i] as int];
            let before = locals[i];
            let after = locals[i + 1];
            let key = randomizer.game_data.vertex_isv.keys@[link.to_vertex_id as int];
            &&& entry.room@ == randomizer.game_data.room_names.at(key.0)@
            &&& entry.node@ == randomizer.game_data.node_names.at((key.0, key.1))@
            &&& entry.strat_name@ == link.strat_name@
            &&& entry.energy_remaining is Some <==> after.energy_used != before.energy_used
            &&& entry.reserves_remaining is Some <==> after.reserves_used != before.reserves_used
            &&& entry.missiles_remaining is Some <==> after.missiles_used != before.missiles_used
            &&& entry.supers_remaining is Some <==> after.supers_used != before.supers_used
            &&& entry.power_bombs_remaining is Some <==> after.power_bombs_used
                != before.power_bombs_used
        }),
{
    assert(randomizer.tells_link(
        route[i],
        global,
        randomizer.links@[link_idxs[i] as int],
        locals[i],
        locals[i + 1],
    ));
}

/// The amounts that an entry of a followed route tells of are what is left of the most that the
/// player can have.
pub proof fn law_entries_tell_what_is_left<W: Traversal>(
    randomizer: Randomizer,
    world: &W,
    route: Seq<SpoilerRouteEntry>,
    global: GlobalView,
    link_idxs: Seq<LinkIdx>,
    locals: Seq<LocalState>,
    i: int,
)
    requires
        randomizer.follows(world, global, link_idxs, locals),
        randomizer.tells_route(route, global, link_idxs, locals),
        0 <= i < route.len(),
    ensures
        route[i].energy_remaining matches Some(left) ==> left == global.max_energy - locals[i
            + 1].energy_used,
        route[i].reserves_remaining matches Some(left) ==> left == global.max_reserves - locals[i
            + 1].reserves_used,
        route[i].missiles_remaining matches Some(left) ==> left == global.max_missiles - locals[i
            + 1].missiles_used,
        route[i].supers_remaining matches Some(left) ==> left == global.max_supers - locals[i
            + 1].supers_used,
        route[i].power_bombs_remaining matches Some(left) ==> left == global.max_power_bombs
            - locals[i + 1].power_bombs_used,
{
    assert(randomizer.tells_link(
        route[i],
        global,
        randomizer.links@[link_idxs[i] as int],
        locals[i],
        locals[i + 1],
    ));
    assert(link_idxs[i] < randomizer.links@.len());
}

/// A route is followed link by link: what is used before a link and after it is an answer to the
/// requirement of that link, from what was used before.
pub proof fn law_routes_meet_requirements<W: Traversal>(
    randomizer: Randomizer,
    world: &W,
    global: GlobalView,
    link_idxs: Seq<LinkIdx>,
    locals: Seq<LocalState>,
    i: int,
)
    requires
        randomizer.follows(world, global, link_idxs, locals),
        0 <= i < link_idxs.len(),
    ensures
        locals.len() == link_idxs.len() + 1,
        link_idxs[i] < randomizer.links@.len(),
        may_apply(
            world,
            randomizer.links@[link_idxs[i] as int].requirement,
            global,
            locals[i],
            Some(locals[i + 1]),
        ),
{
    assert(link_idxs[i] < randomizer.links@.len());
}

/// Why a route is blocked: its first links can be followed, and the next one is missing, leads to
/// a vertex without a name, has a requirement that is not met, or leaves an amount too large or
/// too small to be told.
pub proof fn law_blocked_routes_have_a_bad_link<W: Traversal>(
    randomizer: Randomizer,
    world: &W,
    global: GlobalView,
    link_idxs: Seq<LinkIdx>,
    first: LocalState,
    last: LocalState,
)
    requires
        randomizer.route_blocked(world, global, link_idxs, first, last),
    ensures
        exists|n: int, locals: Seq<LocalState>|
            {
                let link = randomizer.links@[link_idxs[n] as int];
                &&& 0 <= n < link_idxs.len()
                &&& #[trigger] randomizer.follows(world, global, link_idxs.take(n), locals)
                &&& locals.first() == first
                &&& locals.last() == last
                &&& {
                    ||| link_idxs[n] >= randomizer.links@.len()
                    ||| link.to_vertex_id >= randomizer.game_data.vertex_isv.keys@.len()
                    ||| !randomizer.game_data.room_names.has(
                        randomizer.game_data.vertex_isv.keys@[link.to_vertex_id as int].0,
                    )
                    ||| !randomizer.game_data.node_names.has(
                        (
                            randomizer.game_data.vertex_isv.keys@[link.to_vertex_id as int].0,
                            randomizer.game_data.vertex_isv.keys@[link.to_vertex_id as int].1,
                        ),
                    )
                    ||| may_apply(world, link.requirement, global, last, None)
                    ||| exists|after: LocalState|
                        {
                            let energy = global.max_energy - after.energy_used;
                            let reserves = global.max_reserves - after.reserves_used;
                            let missiles = global.max_missiles - after.missiles_used;
                            let supers = global.max_supers - after.supers_used;
                            let bombs = global.max_power_bombs - after.power_bombs_used;
                            &&& #[trigger] may_apply(
                                world,
                                link.requirement,
                                global,
                                last,
                                Some(after),
                            )
                            &&& {
                                ||| !(Capacity::MIN <= energy <= Capacity::MAX)
                                ||| !(Capacity::MIN <= reserves <= Capacity::MAX)
                                ||| !(Capacity::MIN <= missiles <= Capacity::MAX)
                                ||| !(Capacity::MIN <= supers <= Capacity::MAX)
                                ||| !(Capacity::MIN <= bombs <= Capacity::MAX)
                            }
                        }
                }
            },
{
    let (n, locals) = choose|n: int, locals: Seq<LocalState>|
        {
            &&& 0 <= n < link_idxs.len()
            &&& #[trigger] randomizer.follows(world, global, link_idxs.take(n), locals)
            &&& locals.first() == first
            &&& locals.last() == last
            &&& randomizer.link_blocked(world, global, link_idxs[n], last)
        };
    let link = randomizer.links@[link_idxs[n] as int];
    if link_idxs[n] < randomizer.links@.len() && randomizer.game_data.vertex_named(
        link.to_vertex_id as int,
    ) {
        let applied = choose|applied: Option<LocalState>|
            {
                &&& #[trigger] may_apply(world, link.requirement, global, last, applied)
                &&& applied is None || !amounts_fit(global, last, applied->0)
            };
        if applied is Some {
            let after = applied->0;
            assert(may_apply(world, link.requirement, global, last, Some(after)));
        }
    }
    assert(randomizer.follows(world, global, link_idxs.take(n), locals));
}

/// The account of an item tells one journey. The player sets out with nothing used, follows the
/// forward traversal's links to the vertex that is remembered for the location, and from there,
/// with what was used so far, the reverse traversal's links back.
pub proof fn law_items_are_told_as_one_journey<W: Traversal>(
    randomizer: Randomizer,
    world: &W,
    s: StateView<W::Trail>,
    t: StateView<W::Trail>,
    i: int,
    details: SpoilerItemDetails,
)
    requires
        randomizer.tells_item(world, s, t, i, details),
    ensures
        exists|there: Seq<LinkIdx>, back: Seq<LinkIdx>, locals: Seq<LocalState>|
            {
                &&& #[trigger] may_route(
                    world,
                    (s.debug_data->0).forward,
                    s.locations[i].bireachable_vertex_id->0,
                    false,
                    there,
                )
                &&& #[trigger] may_route(
                    world,
                    (s.debug_data->0).reverse,
                    s.locations[i].bireachable_vertex_id->0,
                    true,
                    back,
                )
                &&& #[trigger] randomizer.follows(world, s.global, there + back, locals)
                &&& locals.first().energy_used == 0
                &&& locals.first().reserves_used == 0
                &&& locals.first().missiles_used == 0
                &&& locals.first().supers_used == 0
                &&& locals.first().power_bombs_used == 0
                &&& randomizer.tells_route(
                    details.obtain_route@ + details.return_route@,
                    s.global,
                    there + back,
                    locals,
                )
                &&& details.obtain_route@.len() == there.len()
                &&& details.return_route@.len() == back.len()
            },
{
    let vertex_id = s.locations[i].bireachable_vertex_id->0;
    let (there, back, going, returning) = choose|
        there: Seq<LinkIdx>,
        back: Seq<LinkIdx>,
        going: Seq<LocalState>,
        returning: Seq<LocalState>,
    |
        {
            &&& may_route(world, (s.debug_data->0).forward, vertex_id, false, there)
            &&& may_route(world, (s.debug_data->0).reverse, vertex_id, true, back)
            &&& #[trigger] randomizer.follows(world, s.global, there, going)
            &&& #[trigger] randomizer.follows(world, s.global, back, returning)
            &&& going.first() == LocalState::fresh()
            &&& returning.first() == going.last()
            &&& randomizer.tells_route(details.obtain_route@, s.global, there, going)
            &&& randomizer.tells_route(details.return_route@, s.global, back, returning)
        };
    law_routes_join(
        randomizer,
        world,
        s.global,
        there,
        back,
        going,
        returning,
        details.obtain_route@,
        details.return_route@,
    );
    let locals = going + returning.skip(1);
    assert(randomizer.follows(world, s.global, there + back, locals));
}

/// The account of an item names the item that lies at the location, and the room and node of the
/// vertex that is remembered for it. What the player owns is told as it was before the step.
pub proof fn law_items_are_told_by_name<W: Traversal>(
    randomizer: Randomizer,
    world: &W,
    s: StateView<W::Trail>,
    t: StateView<W::Trail>,
    i: int,
    details: SpoilerItemDetails,
)
    requires
        randomizer.tells_item(world, s, t, i, details),
    ensures
        ({
            let vertex_id = s.locations[i].bireachable_vertex_id->0;
            let key = randomizer.game_data.vertex_isv.keys@[vertex_id as int];
            &&& details.item@ == (t.locations[i].placed_item->0).label()
            &&& vertex_id < randomizer.game_data.vertex_isv.keys@.len()
            &&& details.location.room@ == randomizer.game_data.room_names.at(key.0)@
            &&& details.location.node@ == randomizer.game_data.node_names.at((key.0, key.1))@
            &&& randomizer.tells_start(details.start_state, s.global)
            &&& details.start_state.max_energy == s.global.max_energy
            &&& details.start_state.max_reserves == s.global.max_reserves
            &&& details.start_state.max_missiles == s.global.max_missiles
            &&& details.start_state.max_supers == s.global.max_supers
            &&& details.start_state.max_power_bombs == s.global.max_power_bombs
            &&& details.start_state.flags@.len() == 0
        }),
{
}

proof fn lemma_held(names: Seq<Seq<char>>, held: Seq<bool>) -> (ids: Seq<int>)
    ensures
        ids.len() == held_names(names, held).len(),
        forall|k: int|
            0 <= k < ids.len() ==> 0 <= #[trigger] ids[k] < names.len() && held[ids[k]]
                && held_names(names, held)[k] == names[ids[k]],
        forall|k: int, l: int| 0 <= k < l < ids.len() ==> ids[k] < ids[l],
        forall|id: int| 0 <= id < names.len() && held[id] ==> ids.contains(id),
    decreases names.len(),
{
    if names.len() == 0 {
        Seq::empty()
    } else {
        let rest = names.drop_last();
        let last = names.len() - 1;
        let ids = lemma_held(rest, held);
        if held[last] {
            let more = ids.push(last);
            assert forall|k: int, l: int| 0 <= k < l < more.len() implies more[k] < more[l] by {
                assert(0 <= ids[k] < rest.len());
            }
            assert forall|id: int| 0 <= id < names.len() && held[id] implies more.contains(id) by {
                if id < last {
                    assert(ids.contains(id));
                    let k = choose|k: int| 0 <= k < ids.len() && ids[k] == id;
                    assert(more[k] == id);
                } else {
                    assert(more[ids.len() as int] == id);
                }
            }
            more
        } else {
            ids
        }
    }
}

/// The account of what the player owns lists the names of the items that are owned, all of them
/// and no others, in the order in which items are numbered.
pub proof fn law_accounts_list_what_is_owned(
    randomizer: Randomizer,
    start: SpoilerStartState,
    global: GlobalView,
)
    requires
        randomizer.tells_start(start, global),
    ensures
        exists|ids: Seq<int>|
            {
                &&& #[trigger] ids.len() == start.items@.len()
                &&& forall|k: int|
                    0 <= k < ids.len() ==> {
                        &&& 0 <= #[trigger] ids[k] < randomizer.game_data.item_isv.keys@.len()
                        &&& global.items[ids[k]]
                        &&& start.items@[k]@ == randomizer.game_data.item_isv.keys@[ids[k]]@
                    }
                &&& forall|k: int, l: int| 0 <= k < l < ids.len() ==> ids[k] < ids[l]
                &&& forall|id: int|
                    0 <= id < randomizer.game_data.item_isv.keys@.len() && global.items[id]
                        ==> ids.contains(id)
            },
        start.max_energy == global.max_energy,
        start.max_reserves == global.max_reserves,
        start.max_missiles == global.max_missiles,
        start.max_supers == global.max_supers,
        start.max_power_bombs == global.max_power_bombs,
        start.flags@.len() == 0,
{
    let names = names_view(randomizer.game_data.item_isv.keys@);
    let ids = lemma_held(names, global.items);
    let told = names_view(start.items@);
    assert(told.len() == start.items@.len());
    assert forall|k: int| 0 <= k < ids.len() implies {
        &&& 0 <= #[trigger] ids[k] < randomizer.game_data.item_isv.keys@.len()
        &&& global.items[ids[k]]
        &&& start.items@[k]@ == randomizer.game_data.item_isv.keys@[ids[k]]@
    } by {
        assert(told[k] == start.items@[k]@);
        assert(names[ids[k]] == randomizer.game_data.item_isv.keys@[ids[k]]@);
    }
    assert(ids.len() == start.items@.len());
}

proof fn lemma_told<W: Traversal>(
    randomizer: Randomizer,
    world: &W,
    s: StateView<W::Trail>,
    t: StateView<W::Trail>,
    n: nat,
    items: Seq<SpoilerItemDetails>,
) -> (places: Seq<int>)
    requires
        randomizer.tells_items(world, s, t, n, items),
    ensures
        places.len() == items.len(),
        forall|k: int|
            0 <= k < places.len() ==> {
                &&& 0 <= #[trigger] places[k] < n
                &&& t.locations[places[k]].placed_item is Some
                &&& s.remaining[(t.locations[places[k]].placed_item->0).id()]
                    == randomizer.initial_items_remaining@[(
                t.locations[places[k]].placed_item->0).id()]
                &&& !s.locations[places[k]].collected
                &&& t.locations[places[k]].collected
                &&& randomizer.tells_item(world, s, t, places[k], items[k])
            },
        forall|k: int, l: int| 0 <= k < l < places.len() ==> places[k] < places[l],
        forall|i: int|
            0 <= i < n && t.locations[i].placed_item is Some && s.remaining[(
            t.locations[i].placed_item->0).id()] == randomizer.initial_items_remaining@[(
            t.locations[i].placed_item->0).id()] && !s.locations[i].collected
                && t.locations[i].collected ==> #[trigger] places.contains(i),
    decreases n,
{
    if n == 0 {
        Seq::empty()
    } else if randomizer.first_found(s, t, n - 1) {
        let places = lemma_told(randomizer, world, s, t, (n - 1) as nat, items.drop_last());
        let more = places.push(n - 1);
        assert forall|k: int| 0 <= k < more.len() implies {
            &&& 0 <= #[trigger] more[k] < n
            &&& t.locations[more[k]].placed_item is Some
            &&& s.remaining[(t.locations[more[k]].placed_item->0).id()]
                == randomizer.initial_items_remaining@[(t.locations[more[k]].placed_item->0).id()]
            &&& !s.locations[more[k]].collected
            &&& t.locations[more[k]].collected
            &&& randomizer.tells_item(world, s, t, more[k], items[k])
        } by {
            if k < places.len() {
                assert(more[k] == places[k]);
                assert(items.drop_last()[k] == items[k]);
            }
        }
        assert forall|k: int, l: int| 0 <= k < l < more.len() implies more[k] < more[l] by {
            assert(0 <= places[k] < n - 1);
        }
        assert forall|i: int|
            0 <= i < n && t.locations[i].placed_item is Some && s.remaining[(
            t.locations[i].placed_item->0).id()] == randomizer.initial_items_remaining@[(
            t.locations[i].placed_item->0).id()] && !s.locations[i].collected
                && t.locations[i].collected implies #[trigger] more.contains(i) by {
            if i < n - 1 {
                assert(places.contains(i));
                let k = choose|k: int| 0 <= k < places.len() && places[k] == i;
                assert(more[k] == i);
            } else {
                assert(more[places.len() as int] == i);
            }
        }
        more
    } else {
        let places = lemma_told(randomizer, world, s, t, (n - 1) as nat, items);
        assert forall|i: int|
            0 <= i < n && t.locations[i].placed_item is Some && s.remaining[(
            t.locations[i].placed_item->0).id()] == randomizer.initial_items_remaining@[(
            t.locations[i].placed_item->0).id()] && !s.locations[i].collected
                && t.locations[i].collected implies #[trigger] places.contains(i) by {
            assert(i != n - 1);
        }
        places
    }
}

/// The account of a step has the number of the step, and tells, in the order of the locations, of
/// the items that were picked up in it and of which no copy had been placed before: of all of
/// them, and of no others.
pub proof fn law_steps_tell_of_first_finds<W: Traversal>(
    randomizer: Randomizer,
    world: &W,
    s: StateView<W::Trail>,
    t: StateView<W::Trail>,
    details: SpoilerDetails,
)
    requires
        randomizer.tells_step(world, s, t, details),
    ensures
        details.step == s.step_num,
        exists|places: Seq<int>|
            {
                &&& #[trigger] places.len() == details.items@.len()
                &&& forall|k: int|
                    0 <= k < places.len() ==> {
                        &&& 0 <= #[trigger] places[k] < randomizer.game_data.item_locations@.len()
                        &&& t.locations[places[k]].placed_item is Some
                        &&& s.remaining[(t.locations[places[k]].placed_item->0).id()]
                            == randomizer.initial_items_remaining@[(
                        t.locations[places[k]].placed_item->0).id()]
                        &&& !s.locations[places[k]].collected
                        &&& t.locations[places[k]].collected
                        &&& randomizer.tells_item(
                            world,
                            s,
                            t,
                            places[k],
                            details.items@[k],
                        )
                    }
                &&& forall|k: int, l: int| 0 <= k < l < places.len() ==> places[k] < places[l]
                &&& forall|i: int|
                    0 <= i < randomizer.game_data.item_locations@.len()
                        && t.locations[i].placed_item is Some && s.remaining[(
                    t.locations[i].placed_item->0).id()] == randomizer.initial_items_remaining@[(
                    t.locations[i].placed_item->0).id()] && !s.locations[i].collected
                        && t.locations[i].collected ==> #[trigger] places.contains(i)
            },
{
    let places = lemma_told(
        randomizer,
        world,
        s,
        t,
        randomizer.game_data.item_locations@.len(),
        details.items@,
    );
    assert(places.len() == details.items@.len());
}

/// An item is blocked from being told for want of a name for its vertex, or because the route
/// there, or the route back from where that one ended, is blocked.
pub proof fn law_blocked_items_have_a_blocked_route<W: Traversal>(
    randomizer: Randomizer,
    world: &W,
    s: StateView<W::Trail>,
    i: int,
)
    requires
        randomizer.item_blocked(world, s, i),
        randomizer.game_data.vertex_named(s.locations[i].bireachable_vertex_id->0 as int),
    ensures
        exists|there: Seq<LinkIdx>|
            {
                &&& #[trigger] may_route(
                    world,
                    (s.debug_data->0).forward,
                    s.locations[i].bireachable_vertex_id->0,
                    false,
                    there,
                )
                &&& {
                    ||| exists|last: LocalState| #[trigger]
                        randomizer.route_blocked(
                            world,
                            s.global,
                            there,
                            LocalState {
                                energy_used: 0,
                                reserves_used: 0,
                                missiles_used: 0,
                                supers_used: 0,
                                power_bombs_used: 0,
                            },
                            last,
                        )
                    ||| exists|going: Seq<LocalState>, back: Seq<LinkIdx>, last: LocalState|
                        {
                            &&& #[trigger] randomizer.follows(world, s.global, there, going)
                            &&& going.first().energy_used == 0
                            &&& going.first().reserves_used == 0
                            &&& going.first().missiles_used == 0
                            &&& going.first().supers_used == 0
                            &&& going.first().power_bombs_used == 0
                            &&& may_route(
                                world,
                                (s.debug_data->0).reverse,
                                s.locations[i].bireachable_vertex_id->0,
                                true,
                                back,
                            )
                            &&& #[trigger] randomizer.route_blocked(
                                world,
                                s.global,
                                back,
                                going.last(),
                                last,
                            )
                        }
                }
            },
{
}

}
