//! What looking at the map is: which questions are put to the model, and what their answers make
//! known of locations and flags. Everything is said of the entries themselves.
use crate::flags::with_flags;
use crate::game_data::{GameData, Link, LinkIdx, Requirement, VertexId, WeaponMask};
use crate::items::Item;
use crate::reachability::{any_left, first_gate};
use crate::state::{Randomizer, StateView};
use crate::traverse::{
    may_apply, may_arm, may_bireach, may_collect, may_route, may_traverse, GlobalState, GlobalView,
    LocalState, Traversal, TraverseResult,
};
use vstd::prelude::*;

verus! {

/// An answer to `traverse` answers a call with these links, this start and this direction, for a
/// player who owns just this.
pub proof fn law_traversals_are_asked_for<W: Traversal>(
    world: &W,
    links: &Vec<Link>,
    global: GlobalView,
    num_vertices: usize,
    start_vertex_id: VertexId,
    reverse: bool,
    game_data: &GameData,
    found: TraverseResult<W::Trail>,
)
    requires
        may_traverse(
            world,
            links,
            global,
            num_vertices,
            start_vertex_id,
            reverse,
            game_data,
            found,
        ),
    ensures
        exists|given: &GlobalState|
            {
                &&& #[trigger] call_ensures(
                    W::traverse,
                    (world, links, given, num_vertices, start_vertex_id, reverse, game_data),
                    found,
                )
                &&& given.tech@ == global.tech
                &&& given.items@ == global.items
                &&& given.flags@ == global.flags
                &&& given.max_energy == global.max_energy
                &&& given.max_reserves == global.max_reserves
                &&& given.max_missiles == global.max_missiles
                &&& given.max_supers == global.max_supers
                &&& given.max_power_bombs == global.max_power_bombs
                &&& given.weapon_mask == global.weapon_mask
                &&& given.shine_charge_tiles == global.shine_charge_tiles
            },
{
}

/// An answer to `is_bireachable` answers a call with these two states, in this order.
pub proof fn law_ways_back_are_asked_for<W: Traversal>(
    world: &W,
    global: GlobalView,
    forward: Option<LocalState>,
    reverse: Option<LocalState>,
    yes: bool,
)
    requires
        may_bireach(world, global, forward, reverse, yes),
    ensures
        exists|given: &GlobalState|
            {
                &&& #[trigger] call_ensures(
                    W::is_bireachable,
                    (world, given, &forward, &reverse),
                    yes,
                )
                &&& given.tech@ == global.tech
                &&& given.items@ == global.items
                &&& given.flags@ == global.flags
                &&& given.max_energy == global.max_energy
                &&& given.max_reserves == global.max_reserves
                &&& given.max_missiles == global.max_missiles
                &&& given.max_supers == global.max_supers
                &&& given.max_power_bombs == global.max_power_bombs
                &&& given.weapon_mask == global.weapon_mask
                &&& given.shine_charge_tiles == global.shine_charge_tiles
            },
{
}

/// An answer to `apply_requirement` answers a call with this requirement, forward.
pub proof fn law_requirements_are_asked_for<W: Traversal>(
    world: &W,
    requirement: Requirement,
    global: GlobalView,
    before: LocalState,
    after: Option<LocalState>,
)
    requires
        may_apply(world, requirement, global, before, after),
    ensures
        exists|given: &GlobalState|
            {
                &&& #[trigger] call_ensures(
                    W::apply_requirement,
                    (world, &requirement, given, before, false),
                    after,
                )
                &&& given.tech@ == global.tech
                &&& given.items@ == global.items
                &&& given.flags@ == global.flags
                &&& given.max_energy == global.max_energy
                &&& given.max_reserves == global.max_reserves
                &&& given.max_missiles == global.max_missiles
                &&& given.max_supers == global.max_supers
                &&& given.max_power_bombs == global.max_power_bombs
                &&& given.weapon_mask == global.weapon_mask
                &&& given.shine_charge_tiles == global.shine_charge_tiles
            },
{
}

/// An answer to `get_spoiler_route` answers a call with this traversal, vertex and direction.
pub proof fn law_routes_are_asked_for<W: Traversal>(
    world: &W,
    traversal: TraverseResult<W::Trail>,
    vertex_id: VertexId,
    reverse: bool,
    links: Seq<LinkIdx>,
)
    requires
        may_route(world, traversal, vertex_id, reverse, links),
    ensures
        exists|found: Vec<LinkIdx>|
            {
                &&& #[trigger] call_ensures(
                    W::get_spoiler_route,
                    (world, &traversal, vertex_id, reverse),
                    found,
                )
                &&& found@ == links
            },
{
}

/// An answer to `collect` answers a call with this item, for a player who owns just `before`, and
/// is read off field by field.
pub proof fn law_pickups_are_asked_for<W: Traversal>(
    world: &W,
    before: GlobalView,
    item: Item,
    game_data: &GameData,
    after: GlobalView,
)
    requires
        may_collect(world, before, item, game_data, after),
    ensures
        exists|given: &GlobalState, found: GlobalState|
            {
                &&& #[trigger] call_ensures(W::collect, (world, given, item, game_data), found)
                &&& given.tech@ == before.tech
                &&& given.items@ == before.items
                &&& given.flags@ == before.flags
                &&& given.max_energy == before.max_energy
                &&& given.max_reserves == before.max_reserves
                &&& given.max_missiles == before.max_missiles
                &&& given.max_supers == before.max_supers
                &&& given.max_power_bombs == before.max_power_bombs
                &&& given.weapon_mask == before.weapon_mask
                &&& given.shine_charge_tiles == before.shine_charge_tiles
                &&& found.tech@ == after.tech
                &&& found.items@ == after.items
                &&& found.flags@ == after.flags
                &&& found.max_energy == after.max_energy
                &&& found.max_reserves == after.max_reserves
                &&& found.max_missiles == after.max_missiles
                &&& found.max_supers == after.max_supers
                &&& found.max_power_bombs == after.max_power_bombs
                &&& found.weapon_mask == after.weapon_mask
                &&& found.shine_charge_tiles == after.shine_charge_tiles
            },
{
}

/// An answer to `get_weapon_mask` answers a call with these items.
pub proof fn law_weapons_are_asked_for<W: Traversal>(
    world: &W,
    items: Seq<bool>,
    game_data: &GameData,
    mask: WeaponMask,
)
    requires
        may_arm(world, items, game_data, mask),
    ensures
        exists|given: &Vec<bool>|
            {
                &&& #[trigger] call_ensures(W::get_weapon_mask, (world, given, game_data), mask)
                &&& given@ == items
            },
{
}

/// Looking at the map asks for a traversal from the landing site in each direction, and for every
/// vertex whether it can be left again, all for what the player owns.
pub proof fn law_looking_asks_the_model<W: Traversal>(
    randomizer: Randomizer,
    world: &W,
    s: StateView<W::Trail>,
    t: StateView<W::Trail>,
)
    requires
        randomizer.game_data.playable(),
        randomizer.updates(world, s, t),
    ensures
        exists|
            forward: TraverseResult<W::Trail>,
            reverse: TraverseResult<W::Trail>,
            bireachable: Seq<bool>,
            start: VertexId,
        |
            {
                let keys = randomizer.game_data.vertex_isv.keys;
                &&& t == #[trigger] randomizer.marked_state(s, forward, reverse, bireachable)
                &&& start < keys@.len()
                &&& (#[trigger] randomizer.game_data.vertex_isv.keys@[start as int]) == (
                    8usize,
                    5usize,
                    0usize,
                )
                &&& forall|k: int| 0 <= k < start ==> keys@[k] != (8usize, 5usize, 0usize)
                &&& may_traverse(
                    world,
                    &randomizer.links,
                    s.global,
                    keys.len(),
                    start,
                    false,
                    randomizer.game_data,
                    forward,
                )
                &&& may_traverse(
                    world,
                    &randomizer.links,
                    s.global,
                    keys.len(),
                    start,
                    true,
                    randomizer.game_data,
                    reverse,
                )
                &&& keys@.len() <= forward.local_states@.len()
                &&& keys@.len() <= reverse.local_states@.len()
                &&& bireachable.len() == keys@.len()
                &&& forall|v: int|
                    0 <= v < keys@.len() ==> may_bireach(
                        world,
                        s.global,
                        forward.local_states@[v],
                        reverse.local_states@[v],
                        #[trigger] bireachable[v],
                    )
            },
{
    let (forward, reverse, bireachable) = choose|
        forward: TraverseResult<W::Trail>,
        reverse: TraverseResult<W::Trail>,
        bireachable: Seq<bool>,
    |
        {
            &&& #[trigger] randomizer.surveyed(world, s.global, forward, reverse, bireachable)
            &&& t == randomizer.marked_state(s, forward, reverse, bireachable)
        };
    let keys = randomizer.game_data.vertex_isv.keys;
    let key = (8usize, 5usize, 0usize);
    keys@.index_of_first_ensures(key);
    let start = keys@.index_of_first(key)->0 as usize;
    assert(keys@[start as int] == key);
    assert(t == randomizer.marked_state(s, forward, reverse, bireachable));
}

/// Looking at the map fails just for want of entries in one of the two traversals.
pub proof fn law_short_traversals_lack_a_vertex<W: Traversal>(
    randomizer: Randomizer,
    world: &W,
    global: GlobalView,
)
    requires
        randomizer.game_data.playable(),
        randomizer.falls_short(world, global),
    ensures
        exists|start: VertexId, reverse: bool, found: TraverseResult<W::Trail>|
            {
                &&& #[trigger] may_traverse(
                    world,
                    &randomizer.links,
                    global,
                    randomizer.game_data.vertex_isv.keys.len(),
                    start,
                    reverse,
                    randomizer.game_data,
                    found,
                )
                &&& start < randomizer.game_data.vertex_isv.keys@.len()
                &&& randomizer.game_data.vertex_isv.keys@[start as int] == (8usize, 5usize, 0usize)
                &&& found.local_states@.len() < randomizer.game_data.vertex_isv.keys@.len()
            },
{
    let (reverse, found) = choose|reverse: bool, found: TraverseResult<W::Trail>|
        {
            &&& #[trigger] randomizer.may_find(world, global, reverse, found)
            &&& found.local_states@.len() < randomizer.game_data.num_vertices()
        };
    let keys = randomizer.game_data.vertex_isv.keys;
    let key = (8usize, 5usize, 0usize);
    keys@.index_of_first_ensures(key);
    let start = keys@.index_of_first(key)->0 as usize;
    assert(may_traverse(
        world,
        &randomizer.links,
        global,
        keys.len(),
        start,
        reverse,
        randomizer.game_data,
        found,
    ));
}

proof fn lemma_gate_index(
    vertices: Seq<VertexId>,
    found: Seq<Option<LocalState>>,
    bireachable: Seq<bool>,
) -> (j: int)
    ensures
        first_gate(vertices, found, bireachable) is Some ==> {
            &&& 0 <= j < vertices.len()
            &&& first_gate(vertices, found, bireachable) == Some(vertices[j])
            &&& found[vertices[j] as int] is Some
            &&& bireachable[vertices[j] as int]
        },
        first_gate(vertices, found, bireachable) is None ==> j == vertices.len(),
        forall|k: int|
            0 <= k < j ==> !(found[#[trigger] vertices[k] as int] is Some
                && bireachable[vertices[k] as int]),
    decreases vertices.len(),
{
    if vertices.len() == 0 {
        0
    } else {
        let rest = vertices.drop_last();
        let j = lemma_gate_index(rest, found, bireachable);
        assert forall|k: int| 0 <= k < j implies !(found[#[trigger] vertices[k] as int] is Some
            && bireachable[vertices[k] as int]) by {
            assert(rest[k] == vertices[k]);
        }
        if first_gate(rest, found, bireachable) is Some {
            j
        } else if found[vertices.last() as int] is Some && bireachable[vertices.last() as int] {
            vertices.len() - 1
        } else {
            vertices.len() as int
        }
    }
}

/// What is known of a location with the given vertices after looking at the map. It can be reached
/// if it could before, or one of its vertices has been reached. It can be left again if it could
/// before, or one of its vertices has been reached and can be left again; the first such vertex is
/// remembered, and never replaced. What lies there, and whether it was picked up, stays.
pub proof fn law_looking_tells_of_locations<T>(
    randomizer: Randomizer,
    s: StateView<T>,
    forward: TraverseResult<T>,
    reverse: TraverseResult<T>,
    bireachable: Seq<bool>,
    i: int,
    vertices: Seq<VertexId>,
)
    requires
        0 <= i < s.locations.len(),
        i < randomizer.game_data.item_vertex_ids@.len() ==> vertices
            == randomizer.game_data.item_vertex_ids@[i]@,
        i >= randomizer.game_data.item_vertex_ids@.len() ==> vertices == Seq::<VertexId>::empty(),
    ensures
        ({
            let t = randomizer.marked_state(s, forward, reverse, bireachable);
            let found = forward.local_states@;
            let before = s.locations[i];
            let after = t.locations[i];
            &&& t.locations.len() == s.locations.len()
            &&& after.placed_item == before.placed_item
            &&& after.collected == before.collected
            &&& after.reachable <==> before.reachable || exists|j: int|
                0 <= j < vertices.len() && found[#[trigger] vertices[j] as int] is Some
            &&& after.bireachable <==> before.bireachable || exists|j: int|
                0 <= j < vertices.len() && found[#[trigger] vertices[j] as int] is Some
                    && bireachable[vertices[j] as int]
            &&& before.bireachable || !after.bireachable ==> after.bireachable_vertex_id
                == before.bireachable_vertex_id
            &&& !before.bireachable && after.bireachable ==> exists|j: int|
                {
                    &&& 0 <= j < vertices.len()
                    &&& after.bireachable_vertex_id == Some(#[trigger] vertices[j])
                    &&& found[vertices[j] as int] is Some
                    &&& bireachable[vertices[j] as int]
                    &&& forall|k: int|
                        0 <= k < j ==> !(found[#[trigger] vertices[k] as int] is Some
                            && bireachable[vertices[k] as int])
                }
        }),
{
    let j = lemma_gate_index(vertices, forward.local_states@, bireachable);
}

/// What is known of a flag with the given vertices after looking at the map: it can be reached and
/// left again if it could before, or any one of its vertices can.
pub proof fn law_looking_tells_of_flags<T>(
    randomizer: Randomizer,
    s: StateView<T>,
    forward: TraverseResult<T>,
    reverse: TraverseResult<T>,
    bireachable: Seq<bool>,
    i: int,
    vertices: Seq<VertexId>,
)
    requires
        0 <= i < s.flag_bireachable.len(),
        i < randomizer.game_data.flag_vertex_ids@.len() ==> vertices
            == randomizer.game_data.flag_vertex_ids@[i]@,
        i >= randomizer.game_data.flag_vertex_ids@.len() ==> vertices == Seq::<VertexId>::empty(),
    ensures
        ({
            let t = randomizer.marked_state(s, forward, reverse, bireachable);
            &&& t.flag_bireachable.len() == s.flag_bireachable.len()
            &&& s.flag_bireachable[i] ==> t.flag_bireachable[i]
            &&& forall|j: int|
                0 <= j < vertices.len() && bireachable[#[trigger] vertices[j] as int]
                    ==> t.flag_bireachable[i]
            &&& t.flag_bireachable[i] && !s.flag_bireachable[i] ==> exists|j: int|
                0 <= j < vertices.len() && bireachable[#[trigger] vertices[j] as int]
        }),
{
    assert(any_left(vertices, bireachable) <==> exists|j: int|
        0 <= j < vertices.len() && bireachable[#[trigger] vertices[j] as int]);
}

/// Looking at the map keeps the two traversals, and changes nothing but what is known of
/// locations and flags.
pub proof fn law_looking_changes_nothing_else<T>(
    randomizer: Randomizer,
    s: StateView<T>,
    forward: TraverseResult<T>,
    reverse: TraverseResult<T>,
    bireachable: Seq<bool>,
)
    ensures
        ({
            let t = randomizer.marked_state(s, forward, reverse, bireachable);
            &&& t.debug_data matches Some(data) && data.forward == forward && data.reverse
                == reverse
            &&& t.step_num == s.step_num
            &&& t.item_precedence == s.item_precedence
            &&& t.remaining == s.remaining
            &&& t.global == s.global
            &&& t.done == s.done
        }),
{
}

/// The flags that a state acquires: those that are set, and those of the locations that can be
/// reached and left again.
pub proof fn law_flags_are_acquired<T>(randomizer: Randomizer, s: StateView<T>, flag: int)
    requires
        0 <= flag < s.global.flags.len(),
    ensures
        randomizer.flags_acquired(s).len() == s.global.flags.len(),
        randomizer.flags_acquired(s)[flag] <==> s.global.flags[flag] || exists|i: int|
            0 <= i < s.flag_bireachable.len() && s.flag_bireachable[i] && (
            #[trigger] randomizer.game_data.flag_locations@[i]).2 == flag,
{
}

proof fn lemma_rounds<W: Traversal>(
    randomizer: Randomizer,
    world: &W,
    rounds: Seq<StateView<W::Trail>>,
    n: int,
)
    requires
        randomizer.valid(),
        randomizer.state_ok(rounds[0]),
        randomizer.flag_rounds(world, rounds),
        0 <= n < rounds.len(),
    ensures
        randomizer.state_ok(rounds[n]),
        n > 0 ==> exists|u: StateView<W::Trail>|
            u.global == rounds[n].global && #[trigger] randomizer.updates(world, u, rounds[n]),
        forall|flag: int|
            0 <= flag < rounds[n].global.flags.len() && rounds[n].global.flags[flag]
                && !rounds[0].global.flags[flag] ==> exists|i: int|
                0 <= i < rounds[n].flag_bireachable.len() && rounds[n].flag_bireachable[i] && (
                #[trigger] randomizer.game_data.flag_locations@[i]).2 == flag,
    decreases n,
{
    if n > 0 {
        lemma_rounds(randomizer, world, rounds, n - 1);
        let before = rounds[n - 1];
        let flagged = with_flags(before, randomizer.flags_acquired(before));
        assert(randomizer.updates(world, flagged, rounds[n - 1 + 1]));
        assert(randomizer.state_ok(flagged));
        randomizer.lemma_updates(world, flagged, rounds[n]);
        assert forall|flag: int|
            0 <= flag < rounds[n].global.flags.len() && rounds[n].global.flags[flag]
                && !rounds[0].global.flags[flag] implies exists|i: int|
            0 <= i < rounds[n].flag_bireachable.len() && rounds[n].flag_bireachable[i] && (
            #[trigger] randomizer.game_data.flag_locations@[i]).2 == flag by {
            let i = choose|i: int|
                0 <= i < before.flag_bireachable.len() && before.flag_bireachable[i] && (
                #[trigger] randomizer.game_data.flag_locations@[i]).2 == flag;
            assert(flagged.flag_bireachable[i]);
            assert(rounds[n].flag_bireachable[i]);
        }
    }
}

/// Once flags have settled: the flags that were set stay set. A flag is new just when one of its
/// locations can be reached and left again. With new flags the map has been looked at once more.
/// Nothing else changes but what is known of locations and flags, and none of that is taken back.
pub proof fn law_settling_sets_flags<W: Traversal>(
    randomizer: Randomizer,
    world: &W,
    s: StateView<W::Trail>,
    t: StateView<W::Trail>,
)
    requires
        randomizer.valid(),
        randomizer.state_ok(s),
        randomizer.settles(world, s, t),
    ensures
        t.global.flags.len() == s.global.flags.len(),
        forall|flag: int|
            0 <= flag < t.global.flags.len() ==> (#[trigger] t.global.flags[flag] <==> (
            s.global.flags[flag] || exists|i: int|
                0 <= i < t.flag_bireachable.len() && t.flag_bireachable[i] && (
                #[trigger] randomizer.game_data.flag_locations@[i]).2 == flag)),
        t.global.flags != s.global.flags ==> exists|u: StateView<W::Trail>|
            u.global == t.global && #[trigger] randomizer.updates(world, u, t),
        t.global.flags == s.global.flags ==> t == s,
        t.step_num == s.step_num,
        t.item_precedence == s.item_precedence,
        t.remaining == s.remaining,
        t.done == s.done,
        t.global.tech == s.global.tech,
        t.global.items == s.global.items,
        t.global.max_energy == s.global.max_energy,
        t.global.max_reserves == s.global.max_reserves,
        t.global.max_missiles == s.global.max_missiles,
        t.global.max_supers == s.global.max_supers,
        t.global.max_power_bombs == s.global.max_power_bombs,
        t.global.weapon_mask == s.global.weapon_mask,
        t.global.shine_charge_tiles == s.global.shine_charge_tiles,
        t.locations.len() == s.locations.len(),
        forall|i: int|
            0 <= i < s.locations.len() ==> {
                let before = s.locations[i];
                let after = #[trigger] t.locations[i];
                &&& after.placed_item == before.placed_item
                &&& after.collected == before.collected
                &&& before.reachable ==> after.reachable
                &&& before.bireachable ==> after.bireachable && after.bireachable_vertex_id
                    == before.bireachable_vertex_id
            },
{
    randomizer.lemma_settles(world, s, t);
    let rounds = choose|rounds: Seq<StateView<W::Trail>>|
        {
            &&& #[trigger] randomizer.flag_rounds(world, rounds)
            &&& rounds.first() == s
            &&& rounds.last() == t
            &&& randomizer.flags_acquired(t) == t.global.flags
        };
    lemma_rounds(randomizer, world, rounds, rounds.len() - 1);
    assert forall|flag: int| 0 <= flag < t.global.flags.len() implies (
    #[trigger] t.global.flags[flag] <==> (s.global.flags[flag] || exists|i: int|
        0 <= i < t.flag_bireachable.len() && t.flag_bireachable[i] && (
        #[trigger] randomizer.game_data.flag_locations@[i]).2 == flag)) by {
        assert(randomizer.flags_acquired(t)[flag] == t.global.flags[flag]);
    }
    if rounds.len() > 1 {
        let acquired = randomizer.flags_acquired(rounds[0]);
        assert(acquired != rounds[0].global.flags);
        let flag = lemma_differ(acquired, rounds[0].global.flags);
        let flagged = with_flags(rounds[0], acquired);
        assert(randomizer.updates(world, flagged, rounds[0int + 1]));
        assert(randomizer.state_ok(flagged));
        randomizer.lemma_updates(world, flagged, rounds[1]);
        lemma_flags_kept(randomizer, world, rounds, 1, rounds.len() - 1, flag);
    }
}

proof fn lemma_differ(a: Seq<bool>, b: Seq<bool>) -> (i: int)
    requires
        a.len() == b.len(),
        a != b,
    ensures
        0 <= i < a.len(),
        a[i] != b[i],
{
    if forall|i: int| 0 <= i < a.len() ==> a[i] == b[i] {
        assert(a =~= b);
    }
    choose|i: int| 0 <= i < a.len() && a[i] != b[i]
}

proof fn lemma_flags_kept<W: Traversal>(
    randomizer: Randomizer,
    world: &W,
    rounds: Seq<StateView<W::Trail>>,
    m: int,
    n: int,
    flag: int,
)
    requires
        randomizer.valid(),
        randomizer.state_ok(rounds[0]),
        randomizer.flag_rounds(world, rounds),
        0 <= m <= n < rounds.len(),
        0 <= flag < rounds[m].global.flags.len(),
        rounds[m].global.flags[flag],
    ensures
        0 <= flag < rounds[n].global.flags.len(),
        rounds[n].global.flags[flag],
    decreases n,
{
    if m < n {
        lemma_flags_kept(randomizer, world, rounds, m, n - 1, flag);
        lemma_rounds(randomizer, world, rounds, n - 1);
        let before = rounds[n - 1];
        let flagged = with_flags(before, randomizer.flags_acquired(before));
        assert(randomizer.updates(world, flagged, rounds[n - 1 + 1]));
        assert(randomizer.state_ok(flagged));
        randomizer.lemma_updates(world, flagged, rounds[n]);
    }
}

}
