//! What placing items is: how a map is prepared, how an attempt starts, what a step does to the
//! locations, and what comes out at the end. Everything is said of the entries themselves.
use crate::counting::occurrences;
use crate::doors::all_links;
use crate::draws::StepDraw;
use crate::filling::{law_progress_counts_locations, law_rest_goes_by_number};
use crate::flags::with_flags;
use crate::game_data::{
    names_view, Door, GameData, IndexedVec, ItemLocationId, Requirement, Table,
};
use crate::items::{all_items, lemma_item_ids, Item};
use crate::laws::{law_attempts_stay_on_track, law_every_copy_is_placed, law_remaining_copies_fit};
use crate::outside::may_shuffle;
use crate::placement::lemma_full_stock_len;
use crate::randomize::{lemma_initial_total, progress_of};
use crate::state::{
    initial_counts, Attempt, Failure, ItemLocationState, Randomization, Randomizer, SpoilerDetails,
    StateView,
};
use crate::traverse::{may_arm, GlobalView, Traversal};
use rand::rngs::StdRng;
use vstd::prelude::*;

verus! {

/// The number of each item.
pub proof fn law_items_are_numbered()
    ensures
        Item::ETank.id() == 0,
        Item::Missile.id() == 1,
        Item::Super.id() == 2,
        Item::PowerBomb.id() == 3,
        Item::Bombs.id() == 4,
        Item::Charge.id() == 5,
        Item::Ice.id() == 6,
        Item::HiJump.id() == 7,
        Item::SpeedBooster.id() == 8,
        Item::Wave.id() == 9,
        Item::Spazer.id() == 10,
        Item::SpringBall.id() == 11,
        Item::Varia.id() == 12,
        Item::Gravity.id() == 13,
        Item::XRayScope.id() == 14,
        Item::Plasma.id() == 15,
        Item::Grapple.id() == 16,
        Item::SpaceJump.id() == 17,
        Item::ScrewAttack.id() == 18,
        Item::Morph.id() == 19,
        Item::ReserveTank.id() == 20,
{
}

/// The name of each item.
pub proof fn law_items_are_named()
    ensures
        Item::ETank.label() == "ETank"@,
        Item::Missile.label() == "Missile"@,
        Item::Super.label() == "Super"@,
        Item::PowerBomb.label() == "PowerBomb"@,
        Item::Bombs.label() == "Bombs"@,
        Item::Charge.label() == "Charge"@,
        Item::Ice.label() == "Ice"@,
        Item::HiJump.label() == "HiJump"@,
        Item::SpeedBooster.label() == "SpeedBooster"@,
        Item::Wave.label() == "Wave"@,
        Item::Spazer.label() == "Spazer"@,
        Item::SpringBall.label() == "SpringBall"@,
        Item::Varia.label() == "Varia"@,
        Item::Gravity.label() == "Gravity"@,
        Item::XRayScope.label() == "XRayScope"@,
        Item::Plasma.label() == "Plasma"@,
        Item::Grapple.label() == "Grapple"@,
        Item::SpaceJump.label() == "SpaceJump"@,
        Item::ScrewAttack.label() == "ScrewAttack"@,
        Item::Morph.label() == "Morph"@,
        Item::ReserveTank.label() == "ReserveTank"@,
{
}

/// The list of all items has each at the place of its number.
pub proof fn law_all_items_are_listed(item: Item)
    ensures
        all_items().len() == 21,
        0 <= item.id() < 21,
        all_items()[item.id()] == item,
{
    lemma_item_ids(item);
}

/// A table gives for a key that it has the value of the first entry with that key.
pub proof fn law_tables_give_the_first_entry<K, V>(table: Table<K, V>, key: K)
    ensures
        table.has(key) <==> exists|e: int|
            0 <= e < table.entries@.len() && (#[trigger] table.entries@[e]).0 == key,
        table.has(key) ==> exists|e: int|
            {
                &&& 0 <= e < table.entries@.len()
                &&& (#[trigger] table.entries@[e]).0 == key
                &&& table.entries@[e].1 == table.at(key)
                &&& forall|k: int| 0 <= k < e ==> (#[trigger] table.entries@[k]).0 != key
            },
{
    let keys = table.key_list();
    if exists|e: int| 0 <= e < table.entries@.len() && (#[trigger] table.entries@[e]).0 == key {
        let e = choose|e: int|
            0 <= e < table.entries@.len() && (#[trigger] table.entries@[e]).0 == key;
        assert(keys[e] == key);
    }
    if table.has(key) {
        keys.index_of_first_ensures(key);
        let e = keys.index_of_first(key)->0;
        assert(keys[e] == key);
        assert(table.entries@[e].0 == key);
        assert forall|k: int| 0 <= k < e implies (#[trigger] table.entries@[k]).0 != key by {
            assert(keys[k] != key);
        }
    }
}

/// The position of a listed key is the first at which it is listed.
pub proof fn law_keys_are_found_first<T>(list: IndexedVec<T>, key: T)
    requires
        list.keys@.len() <= usize::MAX,
    ensures
        list.has(key) <==> exists|i: int| 0 <= i < list.keys@.len() && list.keys@[i] == key,
        list.has(key) ==> {
            &&& list.position(key) < list.keys@.len()
            &&& list.keys@[list.position(key) as int] == key
            &&& forall|k: int| 0 <= k < list.position(key) ==> list.keys@[k] != key
        },
{
    if list.has(key) {
        list.keys@.index_of_first_ensures(key);
    }
}

/// The links of a prepared map: first those of the game, then those through the doors, which are
/// free. One more door adds links at the end: out of every state of the obstacles on its first
/// side into the second side with no obstacle cleared, and if it can be passed both ways the same
/// with the sides exchanged. No others are added.
pub proof fn law_doors_add_links(
    game_data: GameData,
    doors: Seq<Door>,
    door: Door,
    i: int,
)
    requires
        game_data.vertex_isv.keys@.len() <= usize::MAX,
        game_data.door_mapped(door),
        0 <= i < all_links(game_data, doors.push(door)).len(),
    ensures
        ({
            let before = all_links(game_data, doors);
            let after = all_links(game_data, doors.push(door));
            let keys = game_data.vertex_isv.keys@;
            let src = game_data.door_ptr_pair_map.at(door.0);
            let dst = game_data.door_ptr_pair_map.at(door.1);
            let out = (1usize << game_data.room_num_obstacles.at(src.0)) as int;
            let back = if door.2 {
                (1usize << game_data.room_num_obstacles.at(dst.0)) as int
            } else {
                0
            };
            let n = i - before.len();
            let link = after[i];
            &&& all_links(game_data, Seq::empty()).len() == game_data.links@.len()
            &&& after.len() == before.len() + out + back
            &&& n < 0 ==> link == before[i]
            &&& n >= 0 ==> link.requirement == Requirement::Free && link.strat_name
                == "(Door transition)"@
            &&& 0 <= n < out ==> keys[link.from_vertex_id as int] == (src.0, src.1, n as usize)
                && keys[link.to_vertex_id as int] == (dst.0, dst.1, 0usize)
            &&& out <= n ==> keys[link.from_vertex_id as int] == (dst.0, dst.1, (n - out) as usize)
                && keys[link.to_vertex_id as int] == (src.0, src.1, 0usize)
        }),
{
    let before = all_links(game_data, doors);
    let after = all_links(game_data, doors.push(door));
    let keys = game_data.vertex_isv.keys@;
    let src = game_data.door_ptr_pair_map.at(door.0);
    let dst = game_data.door_ptr_pair_map.at(door.1);
    assert(doors.push(door).drop_last() =~= doors);
    let n = i - before.len();
    let out = game_data.num_masks(src.0) as int;
    if 0 <= n < out {
        let mask = n as usize;
        assert(game_data.vertex_isv.has((src.0, src.1, mask)));
        keys.index_of_first_ensures((src.0, src.1, mask));
        keys.index_of_first_ensures((dst.0, dst.1, 0usize));
        assert(game_data.door_edges(door)[n] == game_data.passage(src, dst)[n]);
    } else if n >= out {
        let mask = (n - out) as usize;
        assert(game_data.vertex_isv.has((dst.0, dst.1, mask)));
        keys.index_of_first_ensures((dst.0, dst.1, mask));
        keys.index_of_first_ensures((src.0, src.1, 0usize));
        assert(game_data.door_edges(door)[n] == game_data.passage(dst, src)[n - out]);
    }
}

/// The links of the game come first, as they are.
pub proof fn law_links_of_the_game_come_first(game_data: GameData, doors: Seq<Door>, i: int)
    requires
        0 <= i < game_data.links@.len(),
    ensures
        ({
            let link = all_links(game_data, doors)[i];
            let given = game_data.links@[i];
            &&& i < all_links(game_data, doors).len()
            &&& link.from_vertex_id == given.from_vertex_id
            &&& link.to_vertex_id == given.to_vertex_id
            &&& link.requirement == given.requirement
            &&& link.strat_name == given.strat_name@
        }),
{
}

/// How often each item occurs.
pub proof fn law_items_occur_so_often(randomizer: Randomizer, item: Item)
    requires
        randomizer.valid(),
    ensures
        randomizer.initial_items_remaining@.len() == 21,
        randomizer.initial_items_remaining@[item.id()] == match item {
            Item::Missile => 46usize,
            Item::Super => 10usize,
            Item::PowerBomb => 10usize,
            Item::ETank => 14usize,
            Item::ReserveTank => 4usize,
            _ => 1usize,
        },
{
    lemma_item_ids(item);
}

/// The state in which an attempt starts.
pub proof fn law_attempts_start_with_nothing<T>(
    randomizer: Randomizer,
    item_precedence: Seq<Item>,
    weapon_mask: usize,
)
    ensures
        ({
            let s = randomizer.initial_state::<T>(item_precedence, weapon_mask);
            let game_data = randomizer.game_data;
            &&& s.step_num == 1
            &&& s.item_precedence == item_precedence
            &&& s.remaining == randomizer.initial_items_remaining@
            &&& !s.done
            &&& s.debug_data is None
            &&& s.locations.len() == game_data.item_locations@.len()
            &&& forall|i: int|
                0 <= i < s.locations.len() ==> {
                    let location = #[trigger] s.locations[i];
                    &&& location.placed_item is None
                    &&& !location.collected
                    &&& !location.reachable
                    &&& !location.bireachable
                    &&& location.bireachable_vertex_id is None
                }
            &&& s.flag_bireachable.len() == game_data.flag_locations@.len()
            &&& forall|i: int|
                0 <= i < s.flag_bireachable.len() ==> !#[trigger] s.flag_bireachable[i]
            &&& s.global.items.len() == game_data.item_isv.keys@.len()
            &&& forall|id: int| 0 <= id < s.global.items.len() ==> !#[trigger] s.global.items[id]
            &&& s.global.max_energy == 99
            &&& s.global.max_reserves == 0
            &&& s.global.max_missiles == 0
            &&& s.global.max_supers == 0
            &&& s.global.max_power_bombs == 0
            &&& s.global.weapon_mask == weapon_mask
            &&& s.global.shine_charge_tiles == randomizer.difficulty.shine_charge_tiles
        }),
{
}

/// A technique is available at the start just when the difficulty lists it by name.
pub proof fn law_techniques_go_by_difficulty<T>(
    randomizer: Randomizer,
    item_precedence: Seq<Item>,
    weapon_mask: usize,
    i: int,
)
    requires
        0 <= i < randomizer.game_data.tech_isv.keys@.len(),
    ensures
        ({
            let tech = randomizer.initial_state::<T>(item_precedence, weapon_mask).global.tech;
            &&& tech.len() == randomizer.game_data.tech_isv.keys@.len()
            &&& tech[i] <==> exists|j: int|
                0 <= j < randomizer.difficulty.tech@.len() && (
                #[trigger] randomizer.difficulty.tech@[j])@
                    == randomizer.game_data.tech_isv.keys@[i]@
        }),
{
    let listed = names_view(randomizer.difficulty.tech@);
    let name = randomizer.game_data.tech_isv.keys@[i]@;
    if exists|j: int|
        0 <= j < randomizer.difficulty.tech@.len() && (#[trigger] randomizer.difficulty.tech@[j])@
            == name {
        let j = choose|j: int|
            0 <= j < randomizer.difficulty.tech@.len() && (
            #[trigger] randomizer.difficulty.tech@[j])@ == name;
        assert(listed[j] == name);
    }
    if listed.contains(name) {
        let j = choose|j: int| 0 <= j < listed.len() && listed[j] == name;
        assert(randomizer.difficulty.tech@[j]@ == name);
    }
}

/// Of the flags just the first is set at the start that lets the player into Tourian.
pub proof fn law_tourian_is_open_at_the_start<T>(
    randomizer: Randomizer,
    item_precedence: Seq<Item>,
    weapon_mask: usize,
    flag: int,
)
    requires
        0 <= flag < randomizer.game_data.flag_isv.keys@.len(),
        exists|k: int|
            0 <= k < randomizer.game_data.flag_isv.keys@.len() && (
            #[trigger] randomizer.game_data.flag_isv.keys@[k])@ == "f_TourianOpen"@,
    ensures
        ({
            let flags = randomizer.initial_state::<T>(item_precedence, weapon_mask).global.flags;
            let names = randomizer.game_data.flag_isv.keys@;
            &&& flags.len() == names.len()
            &&& flags[flag] <==> names[flag]@ == "f_TourianOpen"@ && forall|k: int|
                0 <= k < flag ==> (#[trigger] names[k])@ != "f_TourianOpen"@
        }),
{
    let names = names_view(randomizer.game_data.flag_isv.keys@);
    let name = "f_TourianOpen"@;
    let k = choose|k: int|
        0 <= k < randomizer.game_data.flag_isv.keys@.len() && (
        #[trigger] randomizer.game_data.flag_isv.keys@[k])@ == name;
    assert(names[k] == name);
    names.index_of_first_ensures(name);
    let first = names.index_of_first(name)->0;
    assert(names[first] == name);
    assert(randomizer.game_data.flag_isv.keys@[first]@ == name);
    if names[flag] == name && (forall|k: int|
        0 <= k < flag ==> (#[trigger] randomizer.game_data.flag_isv.keys@[k])@ != name) {
        if first < flag {
            assert(randomizer.game_data.flag_isv.keys@[first]@ != name);
        }
    }
    assert forall|k: int| 0 <= k < first implies (
    #[trigger] randomizer.game_data.flag_isv.keys@[k])@ != name by {
        assert(names[k] != name);
    }
}

/// The order of precedence of an attempt is drawn with the generator from the list of all items,
/// before anything else is drawn, and stays the same over all steps.
pub proof fn law_precedence_is_drawn<W: Traversal>(
    randomizer: Randomizer,
    world: &W,
    rng: StdRng,
    states: Seq<StateView<W::Trail>>,
    details: Seq<SpoilerDetails>,
    rngs: Seq<StdRng>,
    n: int,
)
    requires
        randomizer.valid(),
        randomizer.runs_from(world, rng, states, details, rngs),
        0 <= n < states.len(),
    ensures
        may_shuffle(all_items(), rng, states[0].item_precedence, rngs[0]),
        states[n].item_precedence == states[0].item_precedence,
    decreases n,
{
    if n == 0 {
        lemma_start_is_drawn(randomizer, world, rng, states[0], rngs[0]);
    } else {
        law_precedence_is_drawn(randomizer, world, rng, states, details, rngs, n - 1);
        randomizer.lemma_runs_from_are_runs(world, rng, states, details, rngs);
        law_attempts_stay_on_track(randomizer, world, states, details, n - 1);
        assert(randomizer.steps_on(world, states[n - 1], states[n - 1 + 1], details[n - 1]));
        let t = StateView { step_num: states[n - 1].step_num, ..states[n] };
        lemma_initial_total();
        randomizer.lemma_may_step(world, states[n - 1]);
        lemma_precedence_stays(randomizer, world, states[n - 1], t, details[n - 1]);
    }
}

proof fn lemma_start_is_drawn<W: Traversal>(
    randomizer: Randomizer,
    world: &W,
    rng: StdRng,
    s: StateView<W::Trail>,
    next: StdRng,
)
    requires
        randomizer.starts_from(world, rng, s, next),
    ensures
        may_shuffle(all_items(), rng, s.item_precedence, next),
        s.step_num == 1,
        s.remaining == randomizer.initial_items_remaining@,
        !s.done,
        s.global.items == randomizer.no_items(),
        exists|weapon_mask: usize|
            {
                &&& #[trigger] may_arm(
                    world,
                    randomizer.no_items(),
                    randomizer.game_data,
                    weapon_mask,
                )
                &&& randomizer.updates(
                    world,
                    randomizer.initial_state(s.item_precedence, weapon_mask),
                    s,
                )
            },
{
    let order = choose|order: Seq<Item>|
        {
            &&& #[trigger] may_shuffle(all_items(), rng, order, next)
            &&& randomizer.starts_as_drawn(world, order, s)
        };
    let mask = choose|mask: usize|
        {
            &&& #[trigger] randomizer.may_start(world, order, mask)
            &&& randomizer.updates(world, randomizer.initial_state(order, mask), s)
        };
    assert(s.item_precedence == order);
    assert(may_arm(world, randomizer.no_items(), randomizer.game_data, mask));
}

proof fn lemma_precedence_stays<W: Traversal>(
    randomizer: Randomizer,
    world: &W,
    s: StateView<W::Trail>,
    t: StateView<W::Trail>,
    details: SpoilerDetails,
)
    requires
        randomizer.valid(),
        randomizer.may_step(world, s),
        randomizer.steps(world, s, t, details),
    ensures
        t.item_precedence == s.item_precedence,
{
    let (settled, bireachable, oneway, tries) = choose|
        settled: StateView<W::Trail>,
        bireachable: Seq<ItemLocationId>,
        oneway: Seq<ItemLocationId>,
        tries: Seq<StateView<W::Trail>>,
    | #[trigger]
        randomizer.steps_by(world, s, settled, bireachable, oneway, tries, t, details);
    randomizer.lemma_settled(world, s, settled);
    let p = choose|p: StateView<W::Trail>|
        {
            &&& #[trigger] randomizer.tries_items(
                world,
                settled,
                bireachable,
                oneway,
                tries.len() as int,
                p,
            )
            &&& randomizer.concludes(world, p, t)
        };
    assert(p.item_precedence == settled.item_precedence);
}

/// Whatever comes of an attempt, the order of precedence was drawn first, from the list of all
/// items with the generator as it was, and the first state has that order. It is the state that
/// the first look at the map makes of the initial one, for the weapons of a player without items.
pub proof fn law_every_attempt_draws_a_precedence<W: Traversal>(
    randomizer: Randomizer,
    world: &W,
    rng: StdRng,
    attempt: Attempt,
    next: StdRng,
)
    requires
        randomizer.valid(),
        randomizer.may_come_out_from(world, rng, attempt, next),
    ensures
        exists|order: Seq<Item>, between: StdRng|
            {
                &&& #[trigger] may_shuffle(all_items(), rng, order, between)
                &&& match attempt.outcome {
                    Ok(randomization) => exists|
                        states: Seq<StateView<W::Trail>>,
                        rngs: Seq<StdRng>,
                    |
                        {
                            &&& #[trigger] randomizer.runs_from(
                                world,
                                rng,
                                states,
                                randomization.spoiler_log.details@,
                                rngs,
                            )
                            &&& states[0].item_precedence == order
                            &&& rngs[0] == between
                            &&& rngs.last() == next
                            &&& randomizer.produces(world, states, randomization)
                        },
                    Err(Failure::NoBireachableLocation) => between == next && exists|
                        s: StateView<W::Trail>,
                    |
                        {
                            &&& #[trigger] randomizer.starts_from(world, rng, s, next)
                            &&& s.item_precedence == order
                            &&& forall|i: int|
                                0 <= i < s.locations.len()
                                    ==> !(#[trigger] s.locations[i]).bireachable
                        },
                    Err(failure) => {
                        ||| failure == Failure::TraversalTooShort && between == next
                        ||| exists|
                            states: Seq<StateView<W::Trail>>,
                            details: Seq<SpoilerDetails>,
                            rngs: Seq<StdRng>,
                        |
                            {
                                &&& #[trigger] randomizer.runs_from(
                                    world,
                                    rng,
                                    states,
                                    details,
                                    rngs,
                                )
                                &&& states[0].item_precedence == order
                                &&& rngs[0] == between
                                &&& randomizer.step_fails_from(
                                    world,
                                    states.last(),
                                    rngs.last(),
                                    failure,
                                    next,
                                )
                            }
                    },
                }
            },
{
    match attempt.outcome {
        Ok(randomization) => {
            let details = randomization.spoiler_log.details@;
            let (states, rngs) = choose|states: Seq<StateView<W::Trail>>, rngs: Seq<StdRng>|
                {
                    &&& #[trigger] randomizer.runs_from(world, rng, states, details, rngs)
                    &&& rngs.last() == next
                    &&& randomizer.produces(world, states, randomization)
                    &&& randomizer.tells_progress(states, attempt.progress@)
                    &&& attempt.progress@.len() == states.len() - 1
                };
            law_precedence_is_drawn(randomizer, world, rng, states, details, rngs, 0);
            assert(may_shuffle(all_items(), rng, states[0].item_precedence, rngs[0]));
        },
        Err(Failure::NoBireachableLocation) => {
            let s = choose|s: StateView<W::Trail>| #[trigger]
                randomizer.starts_from(world, rng, s, next) && !randomizer.any_bireachable(s);
            lemma_start_is_drawn(randomizer, world, rng, s, next);
            assert(may_shuffle(all_items(), rng, s.item_precedence, next));
        },
        Err(failure) => {
            if failure == Failure::TraversalTooShort && randomizer.start_fails_from(
                world,
                rng,
                next,
            ) && attempt.progress@.len() == 0 {
                let order = choose|order: Seq<Item>|
                    {
                        &&& #[trigger] may_shuffle(all_items(), rng, order, next)
                        &&& randomizer.start_fails_as_drawn(world, order)
                    };
                assert(may_shuffle(all_items(), rng, order, next));
            } else {
                let (states, details, rngs) = choose|
                    states: Seq<StateView<W::Trail>>,
                    details: Seq<SpoilerDetails>,
                    rngs: Seq<StdRng>,
                |
                    {
                        &&& #[trigger] randomizer.run_fails_from(
                            world,
                            rng,
                            states,
                            details,
                            rngs,
                            failure,
                            next,
                        )
                        &&& randomizer.tells_progress(states, attempt.progress@)
                        &&& attempt.progress@.len() == states.len()
                    };
                law_precedence_is_drawn(randomizer, world, rng, states, details, rngs, 0);
                assert(may_shuffle(all_items(), rng, states[0].item_precedence, rngs[0]));
            }
        },
    }
}

/// An attempt starts from the initial state, with the weapons of a player who owns nothing, by a
/// first look at the map.
pub proof fn law_attempts_start_by_looking<W: Traversal>(
    randomizer: Randomizer,
    world: &W,
    rng: StdRng,
    s: StateView<W::Trail>,
    next: StdRng,
)
    requires
        randomizer.starts_from(world, rng, s, next),
    ensures
        may_shuffle(all_items(), rng, s.item_precedence, next),
        exists|items: Seq<bool>, weapon_mask: usize|
            {
                &&& #[trigger] may_arm(world, items, randomizer.game_data, weapon_mask)
                &&& items.len() == randomizer.game_data.item_isv.keys@.len()
                &&& forall|id: int| 0 <= id < items.len() ==> !#[trigger] items[id]
                &&& randomizer.updates(
                    world,
                    randomizer.initial_state(s.item_precedence, weapon_mask),
                    s,
                )
            },
{
    lemma_start_is_drawn(randomizer, world, rng, s, next);
    let weapon_mask = choose|weapon_mask: usize|
        {
            &&& #[trigger] may_arm(
                world,
                randomizer.no_items(),
                randomizer.game_data,
                weapon_mask,
            )
            &&& randomizer.updates(
                world,
                randomizer.initial_state(s.item_precedence, weapon_mask),
                s,
            )
        };
    assert(may_arm(world, randomizer.no_items(), randomizer.game_data, weapon_mask));
}

/// The steps of an attempt follow each other. The first state has a location that can be reached
/// and left again. A step starts from a state that is not the last, with the generator as the step
/// before has left it, and has the number after that of the step before.
pub proof fn law_steps_follow_each_other<W: Traversal>(
    randomizer: Randomizer,
    world: &W,
    rng: StdRng,
    states: Seq<StateView<W::Trail>>,
    details: Seq<SpoilerDetails>,
    rngs: Seq<StdRng>,
    n: int,
)
    requires
        randomizer.valid(),
        randomizer.runs_from(world, rng, states, details, rngs),
        0 <= n < details.len(),
    ensures
        states.len() == details.len() + 1,
        rngs.len() == details.len() + 1,
        exists|i: int|
            0 <= i < states[0].locations.len() && (#[trigger] states[0].locations[i]).bireachable,
        states[n].step_num == n + 1,
        states[n + 1].step_num == n + 2,
        details[n].step == n + 1,
        !states[n].done,
        randomizer.steps_from(
            world,
            states[n],
            rngs[n],
            (StateView { step_num: states[n].step_num, ..states[n + 1] }),
            details[n],
            rngs[n + 1],
        ),
    decreases n,
{
    assert(randomizer.steps_on_from(
        world,
        states[n],
        rngs[n],
        states[n + 1],
        details[n],
        rngs[n + 1],
    ));
    if n == 0 {
        lemma_start_is_drawn(randomizer, world, rng, states[0], rngs[0]);
    } else {
        law_steps_follow_each_other(randomizer, world, rng, states, details, rngs, n - 1);
        assert(states[n - 1 + 1].step_num == n + 1);
    }
    let t = StateView { step_num: states[n].step_num, ..states[n + 1] };
    let (draw, settled, tries) = choose|
        draw: StepDraw,
        settled: StateView<W::Trail>,
        tries: Seq<StateView<W::Trail>>,
    | #[trigger]
        randomizer.steps_from_by(
            world,
            states[n],
            rngs[n],
            draw,
            settled,
            tries,
            t,
            details[n],
            rngs[n + 1],
        );
    randomizer.lemma_runs_from_are_runs(world, rng, states, details, rngs);
    law_attempts_stay_on_track(randomizer, world, states, details, n);
    lemma_initial_total();
    randomizer.lemma_may_step(world, states[n]);
    randomizer.lemma_settled(world, states[n], settled);
}

/// What comes of an attempt that places every item: the map as it was, and at every location the
/// item that the last state has there. Where it has none, there is one of those that remained,
/// which are laid out by number. Every item lies at as many locations as it occurs.
pub proof fn law_randomizations_show_the_last_state<W: Traversal>(
    randomizer: Randomizer,
    world: &W,
    states: Seq<StateView<W::Trail>>,
    randomization: Randomization,
    i: int,
    j: int,
    item: Item,
)
    requires
        randomizer.valid(),
        randomizer.produces(world, states, randomization),
        0 <= i <= j < randomization.item_placement@.len(),
    ensures
        ({
            let s = states.last();
            let items = randomization.item_placement@;
            &&& s.done
            &&& states.len() == randomization.spoiler_log.details@.len() + 1
            &&& randomization.map.doors@ == randomizer.map.doors@
            &&& items.len() == s.locations.len()
            &&& items.len() == randomizer.game_data.item_locations@.len()
            &&& s.locations[i].placed_item is Some ==> s.locations[i].placed_item == Some(items[i])
            &&& s.locations[i].placed_item is None ==> s.remaining[items[i].id()] > 0
            &&& s.locations[i].placed_item is None && s.locations[j].placed_item is None
                ==> items[i].id() <= items[j].id()
            &&& items.to_multiset().count(item) == match item {
                Item::Missile => 46nat,
                Item::Super => 10nat,
                Item::PowerBomb => 10nat,
                Item::ETank => 14nat,
                Item::ReserveTank => 4nat,
                _ => 1nat,
            }
        }),
{
    law_attempts_stay_on_track(
        randomizer,
        world,
        states,
        randomization.spoiler_log.details@,
        states.len() - 1,
    );
    law_every_copy_is_placed(randomizer, world, states, randomization);
    let s = states.last();
    randomizer.lemma_every_copy(s);
    law_remaining_copies_fit(randomizer, s);
    lemma_full_stock_len(s.remaining);
    law_rest_goes_by_number(s.locations, s.remaining, i, j);
    law_rest_goes_by_number(s.locations, s.remaining, j, j);
    law_items_occur_so_often(randomizer, item);
    assert(occurrences(randomization.item_placement@, item)
        == randomizer.initial_items_remaining@[item.id()]);
}

/// The progress of an attempt is told of every state that a step was made from, in order. If the
/// attempt does not come to a first step nothing is told.
pub proof fn law_progress_is_told_of_every_step<W: Traversal>(
    randomizer: Randomizer,
    world: &W,
    rng: StdRng,
    attempt: Attempt,
    next: StdRng,
)
    requires
        randomizer.valid(),
        randomizer.may_come_out_from(world, rng, attempt, next),
    ensures
        attempt.progress@.len() > 0 || attempt.outcome is Ok ==> exists|
            states: Seq<StateView<W::Trail>>,
            details: Seq<SpoilerDetails>,
            rngs: Seq<StdRng>,
        |
            {
                &&& #[trigger] randomizer.runs_from(world, rng, states, details, rngs)
                &&& attempt.progress@.len() == (if attempt.outcome is Ok {
                    states.len() - 1
                } else {
                    states.len() as int
                })
                &&& forall|n: int|
                    0 <= n < attempt.progress@.len() ==> {
                        let told = #[trigger] attempt.progress@[n];
                        let locations = states[n].locations;
                        &&& told.step_num == states[n].step_num
                        &&& told.num_bireachable == locations.filter(
                            |location: ItemLocationState| location.bireachable,
                        ).len()
                        &&& told.num_reachable == locations.filter(
                            |location: ItemLocationState| location.reachable,
                        ).len()
                        &&& told.num_placed == locations.filter(
                            |location: ItemLocationState| location.placed_item is Some,
                        ).len()
                        &&& told.num_collected == locations.filter(
                            |location: ItemLocationState| location.collected,
                        ).len()
                    }
                &&& attempt.outcome matches Ok(randomization)
                    ==> randomization.spoiler_log.details@ == details && states.last().done
                &&& attempt.outcome is Err ==> !states.last().done
            },
        attempt.progress@.len() == 0 && attempt.outcome is Err ==> attempt.outcome == (Err::<
            Randomization,
            Failure,
        >(Failure::NoBireachableLocation)) || attempt.outcome == (Err::<Randomization, Failure>(
            Failure::TraversalTooShort,
        )),
{
    if attempt.progress@.len() > 0 || attempt.outcome is Ok {
        let (states, details, rngs) = match attempt.outcome {
            Ok(randomization) => {
                let details = randomization.spoiler_log.details@;
                let (states, rngs) = choose|states: Seq<StateView<W::Trail>>, rngs: Seq<StdRng>|
                    {
                        &&& #[trigger] randomizer.runs_from(world, rng, states, details, rngs)
                        &&& rngs.last() == next
                        &&& randomizer.produces(world, states, randomization)
                        &&& randomizer.tells_progress(states, attempt.progress@)
                        &&& attempt.progress@.len() == states.len() - 1
                    };
                (states, details, rngs)
            },
            Err(failure) => {
                choose|
                    states: Seq<StateView<W::Trail>>,
                    details: Seq<SpoilerDetails>,
                    rngs: Seq<StdRng>,
                |
                    {
                        &&& #[trigger] randomizer.run_fails_from(
                            world,
                            rng,
                            states,
                            details,
                            rngs,
                            failure,
                            next,
                        )
                        &&& randomizer.tells_progress(states, attempt.progress@)
                        &&& attempt.progress@.len() == states.len()
                    }
            },
        };
        assert(randomizer.runs_from(world, rng, states, details, rngs));
        randomizer.lemma_runs_from_are_runs(world, rng, states, details, rngs);
        assert forall|n: int| 0 <= n < attempt.progress@.len() implies {
            let told = #[trigger] attempt.progress@[n];
            let locations = states[n].locations;
            &&& told.step_num == states[n].step_num
            &&& told.num_bireachable == locations.filter(
                |location: ItemLocationState| location.bireachable,
            ).len()
            &&& told.num_reachable == locations.filter(
                |location: ItemLocationState| location.reachable,
            ).len()
            &&& told.num_placed == locations.filter(
                |location: ItemLocationState| location.placed_item is Some,
            ).len()
            &&& told.num_collected == locations.filter(
                |location: ItemLocationState| location.collected,
            ).len()
        } by {
            law_attempts_stay_on_track(randomizer, world, states, details, n);
            lemma_initial_total();
            law_progress_counts_locations(states[n]);
            assert(attempt.progress@[n] == progress_of(states[n]));
        }
    } else {
        let failure = attempt.outcome->Err_0;
        if failure != Failure::NoBireachableLocation && failure != Failure::TraversalTooShort {
            let (states, details, rngs) = choose|
                states: Seq<StateView<W::Trail>>,
                details: Seq<SpoilerDetails>,
                rngs: Seq<StdRng>,
            |
                {
                    &&& #[trigger] randomizer.run_fails_from(
                        world,
                        rng,
                        states,
                        details,
                        rngs,
                        failure,
                        next,
                    )
                    &&& attempt.progress@.len() == states.len()
                };
            assert(states.len() == details.len() + 1);
        }
    }
}

/// A step that fails while flags are set draws nothing. The traversal that falls short is for the
/// flags that had just been set.
pub proof fn law_setting_flags_draws_nothing<W: Traversal>(
    randomizer: Randomizer,
    world: &W,
    s: StateView<W::Trail>,
    rng: StdRng,
    failure: Failure,
    next: StdRng,
)
    requires
        randomizer.step_fails_from(world, s, rng, failure, next),
    ensures
        (exists|draw: StepDraw, settled: StateView<W::Trail>, tries: Seq<StateView<W::Trail>>|
            #[trigger]
            randomizer.step_fails_from_by(world, s, rng, draw, settled, tries, failure, next)) || (
        failure == Failure::TraversalTooShort && next == rng && exists|
            round: StateView<W::Trail>,
            global: GlobalView,
        |
            {
                &&& #[trigger] randomizer.falls_short(world, global)
                &&& #[trigger] round.global == s.global || exists|earlier: StateView<W::Trail>|
                    #[trigger]
                    randomizer.updates(world, earlier, round)
                &&& global == (GlobalView { flags: global.flags, ..round.global })
                &&& global.flags.len() == round.global.flags.len()
                &&& global.flags != round.global.flags
                &&& forall|flag: int|
                    0 <= flag < global.flags.len() ==> (#[trigger] global.flags[flag] <==> (
                    round.global.flags[flag] || exists|i: int|
                        0 <= i < round.flag_bireachable.len() && round.flag_bireachable[i] && (
                        #[trigger] randomizer.game_data.flag_locations@[i]).2 == flag))
            }),
{
    if failure == Failure::TraversalTooShort && next == rng && exists|t: StateView<W::Trail>|
        #[trigger]
        randomizer.settling_fails(world, s, t) {
        let t = choose|t: StateView<W::Trail>| #[trigger] randomizer.settling_fails(world, s, t);
        let rounds = choose|rounds: Seq<StateView<W::Trail>>|
            {
                &&& #[trigger] randomizer.flag_rounds(world, rounds)
                &&& rounds.first() == s
                &&& t == with_flags(rounds.last(), randomizer.flags_acquired(rounds.last()))
                &&& t.global.flags != rounds.last().global.flags
                &&& randomizer.falls_short(world, t.global)
            };
        let round = rounds.last();
        if rounds.len() > 1 {
            let n = rounds.len() - 2;
            let earlier = with_flags(rounds[n], randomizer.flags_acquired(rounds[n]));
            assert(randomizer.updates(world, earlier, rounds[n + 1]));
        }
        assert(randomizer.falls_short(world, t.global));
        assert(round.global.flags != t.global.flags);
    }
}

/// How often each item occurs where there are `len` items. Any item without a name of its own
/// occurs once.
pub proof fn law_other_items_occur_once(len: nat, id: int)
    requires
        len >= 21,
        0 <= id < len,
    ensures
        initial_counts(len).len() == len,
        initial_counts(len)[id] == (if id == Item::Missile.id() {
            46usize
        } else if id == Item::Super.id() || id == Item::PowerBomb.id() {
            10usize
        } else if id == Item::ETank.id() {
            14usize
        } else if id == Item::ReserveTank.id() {
            4usize
        } else {
            1usize
        }),
{
}

/// Data is playable just when it has twenty-one items and a hundred locations for them, the flag
/// that is set from the start, the vertex of the landing site, and no lists of vertices beyond
/// those of locations and flags; and every vertex and flag that it names is listed.
pub proof fn law_playable_data_fits_together(game_data: GameData)
    ensures
        game_data.playable() <==> {
            &&& game_data.item_isv.keys@.len() == 21
            &&& game_data.item_locations@.len() == 100
            &&& exists|k: int|
                0 <= k < game_data.flag_isv.keys@.len() && (
                #[trigger] game_data.flag_isv.keys@[k])@ == "f_TourianOpen"@
            &&& exists|v: int|
                0 <= v < game_data.vertex_isv.keys@.len() && (
                #[trigger] game_data.vertex_isv.keys@[v]) == (8usize, 5usize, 0usize)
            &&& game_data.item_vertex_ids@.len() <= 100
            &&& game_data.flag_vertex_ids@.len() <= game_data.flag_locations@.len()
            &&& forall|i: int, j: int|
                0 <= i < game_data.item_vertex_ids@.len() && 0 <= j
                    < game_data.item_vertex_ids@[i]@.len() ==> (
                #[trigger] game_data.item_vertex_ids@[i]@[j]) < game_data.vertex_isv.keys@.len()
            &&& forall|i: int, j: int|
                0 <= i < game_data.flag_vertex_ids@.len() && 0 <= j
                    < game_data.flag_vertex_ids@[i]@.len() ==> (
                #[trigger] game_data.flag_vertex_ids@[i]@[j]) < game_data.vertex_isv.keys@.len()
            &&& forall|i: int|
                0 <= i < game_data.flag_locations@.len() ==> (
                #[trigger] game_data.flag_locations@[i]).2 < game_data.flag_isv.keys@.len()
        },
{
    lemma_initial_total();
    let names = names_view(game_data.flag_isv.keys@);
    let name = "f_TourianOpen"@;
    if exists|k: int|
        0 <= k < game_data.flag_isv.keys@.len() && (#[trigger] game_data.flag_isv.keys@[k])@
            == name {
        let k = choose|k: int|
            0 <= k < game_data.flag_isv.keys@.len() && (#[trigger] game_data.flag_isv.keys@[k])@
                == name;
        assert(names[k] == name);
    }
    if names.contains(name) {
        let k = choose|k: int| 0 <= k < names.len() && names[k] == name;
        assert(game_data.flag_isv.keys@[k]@ == name);
    }
}

/// A door is mapped just when both of its sides are known, the side that is entered has a vertex
/// with no obstacle cleared, and the side that is left has one for every state of the obstacles;
/// if it can be passed both ways, also with the sides exchanged.
pub proof fn law_mapped_doors_have_vertices(game_data: GameData, door: Door)
    requires
        game_data.door_ptr_pair_map.has(door.0),
        game_data.door_ptr_pair_map.has(door.1),
    ensures
        ({
            let src = game_data.door_ptr_pair_map.at(door.0);
            let dst = game_data.door_ptr_pair_map.at(door.1);
            let open = |side: (usize, usize)|
                game_data.room_num_obstacles.has(side.0) && game_data.room_num_obstacles.at(side.0)
                    < usize::BITS && forall|mask: usize|
                    mask < 1usize << game_data.room_num_obstacles.at(side.0)
                        ==> #[trigger] game_data.vertex_isv.has((side.0, side.1, mask));
            game_data.door_mapped(door) <==> {
                &&& open(src)
                &&& game_data.vertex_isv.has((dst.0, dst.1, 0usize))
                &&& door.2 ==> open(dst) && game_data.vertex_isv.has((src.0, src.1, 0usize))
            }
        }),
{
}

/// A door with an unknown side is not mapped.
pub proof fn law_unknown_doors_are_not_mapped(game_data: GameData, door: Door)
    requires
        !game_data.door_ptr_pair_map.has(door.0) || !game_data.door_ptr_pair_map.has(door.1),
    ensures
        !game_data.door_mapped(door),
{
}

/// A vertex is named just when it is listed, and its room and its node have names.
pub proof fn law_named_vertices_have_names(game_data: GameData, vertex_id: int)
    requires
        0 <= vertex_id < game_data.vertex_isv.keys@.len(),
    ensures
        ({
            let key = game_data.vertex_isv.keys@[vertex_id];
            game_data.vertex_named(vertex_id) <==> game_data.room_names.has(key.0)
                && game_data.node_names.has((key.0, key.1))
        }),
{
}

}
