//! What a step does to the locations: which are filled, in which order and with what, which are
//! picked up, when a step is over, and how the rest is filled in at the end. Everything is said
//! of the locations themselves.
use crate::choice::lemma_stock_order;
use crate::counting::{placed, unplaced};
use crate::draws::StepDraw;
use crate::game_data::{GameData, ItemLocationId};
use crate::items::{all_items, lemma_ids_items, lemma_item_ids, Item, ITEM_COUNT};
use crate::outside::may_shuffle;
use crate::placement::{
    emptied, filled, lemma_unplaced_take, num_pairs, picks_up, pickups, ready_items, reshapes,
    same_shape, with_items,
};
use crate::randomize::{lemma_filled, lemma_initial_total, progress_of};
use crate::selection::{lemma_occurrences_stock, stock};
use crate::state::{
    Failure, ItemLocationState, Randomizer, SelectItemsOutput, SpoilerDetails, StateView,
};
use crate::step::{
    lemma_reordered, lemma_unplaced_lists, lemma_with_items, succeeds, unplaced_bireachable,
    unplaced_oneway,
};
use crate::traverse::{may_collect, GlobalView, Traversal};
use rand::rngs::StdRng;
use vstd::prelude::*;

verus! {

proof fn lemma_lists_increase(locations: Seq<ItemLocationState>)
    requires
        locations.len() <= usize::MAX,
    ensures
        forall|j: int, k: int|
            0 <= j < k < unplaced_bireachable(locations).len()
                ==> #[trigger] unplaced_bireachable(locations)[j]
                < #[trigger] unplaced_bireachable(locations)[k],
        forall|j: int, k: int|
            0 <= j < k < unplaced_oneway(locations).len() ==> #[trigger] unplaced_oneway(
                locations,
            )[j] < #[trigger] unplaced_oneway(locations)[k],
        forall|j: int|
            0 <= j < unplaced_bireachable(locations).len() ==> #[trigger] unplaced_bireachable(
                locations,
            )[j] < locations.len(),
        forall|j: int|
            0 <= j < unplaced_oneway(locations).len() ==> #[trigger] unplaced_oneway(locations)[j]
                < locations.len(),
    decreases locations.len(),
{
    if locations.len() > 0 {
        let rest = locations.drop_last();
        lemma_lists_increase(rest);
        let b = unplaced_bireachable(rest);
        let o = unplaced_oneway(rest);
        assert forall|j: int, k: int|
            0 <= j < k < unplaced_bireachable(
                locations,
            ).len() implies #[trigger] unplaced_bireachable(locations)[j]
            < #[trigger] unplaced_bireachable(locations)[k] by {
            assert(unplaced_bireachable(locations)[j] == b[j]);
            if k < b.len() {
                assert(unplaced_bireachable(locations)[k] == b[k]);
            }
        }
        assert forall|j: int, k: int|
            0 <= j < k < unplaced_oneway(locations).len() implies #[trigger] unplaced_oneway(
            locations,
        )[j] < #[trigger] unplaced_oneway(locations)[k] by {
            assert(unplaced_oneway(locations)[j] == o[j]);
            if k < o.len() {
                assert(unplaced_oneway(locations)[k] == o[k]);
            }
        }
    }
}

/// The two lists of locations to be filled: a free location is on the first if it can be reached
/// and left again, on the second if it can only be reached. Both go by the number of the location.
pub proof fn law_free_locations_are_listed(locations: Seq<ItemLocationState>, i: ItemLocationId)
    requires
        locations.len() <= usize::MAX,
        i < locations.len(),
    ensures
        unplaced_bireachable(locations).contains(i) <==> locations[i as int].placed_item is None
            && locations[i as int].bireachable,
        unplaced_oneway(locations).contains(i) <==> locations[i as int].placed_item is None
            && locations[i as int].reachable && !locations[i as int].bireachable,
        forall|j: int|
            0 <= j < unplaced_bireachable(locations).len() ==> #[trigger] unplaced_bireachable(
                locations,
            )[j] < locations.len(),
        forall|j: int|
            0 <= j < unplaced_oneway(locations).len() ==> #[trigger] unplaced_oneway(locations)[j]
                < locations.len(),
        forall|j: int, k: int|
            0 <= j < k < unplaced_bireachable(locations).len()
                ==> #[trigger] unplaced_bireachable(locations)[j]
                < #[trigger] unplaced_bireachable(locations)[k],
        forall|j: int, k: int|
            0 <= j < k < unplaced_oneway(locations).len() ==> #[trigger] unplaced_oneway(
                locations,
            )[j] < #[trigger] unplaced_oneway(locations)[k],
{
    lemma_unplaced_lists(locations);
    lemma_lists_increase(locations);
}

/// The draws of a step go one after the other: first the order of the free locations that can be
/// left again, then that of those that cannot, then that of the mix of each try.
pub proof fn law_draws_go_in_turn<T>(
    randomizer: Randomizer,
    s: StateView<T>,
    draw: StepDraw,
    rng: StdRng,
    next: StdRng,
)
    requires
        randomizer.draws(s, draw, rng, next),
        s.locations.len() <= usize::MAX,
    ensures
        exists|
            free: Seq<ItemLocationId>,
            remote: Seq<ItemLocationId>,
            first: StdRng,
            second: StdRng,
        |
            {
                &&& #[trigger] may_shuffle(free, rng, draw.bireachable, first)
                &&& #[trigger] may_shuffle(remote, first, draw.oneway, second)
                &&& forall|i: ItemLocationId| #[trigger]
                    free.contains(i) <==> i < s.locations.len()
                        && s.locations[i as int].placed_item is None
                        && s.locations[i as int].bireachable
                &&& forall|i: ItemLocationId| #[trigger]
                    remote.contains(i) <==> i < s.locations.len()
                        && s.locations[i as int].placed_item is None
                        && s.locations[i as int].reachable && !s.locations[i as int].bireachable
                &&& forall|j: int, k: int|
                    0 <= j < k < free.len() ==> #[trigger] free[j] < #[trigger] free[k]
                &&& forall|j: int, k: int|
                    0 <= j < k < remote.len() ==> #[trigger] remote[j] < #[trigger] remote[k]
                &&& exists|rngs: Seq<StdRng>|
                    {
                        &&& rngs.len() == draw.mixes.len() + 1
                        &&& #[trigger] rngs.first() == second
                        &&& rngs.last() == next
                        &&& forall|a: int|
                            0 <= a < draw.mixes.len() ==> may_shuffle(
                                randomizer.mix(
                                    s,
                                    draw.bireachable.len() as int,
                                    draw.oneway.len() as int,
                                    a,
                                ),
                                rngs[a],
                                #[trigger] draw.mixes[a],
                                rngs[a + 1],
                            )
                    }
            },
{
    let all = choose|rngs: Seq<StdRng>|
        {
            &&& #[trigger] randomizer.draws_by(s, draw, rngs)
            &&& rngs.first() == rng
            &&& rngs.last() == next
        };
    let free = unplaced_bireachable(s.locations);
    let remote = unplaced_oneway(s.locations);
    lemma_unplaced_lists(s.locations);
    lemma_lists_increase(s.locations);
    let rngs = all.skip(2);
    assert(rngs.first() == all[2]);
    assert forall|a: int| 0 <= a < draw.mixes.len() implies may_shuffle(
        randomizer.mix(s, draw.bireachable.len() as int, draw.oneway.len() as int, a),
        rngs[a],
        #[trigger] draw.mixes[a],
        rngs[a + 1],
    ) by {
        assert(rngs[a] == all[a + 2]);
        assert(rngs[a + 1] == all[a + 3]);
    }
    assert(may_shuffle(free, rng, draw.bireachable, all[1]));
    assert(may_shuffle(remote, all[1], draw.oneway, all[2]));
}

/// Items are put at places one by one. At most as many are put as there are of both. The last item
/// put at a place stays there, and nothing else changes.
pub proof fn law_items_are_put_at_places(
    locations: Seq<ItemLocationState>,
    places: Seq<ItemLocationId>,
    items: Seq<Item>,
    n: nat,
    i: int,
)
    requires
        n <= places.len(),
        n <= items.len(),
        forall|k: int| 0 <= k < n ==> (#[trigger] places[k]) < locations.len(),
        0 <= i < locations.len(),
    ensures
        ({
            let before = locations[i];
            let after = with_items(locations, places, items, n)[i];
            &&& with_items(locations, places, items, n).len() == locations.len()
            &&& after.collected == before.collected
            &&& after.reachable == before.reachable
            &&& after.bireachable == before.bireachable
            &&& after.bireachable_vertex_id == before.bireachable_vertex_id
            &&& (forall|k: int| 0 <= k < n ==> #[trigger] places[k] != i) ==> after.placed_item
                == before.placed_item
            &&& forall|k: int|
                0 <= k < n && #[trigger] places[k] == i && (forall|m: int|
                    k < m < n ==> #[trigger] places[m] != i) ==> after.placed_item == Some(
                    items[k],
                )
        }),
    decreases n,
{
    if n > 0 {
        let m = (n - 1) as nat;
        law_items_are_put_at_places(locations, places, items, m, i);
        let place = places[n - 1] as int;
        if place != i {
            assert forall|k: int|
                0 <= k < n && #[trigger] places[k] == i && (forall|m: int|
                    k < m < n ==> #[trigger] places[m] != i) implies with_items(
                locations,
                places,
                items,
                n,
            )[i].placed_item == Some(items[k]) by {
                assert(k < m);
            }
        } else {
            assert forall|k: int|
                0 <= k < n && #[trigger] places[k] == i && (forall|m: int|
                    k < m < n ==> #[trigger] places[m] != i) implies k == n - 1 by {
                if k < n - 1 {
                    assert(places[n - 1] != i);
                }
            }
        }
    }
}

/// As many items are put as there are places for them.
pub proof fn law_items_and_places_pair_up(places: Seq<ItemLocationId>, items: Seq<Item>)
    ensures
        num_pairs(places, items) <= places.len(),
        num_pairs(places, items) <= items.len(),
        num_pairs(places, items) == places.len() || num_pairs(places, items) == items.len(),
{
}

/// What is picked up are the items at the locations that can be reached and left again and have
/// not been picked up, in the order of the locations.
pub proof fn law_ready_items_go_by_location(locations: Seq<ItemLocationState>) -> (from: Seq<int>)
    ensures
        from.len() == ready_items(locations).len(),
        forall|k: int|
            0 <= k < from.len() ==> 0 <= #[trigger] from[k] < locations.len()
                && locations[from[k]].placed_item == Some(ready_items(locations)[k])
                && locations[from[k]].bireachable && !locations[from[k]].collected,
        forall|j: int, k: int|
            0 <= j < k < from.len() ==> #[trigger] from[j] < #[trigger] from[k],
        forall|i: int|
            0 <= i < locations.len() && (#[trigger] locations[i]).placed_item is Some
                && locations[i].bireachable && !locations[i].collected ==> from.contains(i),
    decreases locations.len(),
{
    if locations.len() == 0 {
        Seq::empty()
    } else {
        let rest = locations.drop_last();
        let before = law_ready_items_go_by_location(rest);
        let last = locations.len() - 1;
        let from = if locations.last().placed_item is Some && locations.last().bireachable
            && !locations.last().collected {
            before.push(last)
        } else {
            before
        };
        assert forall|k: int| 0 <= k < from.len() implies 0 <= #[trigger] from[k] < locations.len()
            && locations[from[k]].placed_item == Some(ready_items(locations)[k])
            && locations[from[k]].bireachable && !locations[from[k]].collected by {
            if k < before.len() {
                assert(before[k] == from[k]);
                assert(rest[before[k]] == locations[from[k]]);
            }
        }
        assert forall|i: int|
            0 <= i < locations.len() && (#[trigger] locations[i]).placed_item is Some
                && locations[i].bireachable && !locations[i].collected implies from.contains(
            i,
        ) by {
            if i < last {
                assert(rest[i] == locations[i]);
                let k = choose|k: int| 0 <= k < before.len() && before[k] == i;
                assert(from[k] == i);
            } else {
                assert(from[from.len() - 1] == i);
            }
        }
        from
    }
}

/// Picking up marks the locations from which something is picked up, and changes nothing else.
pub proof fn law_picking_up_marks_locations(locations: Seq<ItemLocationState>, i: int)
    requires
        0 <= i < locations.len(),
    ensures
        ({
            let before = locations[i];
            let after = emptied(locations)[i];
            &&& emptied(locations).len() == locations.len()
            &&& after.collected <==> before.collected || before.placed_item is Some
                && before.bireachable
            &&& after.placed_item == before.placed_item
            &&& after.reachable == before.reachable
            &&& after.bireachable == before.bireachable
            &&& after.bireachable_vertex_id == before.bireachable_vertex_id
        }),
{
}

/// The model is asked for each item that is picked up, in turn.
pub proof fn law_items_are_picked_up_in_turn<W: Traversal>(
    world: &W,
    game_data: &GameData,
    before: GlobalView,
    items: Seq<Item>,
    after: GlobalView,
)
    requires
        picks_up(world, game_data, before, items, after),
    ensures
        items.len() == 0 ==> after == before,
        items.len() > 0 ==> exists|between: GlobalView|
            {
                &&& picks_up(world, game_data, before, items.drop_last(), between)
                &&& #[trigger] may_collect(world, between, items.last(), game_data, after)
                &&& after.items.len() == between.items.len()
                &&& after.flags.len() == between.flags.len()
            },
{
    let globals = choose|globals: Seq<GlobalView>|
        {
            &&& #[trigger] pickups(world, game_data, items, globals)
            &&& globals.first() == before
            &&& globals.last() == after
        };
    if items.len() > 0 {
        let n = items.len() - 1;
        let rest = items.drop_last();
        let earlier = globals.take(n + 1);
        let between = globals[n];
        assert(pickups(world, game_data, rest, earlier)) by {
            assert forall|i: int| 0 <= i < rest.len() implies may_collect(
                world,
                earlier[i],
                #[trigger] rest[i],
                game_data,
                earlier[i + 1],
            ) && same_shape(earlier[i], earlier[i + 1]) by {
                assert(items[i] == rest[i]);
                assert(earlier[i] == globals[i]);
                assert(earlier[i + 1] == globals[i + 1]);
            }
        }
        assert(earlier.first() == before && earlier.last() == between);
        assert(items[n] == items.last());
        assert(globals[n + 1] == after);
        assert(may_collect(world, between, items.last(), game_data, after));
    }
}

/// A try puts the key items and then the others at the locations that can be left again and then at
/// those that cannot, each list in the order that was drawn. What is put at a location that can be
/// left again is picked up, in the order of the locations. The try is the last just when every item
/// has been placed. Otherwise the map is looked at again.
pub proof fn law_tries_fill_locations<W: Traversal>(
    randomizer: Randomizer,
    world: &W,
    s: StateView<W::Trail>,
    draw: StepDraw,
    attempt_num: int,
    t: StateView<W::Trail>,
)
    requires
        randomizer.valid(),
        randomizer.stepping(s),
        randomizer.orders(s, draw.bireachable, draw.oneway),
        randomizer.attempts_as_drawn(world, s, draw, attempt_num, t),
    ensures
        t.step_num == s.step_num,
        t.item_precedence == s.item_precedence,
        t.locations.len() == s.locations.len(),
        t.done <==> forall|item: Item|
            t.remaining[#[trigger] item.id()] < randomizer.initial_items_remaining@[item.id()],
        forall|i: int|
            0 <= i < s.locations.len() ==> {
                let before = s.locations[i];
                let after = #[trigger] t.locations[i];
                &&& before.placed_item is Some ==> after.placed_item == before.placed_item
                &&& before.placed_item is None && before.reachable ==> after.placed_item is Some
                &&& before.placed_item is None && !before.reachable && !before.bireachable
                    ==> after.placed_item is None
                &&& after.collected <==> before.collected || after.placed_item is Some
                    && before.bireachable
            },
        exists|out: SelectItemsOutput|
            {
                &&& #[trigger] randomizer.selects_in_order(
                    s,
                    draw.bireachable.len() as int,
                    draw.oneway.len() as int,
                    attempt_num,
                    draw.mixes[attempt_num],
                    out,
                )
                &&& out.key_items@.len() + out.other_items@.len() == draw.bireachable.len()
                    + draw.oneway.len()
                &&& forall|k: int|
                    0 <= k < out.key_items@.len() + out.other_items@.len()
                        ==> t.locations[(draw.bireachable + draw.oneway)[k] as int].placed_item
                        == Some(#[trigger] (out.key_items@ + out.other_items@)[k])
                &&& t.remaining == out.new_items_remaining@
                &&& exists|ready: Seq<ItemLocationState>|
                    {
                        &&& #[trigger] picks_up(
                            world,
                            randomizer.game_data,
                            s.global,
                            ready_items(ready),
                            t.global,
                        )
                        &&& ready.len() == s.locations.len()
                        &&& forall|i: int|
                            0 <= i < ready.len() ==> (#[trigger] ready[i]).collected
                                == s.locations[i].collected && ready[i].bireachable
                                == s.locations[i].bireachable && ready[i].placed_item
                                == t.locations[i].placed_item
                    }
            },
        t.done ==> t.flag_bireachable == s.flag_bireachable && forall|i: int|
            0 <= i < s.locations.len() ==> (#[trigger] t.locations[i]).reachable
                == s.locations[i].reachable && t.locations[i].bireachable
                == s.locations[i].bireachable && t.locations[i].bireachable_vertex_id
                == s.locations[i].bireachable_vertex_id,
        !t.done ==> exists|p: StateView<W::Trail>|
            {
                &&& #[trigger] randomizer.updates(world, p, t)
                &&& p.global == t.global
                &&& p.flag_bireachable == s.flag_bireachable
                &&& p.locations.len() == s.locations.len()
                &&& forall|i: int|
                    0 <= i < s.locations.len() ==> {
                        let before = s.locations[i];
                        let after = #[trigger] p.locations[i];
                        &&& after.reachable == before.reachable
                        &&& after.bireachable == before.bireachable
                        &&& after.bireachable_vertex_id == before.bireachable_vertex_id
                        &&& after.placed_item == t.locations[i].placed_item
                        &&& after.collected == t.locations[i].collected
                    }
            },
{
    lemma_initial_total();
    let (out, p) = choose|out: SelectItemsOutput, p: StateView<W::Trail>|
        {
            &&& #[trigger] randomizer.tries_as_drawn(world, s, draw, attempt_num, out, p)
            &&& randomizer.concludes(world, p, t)
        };
    let nb = draw.bireachable.len() as int;
    let no = draw.oneway.len() as int;
    let places = draw.bireachable + draw.oneway;
    let items = out.key_items@ + out.other_items@;
    let ready = randomizer.with_selection(s, places, out).locations;
    assert(randomizer.selects(s, nb, no, attempt_num, out));
    randomizer.lemma_with_selection(s, draw.bireachable, draw.oneway, attempt_num, out);
    randomizer.lemma_places(s, draw.bireachable, draw.oneway);
    lemma_with_items(s.locations, places, items, places.len());
    lemma_unplaced_lists(s.locations);
    lemma_reordered(draw.bireachable, unplaced_bireachable(s.locations));
    lemma_reordered(draw.oneway, unplaced_oneway(s.locations));
    assert(ready == with_items(s.locations, places, items, places.len()));
    assert forall|i: int| 0 <= i < s.locations.len() implies {
        let before = s.locations[i];
        let after = #[trigger] p.locations[i];
        &&& before.placed_item is Some ==> after.placed_item == before.placed_item
        &&& before.placed_item is None && before.reachable ==> after.placed_item is Some
        &&& before.placed_item is None && !before.reachable && !before.bireachable
            ==> after.placed_item is None
        &&& after.collected <==> before.collected || after.placed_item is Some
            && before.bireachable
        &&& after.placed_item == ready[i].placed_item
        &&& after.bireachable == before.bireachable
        &&& after.reachable == before.reachable
        &&& after.bireachable_vertex_id == before.bireachable_vertex_id
        &&& t.locations[i].placed_item == after.placed_item
        &&& t.locations[i].collected == after.collected
    } by {
        let before = s.locations[i];
        let place = i as ItemLocationId;
        assert(ready[i].bireachable == before.bireachable);
        if before.placed_item is None && before.reachable {
            if before.bireachable {
                assert(unplaced_bireachable(s.locations).contains(place));
                assert(draw.bireachable.contains(place));
                let k = choose|k: int|
                    0 <= k < draw.bireachable.len() && draw.bireachable[k] == place;
                assert(places[k] == place);
                assert(ready[places[k] as int].placed_item == Some(items[k]));
            } else {
                assert(unplaced_oneway(s.locations).contains(place));
                assert(draw.oneway.contains(place));
                let k = choose|k: int| 0 <= k < draw.oneway.len() && draw.oneway[k] == place;
                assert(places[k + nb] == place);
                assert(ready[places[k + nb] as int].placed_item == Some(items[k + nb]));
            }
        } else if ready[i].placed_item != before.placed_item {
            let k = choose|k: int| 0 <= k < places.len() && #[trigger] places[k] == i;
            assert(s.locations[places[k] as int].placed_item is None);
        }
    }
    assert forall|k: int| 0 <= k < items.len() implies t.locations[places[k] as int].placed_item
        == Some(#[trigger] items[k]) by {
        assert(ready[places[k] as int].placed_item == Some(items[k]));
        assert(p.locations[places[k] as int].placed_item == Some(items[k]));
    }
    if randomizer.complete(t.remaining) {
        assert forall|item: Item| t.remaining[#[trigger] item.id()]
            < randomizer.initial_items_remaining@[item.id()] by {
            lemma_item_ids(item);
        }
    } else {
        let id = choose|id: int|
            0 <= id < ITEM_COUNT && !(#[trigger] t.remaining[id]
                < randomizer.initial_items_remaining@[id]);
        lemma_ids_items(id);
        assert(Item::with_id(id).id() == id);
    }
    assert(picks_up(world, randomizer.game_data, s.global, ready_items(ready), t.global));
    assert forall|i: int| 0 <= i < ready.len() implies (#[trigger] ready[i]).collected
        == s.locations[i].collected && ready[i].bireachable == s.locations[i].bireachable
        && ready[i].placed_item == t.locations[i].placed_item by {
        assert(p.locations[i].placed_item == ready[i].placed_item);
    }
    assert forall|i: int| 0 <= i < t.locations.len() implies {
        let before = s.locations[i];
        let after = #[trigger] t.locations[i];
        &&& before.placed_item is Some ==> after.placed_item == before.placed_item
        &&& before.placed_item is None && before.reachable ==> after.placed_item is Some
        &&& before.placed_item is None && !before.reachable && !before.bireachable
            ==> after.placed_item is None
        &&& after.collected <==> before.collected || after.placed_item is Some
            && before.bireachable
    } by {
        assert(p.locations[i].placed_item == t.locations[i].placed_item);
    }
    if t.done {
        assert(t.locations == p.locations);
    } else {
        assert(randomizer.updates(world, p, t));
    }
}

/// A step sets flags first, then draws, then tries until a try places every item or comes upon a
/// location that could not be reached before and can be left again. No earlier try does, and
/// there is one order of the mix for each try.
pub proof fn law_steps_go_on_until_a_try_succeeds<W: Traversal>(
    randomizer: Randomizer,
    world: &W,
    s: StateView<W::Trail>,
    rng: StdRng,
    t: StateView<W::Trail>,
    details: SpoilerDetails,
    next: StdRng,
)
    requires
        randomizer.valid(),
        randomizer.may_step(world, s),
        randomizer.steps_from(world, s, rng, t, details, next),
    ensures
        exists|draw: StepDraw, settled: StateView<W::Trail>, tries: Seq<StateView<W::Trail>>|
            {
                &&& #[trigger] randomizer.steps_from_by(
                    world,
                    s,
                    rng,
                    draw,
                    settled,
                    tries,
                    t,
                    details,
                    next,
                )
                &&& randomizer.settles(world, s, settled)
                &&& randomizer.draws(settled, draw, rng, next)
                &&& draw.mixes.len() == tries.len() + 1
                &&& randomizer.tells_step(world, settled, t, details)
                &&& randomizer.attempts_as_drawn(world, settled, draw, tries.len() as int, t)
                &&& forall|a: int|
                    0 <= a < tries.len() ==> randomizer.attempts_as_drawn(
                        world,
                        settled,
                        draw,
                        a,
                        #[trigger] tries[a],
                    )
                &&& (forall|item: Item|
                    t.remaining[#[trigger] item.id()]
                        < randomizer.initial_items_remaining@[item.id()]) || exists|i: int|
                    0 <= i < settled.locations.len() && (#[trigger] t.locations[i]).bireachable
                        && !settled.locations[i].reachable
                &&& forall|a: int, i: int|
                    0 <= a < tries.len() && 0 <= i < settled.locations.len()
                        && !settled.locations[i].reachable ==> !(
                    #[trigger] tries[a].locations[i]).bireachable
                &&& forall|a: int|
                    0 <= a < tries.len() ==> exists|item: Item|
                        (#[trigger] tries[a]).remaining[#[trigger] item.id()]
                            >= randomizer.initial_items_remaining@[item.id()]
            },
{
    let (draw, settled, tries) = choose|
        draw: StepDraw,
        settled: StateView<W::Trail>,
        tries: Seq<StateView<W::Trail>>,
    | #[trigger]
        randomizer.steps_from_by(world, s, rng, draw, settled, tries, t, details, next);
    randomizer.lemma_settled(world, s, settled);
    law_tries_fill_locations(randomizer, world, settled, draw, tries.len() as int, t);
    assert forall|a: int, i: int|
        0 <= a < tries.len() && 0 <= i < settled.locations.len()
            && !settled.locations[i].reachable implies !(
    #[trigger] tries[a].locations[i]).bireachable by {
        assert(!succeeds(settled, tries[a]));
    }
    assert forall|a: int| 0 <= a < tries.len() implies exists|item: Item|
        (#[trigger] tries[a]).remaining[#[trigger] item.id()]
            >= randomizer.initial_items_remaining@[item.id()] by {
        law_tries_fill_locations(randomizer, world, settled, draw, a, tries[a]);
        assert(!succeeds(settled, tries[a]));
    }
}

/// A choice has one item for each place.
proof fn lemma_choice_fits<T>(
    randomizer: Randomizer,
    s: StateView<T>,
    draw: StepDraw,
    attempt_num: int,
    out: SelectItemsOutput,
)
    requires
        randomizer.valid(),
        randomizer.stepping(s),
        randomizer.orders(s, draw.bireachable, draw.oneway),
        attempt_num >= 0,
        !randomizer.exhausted(
            s,
            draw.bireachable.len() as int,
            draw.oneway.len() as int,
            attempt_num,
        ),
        !randomizer.overdrawn(
            s,
            draw.bireachable.len() as int,
            draw.oneway.len() as int,
            attempt_num,
        ),
        randomizer.selects_in_order(
            s,
            draw.bireachable.len() as int,
            draw.oneway.len() as int,
            attempt_num,
            draw.mixes[attempt_num],
            out,
        ),
    ensures
        num_pairs(draw.bireachable + draw.oneway, out.key_items@ + out.other_items@)
            == draw.bireachable.len() + draw.oneway.len(),
{
    lemma_initial_total();
    assert(randomizer.selects(
        s,
        draw.bireachable.len() as int,
        draw.oneway.len() as int,
        attempt_num,
        out,
    ));
    randomizer.lemma_with_selection(s, draw.bireachable, draw.oneway, attempt_num, out);
}

/// Why a step fails once flags have settled. The tries before have come upon nothing new. For a
/// choice that cannot be made no order of the mix has been drawn, for every other there has.
pub proof fn law_steps_fail_for_a_reason<W: Traversal>(
    randomizer: Randomizer,
    world: &W,
    s: StateView<W::Trail>,
    rng: StdRng,
    draw: StepDraw,
    settled: StateView<W::Trail>,
    tries: Seq<StateView<W::Trail>>,
    failure: Failure,
    next: StdRng,
)
    requires
        randomizer.valid(),
        randomizer.may_step(world, s),
        randomizer.step_fails_from_by(world, s, rng, draw, settled, tries, failure, next),
    ensures
        randomizer.settles(world, s, settled),
        randomizer.draws(settled, draw, rng, next),
        forall|a: int|
            0 <= a < tries.len() ==> randomizer.attempts_as_drawn(
                world,
                settled,
                draw,
                a,
                #[trigger] tries[a],
            ),
        forall|a: int, i: int|
            0 <= a < tries.len() && 0 <= i < settled.locations.len()
                && !settled.locations[i].reachable ==> !(
            #[trigger] tries[a].locations[i]).bireachable,
        forall|a: int|
            0 <= a < tries.len() ==> exists|item: Item|
                (#[trigger] tries[a]).remaining[#[trigger] item.id()]
                    >= randomizer.initial_items_remaining@[item.id()],
        failure != Failure::NoBireachableLocation,
        failure == Failure::AttemptsExhausted ==> draw.mixes.len() == tries.len()
            && randomizer.exhausted(
            settled,
            draw.bireachable.len() as int,
            draw.oneway.len() as int,
            tries.len() as int,
        ),
        failure == Failure::ItemOverdrawn ==> draw.mixes.len() == tries.len()
            && randomizer.overdrawn(
            settled,
            draw.bireachable.len() as int,
            draw.oneway.len() as int,
            tries.len() as int,
        ),
        failure == Failure::StateReshaped ==> draw.mixes.len() == tries.len() + 1 && exists|
            out: SelectItemsOutput,
            ready: Seq<Item>,
            n: int,
            between: GlobalView,
            after: GlobalView,
        |
            {
                &&& ready == ready_items(
                    with_items(
                        settled.locations,
                        draw.bireachable + draw.oneway,
                        out.key_items@ + out.other_items@,
                        draw.bireachable.len() + draw.oneway.len(),
                    ),
                )
                &&& #[trigger] randomizer.selects_in_order(
                    settled,
                    draw.bireachable.len() as int,
                    draw.oneway.len() as int,
                    tries.len() as int,
                    draw.mixes[tries.len() as int],
                    out,
                )
                &&& 0 <= n < ready.len()
                &&& picks_up(
                    world,
                    randomizer.game_data,
                    settled.global,
                    ready.take(n),
                    between,
                )
                &&& #[trigger] may_collect(
                    world,
                    between,
                    ready[n],
                    randomizer.game_data,
                    after,
                )
                &&& after.items.len() != between.items.len() || after.flags.len()
                    != between.flags.len()
            },
        failure == Failure::TraversalTooShort ==> draw.mixes.len() == tries.len() + 1 && exists|
            out: SelectItemsOutput,
            ready: Seq<Item>,
            global: GlobalView,
        |
            {
                &&& ready == ready_items(
                    with_items(
                        settled.locations,
                        draw.bireachable + draw.oneway,
                        out.key_items@ + out.other_items@,
                        draw.bireachable.len() + draw.oneway.len(),
                    ),
                )
                &&& #[trigger] randomizer.selects_in_order(
                    settled,
                    draw.bireachable.len() as int,
                    draw.oneway.len() as int,
                    tries.len() as int,
                    draw.mixes[tries.len() as int],
                    out,
                )
                &&& #[trigger] picks_up(world, randomizer.game_data, settled.global, ready, global)
                &&& #[trigger] randomizer.falls_short(world, global)
                &&& exists|item: Item|
                    out.new_items_remaining@[#[trigger] item.id()]
                        >= randomizer.initial_items_remaining@[item.id()]
            },
        failure == Failure::RouteBlocked ==> draw.mixes.len() == tries.len() + 1 && exists|
            t: StateView<W::Trail>,
            i: int,
            item: Item,
        |
            {
                &&& #[trigger] randomizer.attempts_as_drawn(
                    world,
                    settled,
                    draw,
                    tries.len() as int,
                    t,
                )
                &&& 0 <= i < settled.locations.len()
                &&& #[trigger] randomizer.item_blocked(world, settled, i)
                &&& t.locations[i].placed_item == Some(item)
                &&& t.locations[i].collected
                &&& !settled.locations[i].collected
                &&& settled.remaining[#[trigger] item.id()]
                    == randomizer.initial_items_remaining@[item.id()]
            },
{
    randomizer.lemma_settled(world, s, settled);
    assert forall|a: int, i: int|
        0 <= a < tries.len() && 0 <= i < settled.locations.len()
            && !settled.locations[i].reachable implies !(
    #[trigger] tries[a].locations[i]).bireachable by {
        assert(!succeeds(settled, tries[a]));
    }
    assert forall|a: int| 0 <= a < tries.len() implies exists|item: Item|
        (#[trigger] tries[a]).remaining[#[trigger] item.id()]
            >= randomizer.initial_items_remaining@[item.id()] by {
        law_tries_fill_locations(randomizer, world, settled, draw, a, tries[a]);
        assert(!succeeds(settled, tries[a]));
    }
    let a = tries.len() as int;
    if failure == Failure::StateReshaped {
        let out = choose|out: SelectItemsOutput|
            {
                &&& !randomizer.exhausted(
                    settled,
                    draw.bireachable.len() as int,
                    draw.oneway.len() as int,
                    a,
                )
                &&& !randomizer.overdrawn(
                    settled,
                    draw.bireachable.len() as int,
                    draw.oneway.len() as int,
                    a,
                )
                &&& #[trigger] randomizer.selects_in_order(
                    settled,
                    draw.bireachable.len() as int,
                    draw.oneway.len() as int,
                    a,
                    draw.mixes[a],
                    out,
                )
                &&& reshapes(
                    world,
                    randomizer.game_data,
                    settled.global,
                    ready_items(
                        randomizer.with_selection(
                            settled,
                            draw.bireachable + draw.oneway,
                            out,
                        ).locations,
                    ),
                )
            };
        let items = ready_items(
            randomizer.with_selection(settled, draw.bireachable + draw.oneway, out).locations,
        );
        let (n, between, after) = choose|n: int, between: GlobalView, after: GlobalView|
            {
                &&& 0 <= n < items.len()
                &&& #[trigger] picks_up(
                    world,
                    randomizer.game_data,
                    settled.global,
                    items.take(n),
                    between,
                )
                &&& #[trigger] may_collect(
                    world,
                    between,
                    items[n],
                    randomizer.game_data,
                    after,
                )
                &&& !same_shape(between, after)
            };
        lemma_choice_fits(randomizer, settled, draw, a, out);
        assert(picks_up(world, randomizer.game_data, settled.global, items.take(n), between));
        assert(may_collect(world, between, items[n], randomizer.game_data, after));
    }
    if failure == Failure::TraversalTooShort {
        let (out, p) = choose|out: SelectItemsOutput, p: StateView<W::Trail>|
            {
                &&& #[trigger] randomizer.tries_as_drawn(world, settled, draw, a, out, p)
                &&& !randomizer.complete(p.remaining)
                &&& randomizer.falls_short(world, p.global)
            };
        lemma_choice_fits(randomizer, settled, draw, a, out);
        let ready = ready_items(
            randomizer.with_selection(settled, draw.bireachable + draw.oneway, out).locations,
        );
        assert(picks_up(world, randomizer.game_data, settled.global, ready, p.global));
        assert(randomizer.falls_short(world, p.global));
        let id = choose|id: int|
            0 <= id < ITEM_COUNT && !(#[trigger] p.remaining[id]
                < randomizer.initial_items_remaining@[id]);
        lemma_ids_items(id);
        assert(out.new_items_remaining@[Item::with_id(id).id()]
            >= randomizer.initial_items_remaining@[Item::with_id(id).id()]);
    }
    if failure == Failure::RouteBlocked {
        let (t, i) = choose|t: StateView<W::Trail>, i: int|
            {
                &&& randomizer.attempts_as_drawn(world, settled, draw, a, t)
                &&& succeeds(settled, t)
                &&& 0 <= i < settled.locations.len()
                &&& #[trigger] randomizer.first_found(settled, t, i)
                &&& randomizer.item_blocked(world, settled, i)
            };
        let item = t.locations[i].placed_item->0;
        assert(settled.remaining[item.id()] == randomizer.initial_items_remaining@[item.id()]);
        assert(randomizer.item_blocked(world, settled, i));
        assert(randomizer.attempts_as_drawn(world, settled, draw, a, t));
    }
}

proof fn lemma_unplaced_grows(locations: Seq<ItemLocationState>, i: int, j: int)
    requires
        0 <= i <= j <= locations.len(),
    ensures
        unplaced(locations.take(i)) <= unplaced(locations.take(j)),
    decreases j - i,
{
    if i < j {
        lemma_unplaced_grows(locations, i, j - 1);
        assert(locations.take(j).drop_last() =~= locations.take(j - 1));
    }
}

/// At the end the free locations are filled with what remains. Items of lower numbers come at
/// earlier locations. Placed items stay, and nothing else changes.
pub proof fn law_rest_goes_by_number(
    locations: Seq<ItemLocationState>,
    remaining: Seq<usize>,
    i: int,
    j: int,
)
    requires
        remaining.len() == ITEM_COUNT,
        unplaced(locations) <= stock(all_items(), remaining).len(),
        0 <= i <= j < locations.len(),
    ensures
        ({
            let all = filled(locations, stock(all_items(), remaining));
            &&& all.len() == locations.len()
            &&& all[i].collected == locations[i].collected
            &&& all[i].reachable == locations[i].reachable
            &&& all[i].bireachable == locations[i].bireachable
            &&& all[i].bireachable_vertex_id == locations[i].bireachable_vertex_id
            &&& all[i].placed_item is Some
            &&& locations[i].placed_item is Some ==> all[i].placed_item == locations[i].placed_item
            &&& locations[i].placed_item is None ==> remaining[(all[i].placed_item->0).id()] > 0
            &&& locations[i].placed_item is None && locations[j].placed_item is None ==> (
            all[i].placed_item->0).id() <= (all[j].placed_item->0).id()
        }),
{
    let items = stock(all_items(), remaining);
    lemma_unplaced_take(locations, i);
    lemma_unplaced_take(locations, j);
    lemma_unplaced_grows(locations, i, j);
    if locations[i].placed_item is None {
        let a = unplaced(locations.take(i)) as int;
        let places = lemma_stock_order(all_items(), remaining, a, a);
        lemma_ids_items(places.0);
        lemma_stock_holds(all_items(), remaining, a);
        if locations[j].placed_item is None {
            let b = unplaced(locations.take(j)) as int;
            let both = lemma_stock_order(all_items(), remaining, a, b);
            lemma_ids_items(both.0);
            lemma_ids_items(both.1);
        }
    }
}

proof fn lemma_stock_holds(items: Seq<Item>, counts: Seq<usize>, k: int)
    requires
        0 <= k < stock(items, counts).len(),
    ensures
        counts[stock(items, counts)[k].id()] > 0,
    decreases items.len(),
{
    let rest = stock(items.drop_last(), counts);
    if k < rest.len() {
        lemma_stock_holds(items.drop_last(), counts, k);
    }
}

/// Of every item as many copies lie at the locations as were placed and as remained.
pub proof fn law_rest_holds_what_remained(
    locations: Seq<ItemLocationState>,
    remaining: Seq<usize>,
    item: Item,
)
    requires
        remaining.len() == ITEM_COUNT,
        unplaced(locations) == stock(all_items(), remaining).len(),
    ensures
        placed(filled(locations, stock(all_items(), remaining))).count(item) == placed(
            locations,
        ).count(item) + remaining[item.id()],
{
    let items = stock(all_items(), remaining);
    lemma_filled(locations, items, item);
    assert(items.take(unplaced(locations) as int) =~= items);
    lemma_item_ids(item);
    assert(all_items()[item.id()] == item);
    assert(all_items().contains(item));
    assert(all_items().no_duplicates()) by {
        assert forall|a: int, b: int| 0 <= a < ITEM_COUNT && 0 <= b < ITEM_COUNT && a != b implies
            all_items()[a] != all_items()[b] by {
            lemma_ids_items(a);
            lemma_ids_items(b);
        }
    }
    lemma_occurrences_stock(all_items(), remaining, item);
}

/// The copies of an item that have been placed are the locations at which it lies.
pub proof fn law_placed_items_lie_at_locations(locations: Seq<ItemLocationState>, item: Item)
    ensures
        placed(locations).count(item) == locations.filter(
            |location: ItemLocationState| location.placed_item == Some(item),
        ).len(),
        unplaced(locations) == locations.filter(
            |location: ItemLocationState| location.placed_item is None,
        ).len(),
    decreases locations.len(),
{
    reveal(Seq::filter);
    if locations.len() > 0 {
        law_placed_items_lie_at_locations(locations.drop_last(), item);
    }
}

/// How many locations there are of a kind: the numbers that are told of a state.
pub proof fn law_progress_counts_locations<T>(s: StateView<T>)
    requires
        s.locations.len() <= usize::MAX,
    ensures
        ({
            let told = progress_of(s);
            &&& told.step_num == s.step_num
            &&& told.num_bireachable == s.locations.filter(
                |location: ItemLocationState| location.bireachable,
            ).len()
            &&& told.num_reachable == s.locations.filter(
                |location: ItemLocationState| location.reachable,
            ).len()
            &&& told.num_placed == s.locations.filter(
                |location: ItemLocationState| location.placed_item is Some,
            ).len()
            &&& told.num_collected == s.locations.filter(
                |location: ItemLocationState| location.collected,
            ).len()
        }),
{
    s.locations.lemma_filter_len(|location: ItemLocationState| location.bireachable);
    s.locations.lemma_filter_len(|location: ItemLocationState| location.reachable);
    s.locations.lemma_filter_len(|location: ItemLocationState| location.placed_item is Some);
    s.locations.lemma_filter_len(|location: ItemLocationState| location.collected);
}

}
