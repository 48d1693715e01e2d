//! What holds of item placement as a whole.
use crate::counting::{
    affordable, deducted, lemma_deducted_total, lemma_remaining_is_unplaced,
    lemma_total_below_tally, occurrences, placed, unplaced,
};
use crate::doors::all_links;
use crate::game_data::{Door, GameData, ItemLocationId, Requirement};
use crate::items::{all_items, lemma_ids_items, lemma_item_ids, Item, ITEM_COUNT};
use crate::placement::{emptied, filled, num_pairs, ready, ready_items, with_items};
use crate::randomize::lemma_initial_total;
use crate::reachability::{lemma_first_gate, not_taken_back};
use crate::selection::stock;
use crate::state::{
    listed, total, ItemLocationState, Randomization, Randomizer, SelectItemsOutput,
    SpoilerDetails, StateView,
};
use crate::step::{
    lemma_reordered, lemma_unplaced_lists, lemma_with_items, succeeds, unplaced_bireachable,
    unplaced_oneway,
};
use crate::traverse::{Traversal, TraverseResult};
use vstd::prelude::*;

verus! {

/// There are as many copies of items as there are item locations: a hundred.
pub proof fn law_copies_match_locations(randomizer: Randomizer)
    requires
        randomizer.valid(),
    ensures
        total(randomizer.initial_items_remaining@) == randomizer.game_data.item_locations@.len(),
        total(randomizer.initial_items_remaining@) == 100,
{
    lemma_initial_total();
}

/// The links within rooms stay what they are, and every link through a door is free.
pub proof fn law_door_links_are_free(game_data: GameData, doors: Seq<Door>, i: int)
    requires
        0 <= i < all_links(game_data, doors).len(),
    ensures
        i < game_data.links@.len() ==> all_links(game_data, doors)[i] == game_data.links@[i]@,
        i >= game_data.links@.len() ==> {
            &&& all_links(game_data, doors)[i].requirement == Requirement::Free
            &&& all_links(game_data, doors)[i].strat_name == "(Door transition)"@
        },
{
}

/// Two attempts of one step place the same key items but for the last, in which they differ.
pub proof fn law_attempts_vary_the_last_key_item<T>(
    randomizer: Randomizer,
    s: StateView<T>,
    num_bireachable: int,
    num_oneway: int,
    a: int,
    b: int,
)
    requires
        randomizer.choosable(s, num_bireachable, num_oneway),
        0 <= a < b,
        !randomizer.exhausted(s, num_bireachable, num_oneway, b),
    ensures
        randomizer.key_items(s, num_bireachable, num_oneway, a).drop_last()
            == randomizer.key_items(s, num_bireachable, num_oneway, b).drop_last(),
        randomizer.key_items(s, num_bireachable, num_oneway, a).last() != randomizer.key_items(
            s,
            num_bireachable,
            num_oneway,
            b,
        ).last(),
{
    let candidates = randomizer.key_candidates(s);
    let count = randomizer.key_item_count(s, num_bireachable, num_oneway);
    randomizer.lemma_key_item_count(s, num_bireachable, num_oneway);
    randomizer.lemma_candidates(s);
    assert(randomizer.key_items(s, num_bireachable, num_oneway, a).drop_last()
        =~= candidates.take(count - 1));
    assert(randomizer.key_items(s, num_bireachable, num_oneway, b).drop_last()
        =~= candidates.take(count - 1));
    assert(candidates.no_duplicates()) by {
        assert forall|item: Item| candidates.to_multiset().contains(
            item,
        ) implies candidates.to_multiset().count(item) == 1 by {
            assert(occurrences(candidates, item) <= 1);
        }
        candidates.lemma_multiset_has_no_duplicates_conv();
    }
    assert(candidates[count - 1 + a] != candidates[count - 1 + b]);
}

/// The first attempt places the key items that come first in the order of precedence.
pub proof fn law_first_attempt_goes_by_precedence<T>(
    randomizer: Randomizer,
    s: StateView<T>,
    num_bireachable: int,
    num_oneway: int,
)
    requires
        randomizer.choosable(s, num_bireachable, num_oneway),
    ensures
        !randomizer.exhausted(s, num_bireachable, num_oneway, 0),
        randomizer.key_items(s, num_bireachable, num_oneway, 0) == randomizer.key_candidates(
            s,
        ).take(randomizer.key_item_count(s, num_bireachable, num_oneway)),
{
    let count = randomizer.key_item_count(s, num_bireachable, num_oneway);
    randomizer.lemma_key_item_count(s, num_bireachable, num_oneway);
    assert(randomizer.key_items(s, num_bireachable, num_oneway, 0)
        =~= randomizer.key_candidates(s).take(count));
}

/// Key items are distinct, and of none of them has a copy been placed.
pub proof fn law_key_items_are_new<T>(
    randomizer: Randomizer,
    s: StateView<T>,
    num_bireachable: int,
    num_oneway: int,
    attempt_num: int,
    item: Item,
)
    requires
        randomizer.choosable(s, num_bireachable, num_oneway),
        attempt_num >= 0,
        !randomizer.exhausted(s, num_bireachable, num_oneway, attempt_num),
    ensures
        occurrences(
            randomizer.key_items(s, num_bireachable, num_oneway, attempt_num),
            item,
        ) <= 1,
        occurrences(randomizer.key_items(s, num_bireachable, num_oneway, attempt_num), item) == 1
            ==> s.remaining[item.id()] == randomizer.initial_items_remaining@[item.id()],
{
    randomizer.lemma_candidates(s);
    randomizer.lemma_key_items(s, num_bireachable, num_oneway, attempt_num);
    assert(occurrences(randomizer.key_candidates(s), item) <= 1);
}

/// A choice has an item for every place, and what it takes is what no longer remains.
pub proof fn law_selection_balances<T>(
    randomizer: Randomizer,
    s: StateView<T>,
    num_bireachable: int,
    num_oneway: int,
    attempt_num: int,
    out: SelectItemsOutput,
)
    requires
        randomizer.choosable(s, num_bireachable, num_oneway),
        attempt_num >= 0,
        !randomizer.exhausted(s, num_bireachable, num_oneway, attempt_num),
        !randomizer.overdrawn(s, num_bireachable, num_oneway, attempt_num),
        randomizer.selects(s, num_bireachable, num_oneway, attempt_num, out),
    ensures
        out.key_items@.len() + out.other_items@.len() == num_bireachable + num_oneway,
        1 <= out.key_items@.len() <= num_bireachable,
        out.new_items_remaining@.len() == s.remaining.len(),
        forall|item: Item|
            #![trigger occurrences(out.key_items@, item)]
            #![trigger occurrences(out.other_items@, item)]
            out.new_items_remaining@[item.id()] + occurrences(out.key_items@, item) + occurrences(
                out.other_items@,
                item,
            ) == s.remaining[item.id()],
{
    let mixed = choose|mixed: Seq<Item>| #[trigger]
        randomizer.selects_in_order(s, num_bireachable, num_oneway, attempt_num, mixed, out);
    randomizer.lemma_key_item_count(s, num_bireachable, num_oneway);
    randomizer.lemma_key_items(s, num_bireachable, num_oneway, attempt_num);
    randomizer.lemma_other_items(s, num_bireachable, num_oneway, attempt_num, mixed);
    let left = deducted(s.remaining, out.key_items@);
    assert forall|item: Item|
        #![trigger occurrences(out.key_items@, item)]
        #![trigger occurrences(out.other_items@, item)]
        out.new_items_remaining@[item.id()] + occurrences(out.key_items@, item) + occurrences(
            out.other_items@,
            item,
        ) == s.remaining[item.id()] by {
        lemma_item_ids(item);
        assert(occurrences(out.key_items@, item) <= s.remaining[item.id()]);
        assert(occurrences(out.other_items@, item) <= left[item.id()]);
    }
}

/// Looking at what can be reached takes nothing back, and changes nothing else.
pub proof fn law_reachability_only_grows<W: Traversal>(
    randomizer: Randomizer,
    world: &W,
    s: StateView<W::Trail>,
    t: StateView<W::Trail>,
)
    requires
        randomizer.updates(world, s, t),
    ensures
        not_taken_back(s, t),
{
}

/// Looking a second time at the same traversals changes nothing.
pub proof fn law_marking_is_idempotent<T>(
    randomizer: Randomizer,
    s: StateView<T>,
    forward: TraverseResult<T>,
    reverse: TraverseResult<T>,
    bireachable: Seq<bool>,
)
    ensures
        randomizer.marked_state(
            randomizer.marked_state(s, forward, reverse, bireachable),
            forward,
            reverse,
            bireachable,
        ) == randomizer.marked_state(s, forward, reverse, bireachable),
{
    let once = randomizer.marked_state(s, forward, reverse, bireachable);
    let twice = randomizer.marked_state(once, forward, reverse, bireachable);
    assert(once.locations =~= twice.locations);
    assert(once.flag_bireachable =~= twice.flag_bireachable);
}

/// A location that is newly found to be left again has been reached through one of its
/// vertices, the first that can be left again, and that vertex is remembered.
pub proof fn law_gate_is_remembered<T>(
    randomizer: Randomizer,
    s: StateView<T>,
    forward: TraverseResult<T>,
    reverse: TraverseResult<T>,
    bireachable: Seq<bool>,
    i: int,
)
    requires
        0 <= i < s.locations.len(),
        !s.locations[i].bireachable,
        randomizer.marked_state(s, forward, reverse, bireachable).locations[i].bireachable,
    ensures
        ({
            let after = randomizer.marked_state(s, forward, reverse, bireachable).locations[i];
            &&& after.reachable
            &&& after.bireachable_vertex_id matches Some(v)
            &&& listed(randomizer.game_data.item_vertex_ids@, i).contains(v)
            &&& forward.local_states@[v as int] is Some
            &&& bireachable[v as int]
        }),
{
    lemma_first_gate(
        listed(randomizer.game_data.item_vertex_ids@, i),
        forward.local_states@,
        bireachable,
    );
}

/// Once flags have settled, every flag is set whose location can be reached and left again.
pub proof fn law_settled_flags_are_set<W: Traversal>(
    randomizer: Randomizer,
    world: &W,
    s: StateView<W::Trail>,
    t: StateView<W::Trail>,
    i: int,
)
    requires
        randomizer.valid(),
        randomizer.state_ok(s),
        randomizer.settles(world, s, t),
        0 <= i < t.flag_bireachable.len(),
        t.flag_bireachable[i],
    ensures
        t.global.flags[randomizer.game_data.flag_locations@[i].2 as int],
{
    randomizer.lemma_settles(world, s, t);
    let flag = randomizer.game_data.flag_locations@[i].2 as int;
    assert(randomizer.flags_acquired(t)[flag] == t.global.flags[flag]);
}

proof fn lemma_no_ready_items(locations: Seq<ItemLocationState>)
    requires
        forall|i: int| 0 <= i < locations.len() ==> !ready(#[trigger] locations[i]),
    ensures
        ready_items(locations).len() == 0,
    decreases locations.len(),
{
    if locations.len() > 0 {
        assert(!ready(locations[locations.len() - 1]));
        assert forall|i: int| 0 <= i < locations.len() - 1 implies !ready(
            #[trigger] locations.drop_last()[i],
        ) by {
            assert(!ready(locations[i]));
        }
        lemma_no_ready_items(locations.drop_last());
    }
}

/// After picking up what lies ready nothing lies ready, and picking up again changes nothing.
pub proof fn law_picking_up_is_thorough(locations: Seq<ItemLocationState>)
    ensures
        ready_items(emptied(locations)).len() == 0,
        emptied(emptied(locations)) == emptied(locations),
{
    lemma_no_ready_items(emptied(locations));
    assert(emptied(emptied(locations)) =~= emptied(locations));
}

/// Filling in at the end leaves placed items where they are, and no location free.
pub proof fn law_finish_fills_only_free_locations<T>(
    randomizer: Randomizer,
    s: StateView<T>,
    i: int,
)
    requires
        randomizer.valid(),
        randomizer.state_ok(s),
        0 <= i < s.locations.len(),
    ensures
        filled(s.locations, stock(all_items(), s.remaining))[i].placed_item is Some,
        s.locations[i].placed_item is Some ==> filled(
            s.locations,
            stock(all_items(), s.remaining),
        )[i] == s.locations[i],
{
    randomizer.lemma_every_copy(s);
}

/// As many copies remain to be placed as there are free locations.
pub proof fn law_remaining_copies_fit<T>(randomizer: Randomizer, s: StateView<T>)
    requires
        randomizer.valid(),
        randomizer.state_ok(s),
    ensures
        total(s.remaining) == unplaced(s.locations),
{
    lemma_remaining_is_unplaced(
        randomizer.initial_items_remaining@,
        s.remaining,
        s.locations,
    );
}

/// The number of the first `n` items that occur only once.
proof fn lemma_few_unique_items(n: nat)
    requires
        n <= ITEM_COUNT,
    ensures
        all_items().take(n as int).filter(|item: Item| !item.is_expansion()).len() == (if n <= 4 {
            0
        } else if n <= 20 {
            n - 4
        } else {
            16
        }),
    decreases n,
{
    reveal(Seq::filter);
    if n > 0 {
        lemma_few_unique_items((n - 1) as nat);
        lemma_ids_items(n - 1);
        assert(all_items().take(n as int).drop_last() =~= all_items().take(n - 1));
    }
}

/// No item runs out while twenty places stay free, or while there is room for every item of
/// which no copy has been placed.
pub proof fn law_items_run_out_only_when_crowded<T>(
    randomizer: Randomizer,
    s: StateView<T>,
    num_bireachable: int,
    num_oneway: int,
    attempt_num: int,
)
    requires
        randomizer.choosable(s, num_bireachable, num_oneway),
        attempt_num >= 0,
        total(s.remaining) >= num_bireachable + num_oneway + 20 || num_bireachable
            >= randomizer.key_candidates(s).len(),
    ensures
        !randomizer.overdrawn(s, num_bireachable, num_oneway, attempt_num),
{
    if !randomizer.exhausted(s, num_bireachable, num_oneway, attempt_num) {
        let keys = randomizer.key_items(s, num_bireachable, num_oneway, attempt_num);
        let left = deducted(s.remaining, keys);
        let mixed = randomizer.mix(s, num_bireachable, num_oneway, attempt_num);
        let delayed = stock(randomizer.types_to_delay(left), left);
        let head = mixed + delayed;
        randomizer.lemma_candidates(s);
        randomizer.lemma_key_item_count(s, num_bireachable, num_oneway);
        randomizer.lemma_key_items(s, num_bireachable, num_oneway, attempt_num);
        lemma_deducted_total(s.remaining, keys);
        assert forall|id: int| 0 <= id < ITEM_COUNT implies #[trigger] left[id]
            <= randomizer.initial_items_remaining@[id] by {
            lemma_ids_items(id);
            assert(occurrences(keys, Item::with_id(id)) <= s.remaining[id]);
            assert(s.remaining[id] <= randomizer.initial_items_remaining@[id]);
        }
        randomizer.lemma_supply(mixed, left);
        let places = num_bireachable + num_oneway;
        if total(s.remaining) >= places + 20 {
            lemma_few_unique_items(ITEM_COUNT as nat);
            assert(all_items().take(ITEM_COUNT as int) =~= all_items());
        } else {
            let candidates = randomizer.key_candidates(s);
            assert(keys =~= candidates);
            assert(affordable(left, head)) by {
                assert forall|item: Item| #[trigger]
                    occurrences(head, item) <= left[item.id()] by {
                    randomizer.lemma_supply_head(mixed, left, item);
                }
            }
            lemma_deducted_total(left, head);
            assert forall|item: Item|
                deducted(left, head)[item.id()] <= #[trigger] occurrences(
                    Seq::<Item>::empty(),
                    item,
                ) by {
                lemma_item_ids(item);
                randomizer.lemma_supply_head(mixed, left, item);
                assert(occurrences(candidates, item) <= s.remaining[item.id()]);
                assert(s.remaining[item.id()] <= randomizer.initial_items_remaining@[item.id()]);
            }
            lemma_total_below_tally(deducted(left, head), Seq::empty());
        }
        assert(places - keys.len() <= head.len());
        assert(affordable(left, randomizer.supply(mixed, left).take(places - keys.len())));
    }
}

/// Key items are put at locations that can be left again, and are picked up at once.
pub proof fn law_key_items_are_picked_up<W: Traversal>(
    randomizer: Randomizer,
    world: &W,
    s: StateView<W::Trail>,
    bireachable: Seq<ItemLocationId>,
    oneway: Seq<ItemLocationId>,
    attempt_num: int,
    p: StateView<W::Trail>,
    k: int,
)
    requires
        randomizer.valid(),
        randomizer.stepping(s),
        randomizer.orders(s, bireachable, oneway),
        attempt_num >= 0,
        randomizer.tries_items(world, s, bireachable, oneway, attempt_num, p),
        0 <= k < randomizer.key_item_count(
            s,
            bireachable.len() as int,
            oneway.len() as int,
        ),
    ensures
        k < bireachable.len(),
        p.locations[bireachable[k] as int].placed_item == Some(
            randomizer.key_items(
                s,
                bireachable.len() as int,
                oneway.len() as int,
                attempt_num,
            )[k],
        ),
        p.locations[bireachable[k] as int].collected,
{
    lemma_initial_total();
    let nb = bireachable.len() as int;
    let no = oneway.len() as int;
    let places = bireachable + oneway;
    let out = choose|out: SelectItemsOutput| #[trigger]
        randomizer.tries_selection(world, s, bireachable, oneway, attempt_num, out, p);
    let items = out.key_items@ + out.other_items@;
    randomizer.lemma_places(s, bireachable, oneway);
    randomizer.lemma_key_item_count(s, nb, no);
    randomizer.lemma_key_items(s, nb, no, attempt_num);
    law_selection_balances(randomizer, s, nb, no, attempt_num, out);
    lemma_with_items(s.locations, places, items, places.len());
    let place = places[k] as int;
    let before = with_items(s.locations, places, items, num_pairs(places, items));
    assert(before[places[k] as int].placed_item == Some(items[k]));
    lemma_unplaced_lists(s.locations);
    lemma_reordered(bireachable, unplaced_bireachable(s.locations));
    assert(bireachable.contains(bireachable[k]));
    assert(unplaced_bireachable(s.locations).contains(bireachable[k]));
    assert(before[place].bireachable);
    assert(p.locations[place].collected);
}

/// An attempt leaves no location free that could be reached.
proof fn lemma_reachable_is_filled<W: Traversal>(
    randomizer: Randomizer,
    world: &W,
    s: StateView<W::Trail>,
    bireachable: Seq<ItemLocationId>,
    oneway: Seq<ItemLocationId>,
    attempt_num: int,
    p: StateView<W::Trail>,
    i: int,
)
    requires
        randomizer.valid(),
        randomizer.stepping(s),
        randomizer.orders(s, bireachable, oneway),
        attempt_num >= 0,
        randomizer.tries_items(world, s, bireachable, oneway, attempt_num, p),
        0 <= i < s.locations.len(),
        s.locations[i].reachable,
    ensures
        p.locations[i].placed_item is Some,
{
    lemma_initial_total();
    let nb = bireachable.len() as int;
    let no = oneway.len() as int;
    let places = bireachable + oneway;
    let out = choose|out: SelectItemsOutput| #[trigger]
        randomizer.tries_selection(world, s, bireachable, oneway, attempt_num, out, p);
    let items = out.key_items@ + out.other_items@;
    randomizer.lemma_places(s, bireachable, oneway);
    law_selection_balances(randomizer, s, nb, no, attempt_num, out);
    lemma_with_items(s.locations, places, items, places.len());
    let before = with_items(s.locations, places, items, num_pairs(places, items));
    assert(before[i].placed_item is Some) by {
        if s.locations[i].placed_item is None {
            lemma_unplaced_lists(s.locations);
            lemma_reordered(bireachable, unplaced_bireachable(s.locations));
            lemma_reordered(oneway, unplaced_oneway(s.locations));
            let place = i as ItemLocationId;
            if s.locations[i].bireachable {
                assert(unplaced_bireachable(s.locations).contains(place));
                assert(bireachable.contains(place));
                let k = choose|k: int| 0 <= k < bireachable.len() && bireachable[k] == place;
                assert(places[k] == place);
                assert(before[places[k] as int].placed_item == Some(items[k]));
            } else {
                assert(unplaced_oneway(s.locations).contains(place));
                assert(oneway.contains(place));
                let k = choose|k: int| 0 <= k < oneway.len() && oneway[k] == place;
                assert(places[k + nb] == place);
                assert(before[places[k + nb] as int].placed_item == Some(items[k + nb]));
            }
        } else {
            let after = before[i];
            if after.placed_item != s.locations[i].placed_item {
                let k = choose|k: int| 0 <= k < places.len() && #[trigger] places[k] == i;
                assert(s.locations[places[k] as int].placed_item is None);
            }
        }
    }
}

/// A step keeps a state valid, leaves every placed and every collected item as it is, takes
/// nothing back of what can be reached, fills every location that could be reached, places
/// at least one item, and either has placed every item or opens up a new location.
pub proof fn law_steps_make_progress<W: Traversal>(
    randomizer: Randomizer,
    world: &W,
    s: StateView<W::Trail>,
    t: StateView<W::Trail>,
    details: SpoilerDetails,
)
    requires
        randomizer.valid(),
        randomizer.may_step(world, s),
        randomizer.steps(world, s, t, details),
    ensures
        randomizer.state_ok(t),
        details.step == s.step_num,
        t.step_num == s.step_num,
        t.locations.len() == s.locations.len(),
        !t.done ==> randomizer.stepping(t),
        unplaced(t.locations) < unplaced(s.locations),
        succeeds(s, t),
        forall|i: int|
            0 <= i < s.locations.len() ==> {
                let before = s.locations[i];
                let after = #[trigger] t.locations[i];
                &&& before.placed_item is Some ==> after.placed_item == before.placed_item
                &&& before.collected ==> after.collected
                &&& before.bireachable ==> after.bireachable && after.bireachable_vertex_id
                    == before.bireachable_vertex_id
                &&& before.reachable ==> after.reachable && after.placed_item is Some
            },
{
    lemma_initial_total();
    let (settled, bireachable, oneway, tries) = choose|
        settled: StateView<W::Trail>,
        bireachable: Seq<ItemLocationId>,
        oneway: Seq<ItemLocationId>,
        tries: Seq<StateView<W::Trail>>,
    | #[trigger]
        randomizer.steps_by(world, s, settled, bireachable, oneway, tries, t, details);
    randomizer.lemma_settled(world, s, settled);
    let attempt = tries.len() as int;
    randomizer.lemma_attempts(world, settled, bireachable, oneway, attempt, t);
    let p = choose|p: StateView<W::Trail>|
        {
            &&& #[trigger] randomizer.tries_items(
                world,
                settled,
                bireachable,
                oneway,
                attempt,
                p,
            )
            &&& randomizer.concludes(world, p, t)
        };
    randomizer.lemma_tries_items(world, settled, bireachable, oneway, attempt, p);
    if !randomizer.complete(p.remaining) {
        law_reachability_only_grows(randomizer, world, p, t);
    }
    assert forall|i: int| 0 <= i < s.locations.len() implies {
        let before = s.locations[i];
        let after = #[trigger] t.locations[i];
        &&& before.placed_item is Some ==> after.placed_item == before.placed_item
        &&& before.collected ==> after.collected
        &&& before.bireachable ==> after.bireachable && after.bireachable_vertex_id
            == before.bireachable_vertex_id
        &&& before.reachable ==> after.reachable && after.placed_item is Some
    } by {
        let middle = settled.locations[i];
        let tried = p.locations[i];
        if settled.locations[i].reachable {
            lemma_reachable_is_filled(
                randomizer,
                world,
                settled,
                bireachable,
                oneway,
                attempt,
                p,
                i,
            );
        }
    }
    if !t.done {
        let i = choose|i: int|
            0 <= i < settled.locations.len() && (#[trigger] t.locations[i]).bireachable
                && !settled.locations[i].reachable;
        let middle = settled.locations[i];
        assert(t.locations[i].bireachable && !s.locations[i].reachable);
    }
}

/// A step ends the attempt just when every item has been placed at least once.
pub proof fn law_done_means_every_item_is_placed<W: Traversal>(
    randomizer: Randomizer,
    world: &W,
    s: StateView<W::Trail>,
    t: StateView<W::Trail>,
    details: SpoilerDetails,
)
    requires
        randomizer.valid(),
        randomizer.may_step(world, s),
        randomizer.steps(world, s, t, details),
    ensures
        t.done <==> forall|item: Item| #[trigger] placed(t.locations).count(item) >= 1,
{
    law_steps_make_progress(randomizer, world, s, t, details);
    lemma_done_is_complete(randomizer, world, s, t, details);
    if randomizer.complete(t.remaining) {
        assert forall|item: Item| #[trigger] placed(t.locations).count(item) >= 1 by {
            lemma_item_ids(item);
            assert(t.remaining[item.id()] < randomizer.initial_items_remaining@[item.id()]);
        }
    } else {
        let id = choose|id: int|
            0 <= id < ITEM_COUNT && !(#[trigger] t.remaining[id]
                < randomizer.initial_items_remaining@[id]);
        lemma_ids_items(id);
        assert(!(placed(t.locations).count(Item::with_id(id)) >= 1));
    }
}

proof fn lemma_done_is_complete<W: Traversal>(
    randomizer: Randomizer,
    world: &W,
    s: StateView<W::Trail>,
    t: StateView<W::Trail>,
    details: SpoilerDetails,
)
    requires
        randomizer.valid(),
        randomizer.may_step(world, s),
        randomizer.steps(world, s, t, details),
    ensures
        t.done == randomizer.complete(t.remaining),
{
    lemma_initial_total();
    let (settled, bireachable, oneway, tries) = choose|
        settled: StateView<W::Trail>,
        bireachable: Seq<ItemLocationId>,
        oneway: Seq<ItemLocationId>,
        tries: Seq<StateView<W::Trail>>,
    | #[trigger]
        randomizer.steps_by(world, s, settled, bireachable, oneway, tries, t, details);
    randomizer.lemma_settled(world, s, settled);
    randomizer.lemma_attempts(world, settled, bireachable, oneway, tries.len() as int, t);
}

/// Throughout an attempt the state is valid, and it can be taken further until it is done.
/// The steps are numbered from one, and there are no more of them than locations.
pub proof fn law_attempts_stay_on_track<W: Traversal>(
    randomizer: Randomizer,
    world: &W,
    states: Seq<StateView<W::Trail>>,
    details: Seq<SpoilerDetails>,
    n: int,
)
    requires
        randomizer.valid(),
        randomizer.runs(world, states, details),
        0 <= n < states.len(),
    ensures
        randomizer.state_ok(states[n]),
        !states[n].done ==> randomizer.stepping(states[n]),
        states[n].step_num == n + 1,
        n + unplaced(states[n].locations) <= randomizer.game_data.item_locations@.len(),
    decreases n,
{
    if n == 0 {
        randomizer.lemma_starts(world, states[0]);
    } else {
        law_attempts_stay_on_track(randomizer, world, states, details, n - 1);
        let before = states[n - 1];
        let after = states[n];
        let step = details[n - 1];
        assert(randomizer.steps_on(world, states[n - 1], states[n - 1 + 1], step));
        let t = StateView { step_num: before.step_num, ..after };
        lemma_initial_total();
        randomizer.lemma_may_step(world, before);
        law_steps_make_progress(randomizer, world, before, t, step);
        assert(randomizer.state_ok(after));
    }
}

/// Whatever comes of an attempt, it places every item as often as it occurs, one at each
/// location.
pub proof fn law_every_copy_is_placed<W: Traversal>(
    randomizer: Randomizer,
    world: &W,
    states: Seq<StateView<W::Trail>>,
    randomization: Randomization,
)
    requires
        randomizer.valid(),
        randomizer.produces(world, states, randomization),
    ensures
        randomization.item_placement@.len() == randomizer.game_data.item_locations@.len(),
        randomizer.holds_every_copy(randomization.item_placement@),
{
    law_attempts_stay_on_track(
        randomizer,
        world,
        states,
        randomization.spoiler_log.details@,
        states.len() - 1,
    );
    randomizer.lemma_every_copy(states.last());
}

/// Over the steps of an attempt items stay where they have been put, what has been picked up
/// stays picked up, and what can be reached or left again stays so.
pub proof fn law_placed_items_stay<W: Traversal>(
    randomizer: Randomizer,
    world: &W,
    states: Seq<StateView<W::Trail>>,
    details: Seq<SpoilerDetails>,
    m: int,
    n: int,
    i: int,
)
    requires
        randomizer.valid(),
        randomizer.runs(world, states, details),
        0 <= m <= n < states.len(),
        0 <= i < states[m].locations.len(),
    ensures
        states[n].locations.len() == states[m].locations.len(),
        ({
            let before = states[m].locations[i];
            let after = states[n].locations[i];
            &&& before.placed_item is Some ==> after.placed_item == before.placed_item
            &&& before.collected ==> after.collected
            &&& before.reachable ==> after.reachable
            &&& before.bireachable ==> after.bireachable && after.bireachable_vertex_id
                == before.bireachable_vertex_id
        }),
    decreases n,
{
    if m < n {
        law_placed_items_stay(randomizer, world, states, details, m, n - 1, i);
        law_attempts_stay_on_track(randomizer, world, states, details, n - 1);
        let before = states[n - 1];
        let after = states[n];
        let step = details[n - 1];
        assert(randomizer.steps_on(world, states[n - 1], states[n - 1 + 1], step));
        let t = StateView { step_num: before.step_num, ..after };
        lemma_initial_total();
        randomizer.lemma_may_step(world, before);
        law_steps_make_progress(randomizer, world, before, t, step);
        assert(t.locations[i] == after.locations[i]);
    }
}

}
