//! What holds of the spoiler log.
use crate::counting::{occurrences, placed};
use crate::game_data::{names_view, ItemLocationId, LinkIdx, VertexId};
use crate::items::{all_items, lemma_item_ids, lemma_labels_differ, Item, ITEM_COUNT};
use crate::laws::{
    law_attempts_stay_on_track, law_finish_fills_only_free_locations, law_key_items_are_new,
    law_key_items_are_picked_up, law_placed_items_stay, law_reachability_only_grows,
};
use crate::placement::{lemma_ready_prefix, pickups, ready_items};
use crate::randomize::lemma_initial_total;
use crate::spoiler::{amounts_fit, held_names};
use crate::state::{
    listed, ItemLocationState, Randomization, Randomizer, SelectItemsOutput, SpoilerDetails,
    SpoilerItemDetails, SpoilerRouteEntry, StateView,
};
use crate::traverse::{may_apply, may_collect, GlobalView, LocalState, Traversal};
use vstd::prelude::*;

verus! {

impl<'a> Randomizer<'a> {
    /// The account of an item names a vertex at which the location with number `i` can be
    /// reached.
    pub open spec fn names_a_vertex(self, i: int, details: SpoilerItemDetails) -> bool {
        exists|v: VertexId|
            {
                &&& #[trigger] listed(self.game_data.item_vertex_ids@, i).contains(v)
                &&& details.location.room@ == self.room_name(v)
                &&& details.location.node@ == self.node_name(v)
            }
    }

    /// The item of an account lies at the location with number `i`, which the account names.
    pub open spec fn lies_at(
        self,
        item_placement: Seq<Item>,
        i: int,
        details: SpoilerItemDetails,
    ) -> bool {
        &&& 0 <= i < item_placement.len()
        &&& details.item@ == item_placement[i].label()
        &&& self.names_a_vertex(i, details)
    }

    /// Picking up an item makes the player own it, and takes no other away.
    pub open spec fn gathers<W: Traversal>(self, world: &W) -> bool {
        forall|before: GlobalView, item: Item, after: GlobalView| #[trigger]
            may_collect(world, before, item, self.game_data, after) ==> {
                &&& after.items[item.id()]
                &&& forall|id: int|
                    0 <= id < ITEM_COUNT && before.items[id] ==> #[trigger] after.items[id]
            }
    }

    /// The player owns every item that has been picked up.
    pub open spec fn owns_collected<T>(self, s: StateView<T>) -> bool {
        forall|i: int|
            0 <= i < s.locations.len() && (#[trigger] s.locations[i]).collected
                ==> s.global.items[(s.locations[i].placed_item->0).id()]
    }
}

proof fn lemma_is_placed(locations: Seq<ItemLocationState>, i: int)
    requires
        0 <= i < locations.len(),
        locations[i].placed_item is Some,
    ensures
        placed(locations).count(locations[i].placed_item->0) >= 1,
    decreases locations.len(),
{
    if i < locations.len() - 1 {
        lemma_is_placed(locations.drop_last(), i);
    }
}

/// Everything told of a step was first found in it.
proof fn lemma_told_is_found<W: Traversal>(
    randomizer: Randomizer,
    world: &W,
    s: StateView<W::Trail>,
    t: StateView<W::Trail>,
    n: nat,
    items: Seq<SpoilerItemDetails>,
    k: int,
) -> (i: int)
    requires
        randomizer.tells_items(world, s, t, n, items),
        0 <= k < items.len(),
    ensures
        0 <= i < n,
        randomizer.first_found(s, t, i),
        randomizer.tells_item(world, s, t, i, items[k]),
    decreases n,
{
    if randomizer.first_found(s, t, n - 1) {
        if k == items.len() - 1 {
            n - 1
        } else {
            lemma_told_is_found(randomizer, world, s, t, (n - 1) as nat, items.drop_last(), k)
        }
    } else {
        lemma_told_is_found(randomizer, world, s, t, (n - 1) as nat, items, k)
    }
}

/// What a step tells of an item: the item had not been placed before, and has been after.
proof fn lemma_told_item<W: Traversal>(
    randomizer: Randomizer,
    world: &W,
    states: Seq<StateView<W::Trail>>,
    details: Seq<SpoilerDetails>,
    n: int,
    k: int,
) -> (found: (Item, int))
    requires
        randomizer.valid(),
        randomizer.runs(world, states, details),
        0 <= n < details.len(),
        0 <= k < details[n].items@.len(),
    ensures
        details[n].items@[k].item@ == found.0.label(),
        placed(states[n].locations).count(found.0) == 0,
        0 <= found.1 < states[n + 1].locations.len(),
        states[n + 1].locations[found.1].placed_item == Some(found.0),
        randomizer.names_a_vertex(found.1, details[n].items@[k]),
        randomizer.tells_start(details[n].items@[k].start_state, states[n].global),
{
    law_attempts_stay_on_track(randomizer, world, states, details, n);
    law_attempts_stay_on_track(randomizer, world, states, details, n + 1);
    let s = states[n];
    let step = details[n];
    assert(randomizer.steps_on(world, states[n], states[n + 1], step));
    let t = StateView { step_num: s.step_num, ..states[n + 1] };
    let (settled, bireachable, oneway, tries) = choose|
        settled: StateView<W::Trail>,
        bireachable: Seq<ItemLocationId>,
        oneway: Seq<ItemLocationId>,
        tries: Seq<StateView<W::Trail>>,
    | #[trigger]
        randomizer.steps_by(world, s, settled, bireachable, oneway, tries, t, step);
    lemma_initial_total();
    randomizer.lemma_settles_stepping(world, s, settled);
    randomizer.lemma_attempts(world, settled, bireachable, oneway, tries.len() as int, t);
    let i = lemma_told_is_found(
        randomizer,
        world,
        settled,
        t,
        randomizer.game_data.item_locations@.len(),
        step.items@,
        k,
    );
    let item = t.locations[i].placed_item->0;
    let after = t.locations[i];
    assert(randomizer.location_ok(i, settled.locations[i]));
    lemma_item_ids(item);
    assert(placed(s.locations).count(item) + s.remaining[item.id()]
        == randomizer.initial_items_remaining@[item.id()]);
    (item, i)
}

/// No item is told of in two steps of an attempt: an item is told of in the step that places
/// its first copies, or not at all.
pub proof fn law_items_are_told_in_one_step<W: Traversal>(
    randomizer: Randomizer,
    world: &W,
    states: Seq<StateView<W::Trail>>,
    details: Seq<SpoilerDetails>,
    a: int,
    b: int,
    k: int,
    l: int,
)
    requires
        randomizer.valid(),
        randomizer.runs(world, states, details),
        0 <= a < b < details.len(),
        0 <= k < details[a].items@.len(),
        0 <= l < details[b].items@.len(),
    ensures
        details[a].items@[k].item@ != details[b].items@[l].item@,
{
    let (first, i) = lemma_told_item(randomizer, world, states, details, a, k);
    let (second, _) = lemma_told_item(randomizer, world, states, details, b, l);
    law_placed_items_stay(randomizer, world, states, details, a + 1, b, i);
    lemma_is_placed(states[b].locations, i);
    lemma_labels_differ(first, second);
}

/// Where an item is first found, something is told.
proof fn lemma_found_is_told<W: Traversal>(
    randomizer: Randomizer,
    world: &W,
    s: StateView<W::Trail>,
    t: StateView<W::Trail>,
    n: nat,
    items: Seq<SpoilerItemDetails>,
    i: int,
)
    requires
        randomizer.tells_items(world, s, t, n, items),
        0 <= i < n,
        randomizer.first_found(s, t, i),
    ensures
        items.len() >= 1,
    decreases n,
{
    if i < n - 1 {
        if randomizer.first_found(s, t, n - 1) {
            lemma_found_is_told(randomizer, world, s, t, (n - 1) as nat, items.drop_last(), i);
        } else {
            lemma_found_is_told(randomizer, world, s, t, (n - 1) as nat, items, i);
        }
    }
}

/// Every step tells of at least one item: a key item, which is picked up at once.
pub proof fn law_every_step_tells_of_an_item<W: Traversal>(
    randomizer: Randomizer,
    world: &W,
    s: StateView<W::Trail>,
    t: StateView<W::Trail>,
    details: SpoilerDetails,
)
    requires
        randomizer.valid(),
        randomizer.may_step(world, s),
        randomizer.steps(world, s, t, details),
    ensures
        details.items@.len() >= 1,
{
    lemma_initial_total();
    let (settled, bireachable, oneway, tries) = choose|
        settled: StateView<W::Trail>,
        bireachable: Seq<ItemLocationId>,
        oneway: Seq<ItemLocationId>,
        tries: Seq<StateView<W::Trail>>,
    | #[trigger]
        randomizer.steps_by(world, s, settled, bireachable, oneway, tries, t, details);
    let attempt = tries.len() as int;
    let nb = bireachable.len() as int;
    let no = oneway.len() as int;
    randomizer.lemma_settled(world, s, settled);
    randomizer.lemma_attempts(world, settled, bireachable, oneway, attempt, t);
    let p = choose|p: StateView<W::Trail>|
        {
            &&& #[trigger] randomizer.tries_items(
                world,
                settled,
                bireachable,
                oneway,
                attempt,
                p,
            )
            &&& randomizer.concludes(world, p, t)
        };
    let out = choose|out: SelectItemsOutput| #[trigger]
        randomizer.tries_selection(world, settled, bireachable, oneway, attempt, out, p);
    randomizer.lemma_places(settled, bireachable, oneway);
    randomizer.lemma_key_item_count(settled, nb, no);
    randomizer.lemma_key_items(settled, nb, no, attempt);
    law_key_items_are_picked_up(
        randomizer,
        world,
        settled,
        bireachable,
        oneway,
        attempt,
        p,
        0,
    );
    let keys = randomizer.key_items(settled, nb, no, attempt);
    let key = keys[0];
    law_key_items_are_new(randomizer, settled, nb, no, attempt, key);
    assert(occurrences(keys, key) >= 1) by {
        vstd::seq_lib::to_multiset_contains(keys, key);
        assert(keys.contains(key));
    }
    let place = bireachable[0] as int;
    assert((bireachable + oneway)[0] == bireachable[0]);
    assert(settled.locations[place].placed_item is None);
    assert(randomizer.location_ok(place, settled.locations[place]));
    if !randomizer.complete(p.remaining) {
        law_reachability_only_grows(randomizer, world, p, t);
        assert(t.locations[place].placed_item == p.locations[place].placed_item);
    }
    assert(randomizer.first_found(settled, t, place));
    lemma_found_is_told(
        randomizer,
        world,
        settled,
        t,
        randomizer.game_data.item_locations@.len(),
        details.items@,
        place,
    );
}

/// The item that an account of a step tells of first.
spec fn first_told(details: SpoilerDetails) -> Item {
    choose|item: Item| details.items@[0].item@ == #[trigger] item.label()
}

/// There are no more distinct items than are numbered.
proof fn lemma_distinct_items(items: Seq<Item>)
    requires
        items.no_duplicates(),
    ensures
        items.len() <= ITEM_COUNT,
{
    items.unique_seq_to_set();
    all_items().lemma_cardinality_of_set();
    assert(items.to_set().subset_of(all_items().to_set())) by {
        assert forall|item: Item| #[trigger] items.to_set().contains(
            item,
        ) implies all_items().to_set().contains(item) by {
            lemma_item_ids(item);
            assert(all_items()[item.id()] == item);
        }
    }
    vstd::set_lib::lemma_len_subset(items.to_set(), all_items().to_set());
}

/// An attempt has no more steps than there are items, and each of them tells of an item.
pub proof fn law_no_more_steps_than_items<W: Traversal>(
    randomizer: Randomizer,
    world: &W,
    states: Seq<StateView<W::Trail>>,
    details: Seq<SpoilerDetails>,
)
    requires
        randomizer.valid(),
        randomizer.runs(world, states, details),
    ensures
        details.len() <= ITEM_COUNT,
        forall|n: int| 0 <= n < details.len() ==> (#[trigger] details[n]).items@.len() >= 1,
{
    assert forall|n: int| 0 <= n < details.len() implies (
    #[trigger] details[n]).items@.len() >= 1 by {
        law_attempts_stay_on_track(randomizer, world, states, details, n);
        assert(randomizer.steps_on(world, states[n], states[n + 1], details[n]));
        let t = StateView { step_num: states[n].step_num, ..states[n + 1] };
        lemma_initial_total();
        randomizer.lemma_may_step(world, states[n]);
        law_every_step_tells_of_an_item(randomizer, world, states[n], t, details[n]);
    }
    let told = Seq::new(details.len(), |n: int| first_told(details[n]));
    assert forall|a: int, b: int| 0 <= a < b < told.len() implies told[a] != told[b] by {
        assert(details[a].items@.len() >= 1);
        assert(details[b].items@.len() >= 1);
        let (x, _) = lemma_told_item(randomizer, world, states, details, a, 0);
        let (y, _) = lemma_told_item(randomizer, world, states, details, b, 0);
        assert(details[a].items@[0].item@ == x.label());
        assert(details[b].items@[0].item@ == y.label());
        law_items_are_told_in_one_step(randomizer, world, states, details, a, b, 0, 0);
    }
    assert(told.no_duplicates()) by {
        assert forall|a: int, b: int|
            0 <= a < told.len() && 0 <= b < told.len() && a != b implies told[a] != told[b] by {
            if b < a {
                assert(told[b] != told[a]);
            }
        }
    }
    lemma_distinct_items(told);
}

/// The log agrees with the placement: every item told of lies at a location that its account
/// names.
pub proof fn law_log_agrees_with_placement<W: Traversal>(
    randomizer: Randomizer,
    world: &W,
    states: Seq<StateView<W::Trail>>,
    randomization: Randomization,
    n: int,
    k: int,
)
    requires
        randomizer.valid(),
        randomizer.produces(world, states, randomization),
        0 <= n < randomization.spoiler_log.details@.len(),
        0 <= k < randomization.spoiler_log.details@[n].items@.len(),
    ensures
        exists|i: int| #[trigger]
            randomizer.lies_at(
                randomization.item_placement@,
                i,
                randomization.spoiler_log.details@[n].items@[k],
            ),
{
    let details = randomization.spoiler_log.details@;
    let last = states.len() - 1;
    let (item, i) = lemma_told_item(randomizer, world, states, details, n, k);
    law_placed_items_stay(randomizer, world, states, details, n + 1, last, i);
    law_attempts_stay_on_track(randomizer, world, states, details, last);
    law_finish_fills_only_free_locations(randomizer, states.last(), i);
    assert(randomization.item_placement@[i] == item);
    assert(randomizer.lies_at(randomization.item_placement@, i, details[n].items@[k]));
}

proof fn lemma_held_names(names: Seq<Seq<char>>, held: Seq<bool>)
    ensures
        forall|i: int|
            0 <= i < names.len() && held[i] ==> held_names(names, held).contains(
                #[trigger] names[i],
            ),
        (forall|i: int| 0 <= i < names.len() ==> !#[trigger] held[i]) ==> held_names(
            names,
            held,
        ).len() == 0,
    decreases names.len(),
{
    if names.len() > 0 {
        let rest = names.drop_last();
        let all = held_names(names, held);
        let before = held_names(rest, held);
        lemma_held_names(rest, held);
        assert forall|i: int| 0 <= i < names.len() && held[i] implies all.contains(
            #[trigger] names[i],
        ) by {
            if i < rest.len() {
                assert(rest[i] == names[i]);
                let j = choose|j: int| 0 <= j < before.len() && before[j] == names[i];
                assert(all[j] == names[i]);
            } else {
                assert(all[all.len() - 1] == names[i]);
            }
        }
    }
}

/// In the first step of an attempt the player sets out for every item owning nothing.
pub proof fn law_first_accounts_own_nothing<W: Traversal>(
    randomizer: Randomizer,
    world: &W,
    states: Seq<StateView<W::Trail>>,
    details: Seq<SpoilerDetails>,
    k: int,
)
    requires
        randomizer.valid(),
        randomizer.runs(world, states, details),
        details.len() >= 1,
        0 <= k < details[0].items@.len(),
    ensures
        details[0].items@[k].start_state.items@.len() == 0,
{
    let (item, i) = lemma_told_item(randomizer, world, states, details, 0, k);
    lemma_starts_owning_nothing(randomizer, world, states[0]);
    let names = names_view(randomizer.game_data.item_isv.keys@);
    lemma_held_names(names, states[0].global.items);
    let told = details[0].items@[k].start_state.items@;
    assert(names_view(told).len() == told.len());
}

proof fn lemma_starts_owning_nothing<W: Traversal>(
    randomizer: Randomizer,
    world: &W,
    s: StateView<W::Trail>,
)
    requires
        randomizer.valid(),
        randomizer.starts(world, s),
    ensures
        s.global.items == randomizer.no_items(),
        forall|i: int| 0 <= i < s.locations.len() ==> !(#[trigger] s.locations[i]).collected,
{
    let (item_precedence, weapon_mask) = choose|item_precedence: Seq<Item>, weapon_mask: usize|
        {
            &&& #[trigger] randomizer.may_start(world, item_precedence, weapon_mask)
            &&& randomizer.updates(
                world,
                randomizer.initial_state(item_precedence, weapon_mask),
                s,
            )
        };
    let first = randomizer.initial_state::<W::Trail>(item_precedence, weapon_mask);
    randomizer.lemma_initial_state::<W::Trail>(item_precedence, weapon_mask);
    randomizer.lemma_updates(world, first, s);
}

proof fn lemma_pickups_gather<W: Traversal>(
    randomizer: Randomizer,
    world: &W,
    items: Seq<Item>,
    globals: Seq<GlobalView>,
    n: int,
)
    requires
        randomizer.gathers(world),
        pickups(world, randomizer.game_data, items, globals),
        0 <= n <= items.len(),
    ensures
        forall|id: int|
            0 <= id < ITEM_COUNT && globals[0].items[id] ==> #[trigger] globals[n].items[id],
        forall|j: int| 0 <= j < n ==> globals[n].items[(#[trigger] items[j]).id()],
    decreases n,
{
    if n > 0 {
        lemma_pickups_gather(randomizer, world, items, globals, n - 1);
        let before = globals[n - 1];
        let after = globals[n - 1 + 1];
        assert(may_collect(world, before, items[n - 1], randomizer.game_data, after));
        assert forall|id: int|
            0 <= id < ITEM_COUNT && globals[0].items[id] implies #[trigger] globals[n].items[id] by {
            assert(before.items[id]);
        }
        assert forall|j: int| 0 <= j < n implies globals[n].items[(#[trigger] items[j]).id()] by {
            lemma_item_ids(items[j]);
            if j < n - 1 {
                assert(before.items[items[j].id()]);
            }
        }
    }
}

/// A step keeps it that the player owns what has been picked up.
proof fn lemma_steps_gather<W: Traversal>(
    randomizer: Randomizer,
    world: &W,
    s: StateView<W::Trail>,
    t: StateView<W::Trail>,
    details: SpoilerDetails,
)
    requires
        randomizer.valid(),
        randomizer.gathers(world),
        randomizer.may_step(world, s),
        randomizer.steps(world, s, t, details),
        randomizer.owns_collected(s),
    ensures
        randomizer.owns_collected(t),
{
    lemma_initial_total();
    let (settled, bireachable, oneway, tries) = choose|
        settled: StateView<W::Trail>,
        bireachable: Seq<ItemLocationId>,
        oneway: Seq<ItemLocationId>,
        tries: Seq<StateView<W::Trail>>,
    | #[trigger]
        randomizer.steps_by(world, s, settled, bireachable, oneway, tries, t, details);
    let attempt = tries.len() as int;
    randomizer.lemma_settled(world, s, settled);
    let p = choose|p: StateView<W::Trail>|
        {
            &&& #[trigger] randomizer.tries_items(
                world,
                settled,
                bireachable,
                oneway,
                attempt,
                p,
            )
            &&& randomizer.concludes(world, p, t)
        };
    let out = choose|out: SelectItemsOutput| #[trigger]
        randomizer.tries_selection(world, settled, bireachable, oneway, attempt, out, p);
    randomizer.lemma_with_selection(settled, bireachable, oneway, attempt, out);
    let before = randomizer.with_selection(settled, bireachable + oneway, out);
    let items = ready_items(before.locations);
    let globals = choose|globals: Seq<GlobalView>|
        {
            &&& #[trigger] pickups(world, randomizer.game_data, items, globals)
            &&& globals.first() == settled.global
            &&& globals.last() == p.global
        };
    lemma_pickups_gather(randomizer, world, items, globals, items.len() as int);
    assert forall|i: int| 0 <= i < p.locations.len() && (
    #[trigger] p.locations[i]).collected implies p.global.items[(
    p.locations[i].placed_item->0).id()] by {
        let item = p.locations[i].placed_item->0;
        let first = s.locations[i];
        let middle = settled.locations[i];
        let chosen = before.locations[i];
        lemma_item_ids(item);
        if chosen.collected {
            assert(randomizer.location_ok(i, settled.locations[i]));
            assert(s.global.items[item.id()]);
            assert(globals[0].items[item.id()]);
        } else {
            lemma_ready_prefix(before.locations, i);
            let j = ready_items(before.locations.take(i)).len() as int;
            assert(items[j] == item);
        }
    }
    if !randomizer.complete(p.remaining) {
        law_reachability_only_grows(randomizer, world, p, t);
        assert forall|i: int| 0 <= i < t.locations.len() && (
        #[trigger] t.locations[i]).collected implies t.global.items[(
        t.locations[i].placed_item->0).id()] by {
            assert(p.locations[i].collected);
        }
    }
}

proof fn lemma_runs_gather<W: Traversal>(
    randomizer: Randomizer,
    world: &W,
    states: Seq<StateView<W::Trail>>,
    details: Seq<SpoilerDetails>,
    n: int,
)
    requires
        randomizer.valid(),
        randomizer.gathers(world),
        randomizer.runs(world, states, details),
        0 <= n < states.len(),
    ensures
        randomizer.owns_collected(states[n]),
    decreases n,
{
    if n == 0 {
        lemma_starts_owning_nothing(randomizer, world, states[0]);
    } else {
        lemma_runs_gather(randomizer, world, states, details, n - 1);
        law_attempts_stay_on_track(randomizer, world, states, details, n - 1);
        let before = states[n - 1];
        let after = states[n];
        assert(randomizer.steps_on(world, states[n - 1], states[n - 1 + 1], details[n - 1]));
        let t = StateView { step_num: before.step_num, ..after };
        lemma_initial_total();
        randomizer.lemma_may_step(world, before);
        lemma_steps_gather(randomizer, world, before, t, details[n - 1]);
    }
}

/// If picking up an item makes the player own it and takes none away, the accounts of a step
/// list among what is owned every item that was picked up in an earlier step.
pub proof fn law_accounts_own_what_was_found<W: Traversal>(
    randomizer: Randomizer,
    world: &W,
    states: Seq<StateView<W::Trail>>,
    details: Seq<SpoilerDetails>,
    n: int,
    k: int,
    i: int,
)
    requires
        randomizer.valid(),
        randomizer.gathers(world),
        randomizer.runs(world, states, details),
        0 <= n < details.len(),
        0 <= k < details[n].items@.len(),
        0 <= i < states[n].locations.len(),
        states[n].locations[i].collected,
    ensures
        states[n].locations[i].placed_item is Some,
        names_view(details[n].items@[k].start_state.items@).contains(
            randomizer.game_data.item_isv.keys@[(
            states[n].locations[i].placed_item->0).id()]@,
        ),
{
    law_attempts_stay_on_track(randomizer, world, states, details, n);
    assert(randomizer.location_ok(i, states[n].locations[i]));
    lemma_runs_gather(randomizer, world, states, details, n);
    let item = states[n].locations[i].placed_item->0;
    lemma_item_ids(item);
    let _found = lemma_told_item(randomizer, world, states, details, n, k);
    let names = names_view(randomizer.game_data.item_isv.keys@);
    lemma_held_names(names, states[n].global.items);
    assert(states[n].global.items[item.id()]);
    assert(names[item.id()] == randomizer.game_data.item_isv.keys@[item.id()]@);
}

/// The empty route tells nothing, leaves what has been spent as it is, and is never blocked.
pub proof fn law_empty_route_tells_nothing<W: Traversal>(
    randomizer: Randomizer,
    world: &W,
    global: GlobalView,
    locals: Seq<LocalState>,
    route: Seq<SpoilerRouteEntry>,
    first: LocalState,
    last: LocalState,
)
    ensures
        randomizer.follows(world, global, Seq::empty(), locals) <==> locals.len() == 1,
        randomizer.follows(world, global, Seq::empty(), locals) ==> locals.last()
            == locals.first(),
        randomizer.tells_route(route, global, Seq::empty(), locals) <==> route.len() == 0,
        !randomizer.route_blocked(world, global, Seq::empty(), first, last),
{
}

/// Telling a route and then another from where it ended tells their concatenation.
pub proof fn law_routes_join<W: Traversal>(
    randomizer: Randomizer,
    world: &W,
    global: GlobalView,
    a: Seq<LinkIdx>,
    b: Seq<LinkIdx>,
    x: Seq<LocalState>,
    y: Seq<LocalState>,
    route_a: Seq<SpoilerRouteEntry>,
    route_b: Seq<SpoilerRouteEntry>,
)
    requires
        randomizer.follows(world, global, a, x),
        randomizer.follows(world, global, b, y),
        y.first() == x.last(),
        randomizer.tells_route(route_a, global, a, x),
        randomizer.tells_route(route_b, global, b, y),
    ensures
        randomizer.follows(world, global, a + b, x + y.skip(1)),
        (x + y.skip(1)).first() == x.first(),
        (x + y.skip(1)).last() == y.last(),
        randomizer.tells_route(route_a + route_b, global, a + b, x + y.skip(1)),
{
    let links = a + b;
    let locals = x + y.skip(1);
    let route = route_a + route_b;
    let n = a.len() as int;
    assert forall|i: int| n <= i < locals.len() implies #[trigger] locals[i] == y[i - n] by {
        if i == n {
            assert(x.last() == y.first());
        }
    }
    assert forall|i: int| 0 <= i < links.len() implies {
        &&& (#[trigger] links[i]) < randomizer.links@.len()
        &&& randomizer.game_data.vertex_named(
            randomizer.links@[links[i] as int].to_vertex_id as int,
        )
        &&& may_apply(
            world,
            randomizer.links@[links[i] as int].requirement,
            global,
            locals[i],
            Some(locals[i + 1]),
        )
        &&& amounts_fit(global, locals[i], locals[i + 1])
    } by {
        if i < n {
            assert(links[i] == a[i]);
        } else {
            assert(links[i] == b[i - n]);
            assert(locals[i + 1] == y[i + 1 - n]);
        }
    }
    assert forall|i: int| 0 <= i < route.len() implies randomizer.tells_link(
        #[trigger] route[i],
        global,
        randomizer.links@[links[i] as int],
        locals[i],
        locals[i + 1],
    ) by {
        if i < n {
            assert(route[i] == route_a[i]);
        } else {
            assert(route[i] == route_b[i - n]);
            assert(locals[i + 1] == y[i + 1 - n]);
        }
    }
}

/// The account of a route falls into those of its parts, the second told from where the
/// first ended.
pub proof fn law_routes_part<W: Traversal>(
    randomizer: Randomizer,
    world: &W,
    global: GlobalView,
    a: Seq<LinkIdx>,
    b: Seq<LinkIdx>,
    locals: Seq<LocalState>,
    route: Seq<SpoilerRouteEntry>,
)
    requires
        randomizer.follows(world, global, a + b, locals),
        randomizer.tells_route(route, global, a + b, locals),
    ensures
        randomizer.follows(world, global, a, locals.take(a.len() as int + 1)),
        randomizer.follows(world, global, b, locals.skip(a.len() as int)),
        locals.take(a.len() as int + 1).first() == locals.first(),
        locals.skip(a.len() as int).first() == locals.take(a.len() as int + 1).last(),
        locals.skip(a.len() as int).last() == locals.last(),
        randomizer.tells_route(route.take(a.len() as int), global, a, locals.take(a.len() as int + 1)),
        randomizer.tells_route(
            route.skip(a.len() as int),
            global,
            b,
            locals.skip(a.len() as int),
        ),
{
    let links = a + b;
    let n = a.len() as int;
    let x = locals.take(n + 1);
    let y = locals.skip(n);
    assert forall|i: int| 0 <= i < a.len() implies {
        &&& (#[trigger] a[i]) < randomizer.links@.len()
        &&& randomizer.game_data.vertex_named(
            randomizer.links@[a[i] as int].to_vertex_id as int,
        )
        &&& may_apply(
            world,
            randomizer.links@[a[i] as int].requirement,
            global,
            x[i],
            Some(x[i + 1]),
        )
        &&& amounts_fit(global, x[i], x[i + 1])
    } by {
        assert(links[i] == a[i]);
    }
    assert forall|i: int| 0 <= i < b.len() implies {
        &&& (#[trigger] b[i]) < randomizer.links@.len()
        &&& randomizer.game_data.vertex_named(
            randomizer.links@[b[i] as int].to_vertex_id as int,
        )
        &&& may_apply(
            world,
            randomizer.links@[b[i] as int].requirement,
            global,
            y[i],
            Some(y[i + 1]),
        )
        &&& amounts_fit(global, y[i], y[i + 1])
    } by {
        assert(links[i + n] == b[i]);
    }
    assert forall|i: int| 0 <= i < n implies randomizer.tells_link(
        #[trigger] route.take(n)[i],
        global,
        randomizer.links@[a[i] as int],
        x[i],
        x[i + 1],
    ) by {
        assert(route[i] == route.take(n)[i]);
        assert(links[i] == a[i]);
    }
    assert forall|i: int| 0 <= i < b.len() implies randomizer.tells_link(
        #[trigger] route.skip(n)[i],
        global,
        randomizer.links@[b[i] as int],
        y[i],
        y[i + 1],
    ) by {
        assert(route[i + n] == route.skip(n)[i]);
        assert(links[i + n] == b[i]);
    }
}

}
