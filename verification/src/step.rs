//! One step of item placement: items for every location that can be reached, chosen so that
//! picking them up opens up a location that could not be reached before.
use crate::counting::{
    affordable, deducted, lemma_occurrences_add, lemma_occurrences_empty, lemma_occurrences_push,
    lemma_place_one, lemma_remaining_is_unplaced, lemma_same_items, occurrences, placed, unplaced,
};
use crate::draws::StepDraw;
use crate::flags::carried_on;
use crate::game_data::{GameData, ItemLocationId};
use crate::items::{lemma_ids_items, lemma_item_ids, Item, ITEM_COUNT};
use crate::outside::shuffle;
use crate::placement::{
    emptied, lemma_unplaced_len, num_pairs, picks_up, pickups, ready_items, reshapes, same_shape,
    with_items,
};
use crate::state::{
    Failure, ItemLocationState, RandomizationState, Randomizer, SelectItemsOutput, SpoilerDetails,
    StateView,
};
use crate::traverse::{GlobalView, Traversal};
use rand::rngs::StdRng;
use vstd::prelude::*;

verus! {

/// The free locations that can be reached and left again.
pub open spec fn unplaced_bireachable(locations: Seq<ItemLocationState>) -> Seq<ItemLocationId>
    decreases locations.len(),
{
    if locations.len() == 0 {
        Seq::empty()
    } else {
        let rest = unplaced_bireachable(locations.drop_last());
        if locations.last().placed_item is None && locations.last().bireachable {
            rest.push((locations.len() - 1) as ItemLocationId)
        } else {
            rest
        }
    }
}

/// The free locations that can be reached but not left again.
pub open spec fn unplaced_oneway(locations: Seq<ItemLocationState>) -> Seq<ItemLocationId>
    decreases locations.len(),
{
    if locations.len() == 0 {
        Seq::empty()
    } else {
        let rest = unplaced_oneway(locations.drop_last());
        if locations.last().placed_item is None && !locations.last().bireachable
            && locations.last().reachable {
            rest.push((locations.len() - 1) as ItemLocationId)
        } else {
            rest
        }
    }
}

/// A location comes up that could not be reached before, and can be left again.
pub open spec fn opens_up<T>(s: StateView<T>, t: StateView<T>) -> bool {
    exists|i: int|
        0 <= i < s.locations.len() && (#[trigger] t.locations[i]).bireachable
            && !s.locations[i].reachable
}

/// The attempt places every item at least once, or it opens up the map.
pub open spec fn succeeds<T>(s: StateView<T>, t: StateView<T>) -> bool {
    t.done || opens_up(s, t)
}

impl<'a> Randomizer<'a> {
    /// Every item has been placed at least once.
    pub open spec fn complete(self, remaining: Seq<usize>) -> bool {
        forall|id: int|
            0 <= id < ITEM_COUNT ==> #[trigger] remaining[id] < self.initial_items_remaining@[id]
    }

    /// The state is valid, and can be taken further once its flags have settled.
    pub open spec fn may_step<W: Traversal>(self, world: &W, s: StateView<W::Trail>) -> bool {
        &&& self.state_ok(s)
        &&& forall|t: StateView<W::Trail>| #[trigger]
            self.settles(world, s, t) ==> self.stepping(t)
    }

    /// The state can be taken further.
    pub open spec fn stepping<T>(self, s: StateView<T>) -> bool {
        &&& self.state_ok(s)
        &&& s.debug_data is Some
        &&& !self.complete(s.remaining)
        &&& unplaced_bireachable(s.locations).len() >= 1
    }

    /// The state with a choice of items put at its free locations.
    pub open spec fn with_selection<T>(
        self,
        s: StateView<T>,
        places: Seq<ItemLocationId>,
        out: SelectItemsOutput,
    ) -> StateView<T> {
        StateView {
            locations: with_items(
                s.locations,
                places,
                out.key_items@ + out.other_items@,
                num_pairs(places, out.key_items@ + out.other_items@),
            ),
            remaining: out.new_items_remaining@,
            done: false,
            debug_data: None,
            ..s
        }
    }

    /// `p` is the state after the items of a choice have been placed and what lies ready
    /// has been picked up.
    pub open spec fn tries_selection<W: Traversal>(
        self,
        world: &W,
        s: StateView<W::Trail>,
        bireachable: Seq<ItemLocationId>,
        oneway: Seq<ItemLocationId>,
        attempt_num: int,
        out: SelectItemsOutput,
        p: StateView<W::Trail>,
    ) -> bool {
        let nb = bireachable.len() as int;
        let no = oneway.len() as int;
        let before = self.with_selection(s, bireachable + oneway, out);
        &&& !self.exhausted(s, nb, no, attempt_num)
        &&& !self.overdrawn(s, nb, no, attempt_num)
        &&& self.selects(s, nb, no, attempt_num, out)
        &&& picks_up(
            world,
            self.game_data,
            s.global,
            ready_items(before.locations),
            p.global,
        )
        &&& p == (StateView {
            locations: emptied(before.locations),
            global: p.global,
            ..before
        })
    }

    /// `p` is the state after an attempt to place items and pick up what lies ready.
    pub open spec fn tries_items<W: Traversal>(
        self,
        world: &W,
        s: StateView<W::Trail>,
        bireachable: Seq<ItemLocationId>,
        oneway: Seq<ItemLocationId>,
        attempt_num: int,
        p: StateView<W::Trail>,
    ) -> bool {
        exists|out: SelectItemsOutput| #[trigger]
            self.tries_selection(world, s, bireachable, oneway, attempt_num, out, p)
    }

    /// `t` is what becomes of a state once items have been placed and picked up. Unless every
    /// item has been placed, it is looked at what can be reached.
    pub open spec fn concludes<W: Traversal>(
        self,
        world: &W,
        p: StateView<W::Trail>,
        t: StateView<W::Trail>,
    ) -> bool {
        if self.complete(p.remaining) {
            t == (StateView { done: true, ..p })
        } else {
            self.updates(world, p, t)
        }
    }

    /// `t` is the state after an attempt.
    pub open spec fn attempts<W: Traversal>(
        self,
        world: &W,
        s: StateView<W::Trail>,
        bireachable: Seq<ItemLocationId>,
        oneway: Seq<ItemLocationId>,
        attempt_num: int,
        t: StateView<W::Trail>,
    ) -> bool {
        exists|p: StateView<W::Trail>|
            {
                &&& #[trigger] self.tries_items(world, s, bireachable, oneway, attempt_num, p)
                &&& self.concludes(world, p, t)
            }
    }

    /// The orders in which the free locations of a state are filled.
    pub open spec fn orders<T>(
        self,
        s: StateView<T>,
        bireachable: Seq<ItemLocationId>,
        oneway: Seq<ItemLocationId>,
    ) -> bool {
        &&& bireachable.to_multiset() == unplaced_bireachable(s.locations).to_multiset()
        &&& oneway.to_multiset() == unplaced_oneway(s.locations).to_multiset()
    }

    /// The first attempts of a step have been made without success.
    pub open spec fn has_tried<W: Traversal>(
        self,
        world: &W,
        s: StateView<W::Trail>,
        bireachable: Seq<ItemLocationId>,
        oneway: Seq<ItemLocationId>,
        tries: Seq<StateView<W::Trail>>,
    ) -> bool {
        &&& self.orders(s, bireachable, oneway)
        &&& forall|a: int|
            0 <= a < tries.len() ==> self.attempts(
                world,
                s,
                bireachable,
                oneway,
                a,
                #[trigger] tries[a],
            ) && !succeeds(s, tries[a])
    }
}

/// The listed locations are those that are free and can be reached, told apart by whether
/// they can be left again.
pub proof fn lemma_unplaced_lists(locations: Seq<ItemLocationState>)
    requires
        locations.len() <= usize::MAX,
    ensures
        unplaced_bireachable(locations).no_duplicates(),
        unplaced_oneway(locations).no_duplicates(),
        unplaced_bireachable(locations).len() + unplaced_oneway(locations).len() <= unplaced(
            locations,
        ),
        forall|i: ItemLocationId| #[trigger]
            unplaced_bireachable(locations).contains(i) <==> i < locations.len()
                && locations[i as int].placed_item is None && locations[i as int].bireachable,
        forall|i: ItemLocationId| #[trigger]
            unplaced_oneway(locations).contains(i) <==> i < locations.len()
                && locations[i as int].placed_item is None && !locations[i as int].bireachable
                && locations[i as int].reachable,
    decreases locations.len(),
{
    if locations.len() > 0 {
        let rest = locations.drop_last();
        let last = (locations.len() - 1) as ItemLocationId;
        lemma_unplaced_lists(rest);
        let b = unplaced_bireachable(rest);
        let o = unplaced_oneway(rest);
        assert(!b.contains(last));
        assert(!o.contains(last));
        assert forall|i: ItemLocationId| #[trigger]
            unplaced_bireachable(locations).contains(i) <==> i < locations.len()
                && locations[i as int].placed_item is None && locations[i as int].bireachable by {
            lemma_push_contains(b, last, i);
            assert(b.contains(i) || !b.contains(i));
        }
        assert forall|i: ItemLocationId| #[trigger]
            unplaced_oneway(locations).contains(i) <==> i < locations.len()
                && locations[i as int].placed_item is None && !locations[i as int].bireachable
                && locations[i as int].reachable by {
            lemma_push_contains(o, last, i);
            assert(o.contains(i) || !o.contains(i));
        }
        lemma_push_no_duplicates(b, last);
        lemma_push_no_duplicates(o, last);
    }
}

proof fn lemma_push_contains(s: Seq<ItemLocationId>, added: ItemLocationId, i: ItemLocationId)
    ensures
        s.push(added).contains(i) <==> s.contains(i) || i == added,
{
    let t = s.push(added);
    if s.contains(i) {
        let k = choose|k: int| 0 <= k < s.len() && s[k] == i;
        assert(t[k] == i);
    }
    assert(t[s.len() as int] == added);
    if t.contains(i) && i != added {
        let k = choose|k: int| 0 <= k < t.len() && t[k] == i;
        assert(s[k] == i);
    }
}

proof fn lemma_push_no_duplicates(s: Seq<ItemLocationId>, added: ItemLocationId)
    requires
        s.no_duplicates(),
        !s.contains(added),
    ensures
        s.push(added).no_duplicates(),
{
    let t = s.push(added);
    assert forall|i: int, j: int| 0 <= i < t.len() && 0 <= j < t.len() && i != j implies t[i]
        != t[j] by {
        if i < s.len() && j < s.len() {
            assert(s[i] != s[j]);
        } else if i < s.len() {
            assert(s[i] == t[i]);
        } else {
            assert(s[j] == t[j]);
        }
    }
}

/// Reordering keeps the length, the elements, and that there are no duplicates.
pub proof fn lemma_reordered(a: Seq<ItemLocationId>, b: Seq<ItemLocationId>)
    requires
        a.to_multiset() == b.to_multiset(),
        b.no_duplicates(),
    ensures
        a.len() == b.len(),
        a.no_duplicates(),
        forall|i: ItemLocationId| #[trigger] a.contains(i) <==> b.contains(i),
{
    broadcast use vstd::seq_lib::group_to_multiset_ensures;

    vstd::seq_lib::to_multiset_len(a);
    vstd::seq_lib::to_multiset_len(b);
    b.lemma_multiset_has_no_duplicates();
    a.lemma_multiset_has_no_duplicates_conv();
    assert forall|i: ItemLocationId| #[trigger] a.contains(i) <==> b.contains(i) by {
        vstd::seq_lib::to_multiset_contains(a, i);
        vstd::seq_lib::to_multiset_contains(b, i);
    }
}

/// Putting items at distinct free places adds just those items, and leaves the other
/// locations as they were.
pub proof fn lemma_with_items(
    locations: Seq<ItemLocationState>,
    places: Seq<ItemLocationId>,
    items: Seq<Item>,
    n: nat,
)
    requires
        n <= places.len(),
        n <= items.len(),
        places.no_duplicates(),
        forall|k: int|
            0 <= k < places.len() ==> (#[trigger] places[k]) < locations.len()
                && locations[places[k] as int].placed_item is None,
    ensures
        with_items(locations, places, items, n).len() == locations.len(),
        unplaced(with_items(locations, places, items, n)) + n == unplaced(locations),
        forall|item: Item| #[trigger]
            placed(with_items(locations, places, items, n)).count(item) == placed(locations).count(
                item,
            ) + occurrences(items.take(n as int), item),
        forall|k: int|
            0 <= k < n ==> (#[trigger] with_items(
                locations,
                places,
                items,
                n,
            )[places[k] as int]).placed_item == Some(items[k]),
        forall|i: int|
            0 <= i < locations.len() ==> {
                let before = locations[i];
                let after = #[trigger] with_items(locations, places, items, n)[i];
                &&& after == (ItemLocationState { placed_item: after.placed_item, ..before })
                &&& after.placed_item == before.placed_item || exists|k: int|
                    0 <= k < n && #[trigger] places[k] == i
            },
    decreases n,
{
    if n == 0 {
        assert(items.take(0) =~= Seq::empty());
        assert forall|item: Item| occurrences(items.take(0), item) == 0 by {
            lemma_occurrences_empty(item);
        }
    } else {
        let m = (n - 1) as nat;
        lemma_with_items(locations, places, items, m);
        let before = with_items(locations, places, items, m);
        let after = with_items(locations, places, items, n);
        let place = places[m as int] as int;
        let item = items[m as int];
        assert(before[place].placed_item is None) by {
            if before[place].placed_item is Some {
                let k = choose|k: int| 0 <= k < m && #[trigger] places[k] == place;
                assert(places[k] == places[m as int]);
            }
        }
        lemma_place_one(
            before,
            place,
            ItemLocationState { placed_item: Some(item), ..before[place] },
        );
        assert(items.take(n as int) =~= items.take(m as int).push(item));
        assert forall|other: Item| #[trigger] placed(after).count(other) == placed(locations).count(
            other,
        ) + occurrences(items.take(n as int), other) by {
            lemma_occurrences_push(items.take(m as int), item, other);
            assert(placed(before).count(other) == placed(locations).count(other) + occurrences(
                items.take(m as int),
                other,
            ));
        }
        assert forall|k: int| 0 <= k < n implies (
        #[trigger] after[places[k] as int]).placed_item == Some(items[k]) by {
            if k < m {
                assert(places[k] != places[m as int]);
                assert(before[places[k] as int].placed_item == Some(items[k]));
            }
        }
        assert forall|i: int| 0 <= i < locations.len() implies {
            let old = locations[i];
            let new = #[trigger] after[i];
            &&& new == (ItemLocationState { placed_item: new.placed_item, ..old })
            &&& new.placed_item == old.placed_item || exists|k: int|
                0 <= k < n && #[trigger] places[k] == i
        } by {
            let middle = before[i];
            if i == place {
                assert(places[m as int] == i);
            }
        }
    }
}

/// Picking up items does not change the numbers of items and flags.
proof fn lemma_pickups_shape<W: Traversal>(
    world: &W,
    game_data: &GameData,
    items: Seq<Item>,
    globals: Seq<GlobalView>,
    n: int,
)
    requires
        pickups(world, game_data, items, globals),
        0 <= n < globals.len(),
    ensures
        same_shape(globals[0], globals[n]),
    decreases n,
{
    if n > 0 {
        lemma_pickups_shape(world, game_data, items, globals, n - 1);
        assert(same_shape(globals[n - 1], globals[n - 1 + 1])) by {
            let item = items[n - 1];
        }
    }
}

impl<'a> Randomizer<'a> {
    /// The places to fill are free, distinct and reachable, and items can be chosen for them.
    pub proof fn lemma_places<T>(
        self,
        s: StateView<T>,
        bireachable: Seq<ItemLocationId>,
        oneway: Seq<ItemLocationId>,
    )
        requires
            self.valid(),
            self.stepping(s),
            s.locations.len() <= usize::MAX,
            self.orders(s, bireachable, oneway),
        ensures
            self.choosable(s, bireachable.len() as int, oneway.len() as int),
            (bireachable + oneway).no_duplicates(),
            forall|k: int|
                0 <= k < (bireachable + oneway).len() ==> {
                    let place = #[trigger] (bireachable + oneway)[k];
                    &&& place < s.locations.len()
                    &&& s.locations[place as int].placed_item is None
                    &&& s.locations[place as int].reachable
                },
    {
        lemma_unplaced_lists(s.locations);
        lemma_reordered(bireachable, unplaced_bireachable(s.locations));
        lemma_reordered(oneway, unplaced_oneway(s.locations));
        let places = bireachable + oneway;
        assert forall|k: int| 0 <= k < places.len() implies {
            let place = #[trigger] places[k];
            &&& place < s.locations.len()
            &&& s.locations[place as int].placed_item is None
            &&& s.locations[place as int].reachable
        } by {
            if k < bireachable.len() {
                assert(bireachable[k] == places[k]);
                assert(bireachable.contains(places[k]));
                assert(unplaced_bireachable(s.locations).contains(places[k]));
                assert(self.location_ok(places[k] as int, s.locations[places[k] as int]));
            } else {
                assert(oneway[k - bireachable.len()] == places[k]);
                assert(oneway.contains(places[k]));
                assert(unplaced_oneway(s.locations).contains(places[k]));
            }
        }
        assert forall|i: int, j: int|
            0 <= i < places.len() && 0 <= j < places.len() && i != j implies places[i]
            != places[j] by {
            if i < bireachable.len() && j < bireachable.len() {
                assert(bireachable[i] != bireachable[j]);
            } else if i >= bireachable.len() && j >= bireachable.len() {
                assert(oneway[i - bireachable.len()] != oneway[j - bireachable.len()]);
            } else {
                let (b, o) = if i < bireachable.len() {
                    (i, j)
                } else {
                    (j, i)
                };
                assert(bireachable.contains(places[b])) by {
                    assert(bireachable[b] == places[b]);
                }
                assert(oneway.contains(places[o])) by {
                    assert(oneway[o - bireachable.len()] == places[o]);
                }
                assert(unplaced_bireachable(s.locations).contains(places[b]));
                assert(unplaced_oneway(s.locations).contains(places[o]));
            }
        }
        lemma_remaining_is_unplaced(self.initial_items_remaining@, s.remaining, s.locations);
        self.lemma_candidates(s);
        let id = choose|id: int|
            0 <= id < ITEM_COUNT && !(#[trigger] s.remaining[id]
                < self.initial_items_remaining@[id]);
        assert(s.remaining[id] <= self.initial_items_remaining@[id]);
        lemma_ids_items(id);
        let item = Item::with_id(id);
        assert(occurrences(self.key_candidates(s), item) == 1);
        if self.key_candidates(s).len() == 0 {
            assert(self.key_candidates(s) =~= Seq::empty());
            lemma_occurrences_empty(item);
        }
    }

    /// A choice of items puts one at each place, and keeps count of them.
    pub proof fn lemma_with_selection<T>(
        self,
        s: StateView<T>,
        bireachable: Seq<ItemLocationId>,
        oneway: Seq<ItemLocationId>,
        attempt_num: int,
        out: SelectItemsOutput,
    )
        requires
            self.valid(),
            self.stepping(s),
            s.locations.len() <= usize::MAX,
            self.orders(s, bireachable, oneway),
            attempt_num >= 0,
            !self.exhausted(s, bireachable.len() as int, oneway.len() as int, attempt_num),
            !self.overdrawn(s, bireachable.len() as int, oneway.len() as int, attempt_num),
            self.selects(
                s,
                bireachable.len() as int,
                oneway.len() as int,
                attempt_num,
                out,
            ),
        ensures
            out.key_items@.len() + out.other_items@.len() == bireachable.len() + oneway.len(),
            self.state_ok(self.with_selection(s, bireachable + oneway, out)),
            unplaced(self.with_selection(s, bireachable + oneway, out).locations)
                + bireachable.len() + oneway.len() == unplaced(s.locations),
            forall|i: int|
                0 <= i < s.locations.len() ==> {
                    let before = s.locations[i];
                    let after = #[trigger] self.with_selection(
                        s,
                        bireachable + oneway,
                        out,
                    ).locations[i];
                    &&& after == (ItemLocationState { placed_item: after.placed_item, ..before })
                    &&& after.placed_item == before.placed_item || (before.placed_item is None
                        && before.reachable)
                },
    {
        self.lemma_places(s, bireachable, oneway);
        let places = bireachable + oneway;
        let items = out.key_items@ + out.other_items@;
        let nb = bireachable.len() as int;
        let no = oneway.len() as int;
        let mixed = choose|mixed: Seq<Item>| #[trigger]
            self.selects_in_order(s, nb, no, attempt_num, mixed, out);
        self.lemma_key_items(s, nb, no, attempt_num);
        self.lemma_other_items(s, nb, no, attempt_num, mixed);
        assert(items.len() == places.len());
        lemma_with_items(s.locations, places, items, places.len());
        assert(items.take(places.len() as int) =~= items);
        let t = self.with_selection(s, places, out);
        let left = deducted(s.remaining, out.key_items@);
        assert(affordable(s.remaining, out.key_items@));
        assert(affordable(left, out.other_items@));
        assert forall|item: Item|
            #![trigger placed(t.locations).count(item)]
            placed(t.locations).count(item) + t.remaining[item.id()]
                == self.initial_items_remaining@[item.id()] && t.remaining[item.id()]
                <= s.remaining[item.id()] by {
            lemma_item_ids(item);
            lemma_occurrences_add(out.key_items@, out.other_items@, item);
            assert(occurrences(out.key_items@, item) <= s.remaining[item.id()]);
            assert(occurrences(out.other_items@, item) <= left[item.id()]);
            assert(placed(s.locations).count(item) + s.remaining[item.id()]
                == self.initial_items_remaining@[item.id()]);
        }
        assert forall|id: int| 0 <= id < ITEM_COUNT implies #[trigger] t.remaining[id]
            <= self.initial_items_remaining@[id] by {
            lemma_ids_items(id);
            assert(placed(t.locations).count(Item::with_id(id)) >= 0);
        }
        assert forall|i: int| 0 <= i < s.locations.len() implies {
            let before = s.locations[i];
            let after = #[trigger] t.locations[i];
            &&& after == (ItemLocationState { placed_item: after.placed_item, ..before })
            &&& after.placed_item == before.placed_item || (before.placed_item is None
                && before.reachable)
        } by {
            if t.locations[i].placed_item != s.locations[i].placed_item {
                let k = choose|k: int| 0 <= k < places.len() && #[trigger] places[k] == i;
                assert(places[k] == i);
            }
        }
        assert forall|i: int| 0 <= i < t.locations.len() implies self.location_ok(
            i,
            #[trigger] t.locations[i],
        ) by {
            assert(self.location_ok(i, s.locations[i]));
        }
    }

    /// An attempt keeps a state valid, fills every place, and changes nothing else but what
    /// is known of the locations.
    pub proof fn lemma_tries_items<W: Traversal>(
        self,
        world: &W,
        s: StateView<W::Trail>,
        bireachable: Seq<ItemLocationId>,
        oneway: Seq<ItemLocationId>,
        attempt_num: int,
        p: StateView<W::Trail>,
    )
        requires
            self.valid(),
            self.stepping(s),
            s.locations.len() <= usize::MAX,
            self.orders(s, bireachable, oneway),
            attempt_num >= 0,
            self.tries_items(world, s, bireachable, oneway, attempt_num, p),
        ensures
            self.state_ok(p),
            p.step_num == s.step_num,
            !p.done,
            unplaced(p.locations) + bireachable.len() + oneway.len() == unplaced(s.locations),
            forall|i: int|
                0 <= i < s.locations.len() ==> {
                    let before = s.locations[i];
                    let after = #[trigger] p.locations[i];
                    &&& after.reachable == before.reachable
                    &&& after.bireachable == before.bireachable
                    &&& after.bireachable_vertex_id == before.bireachable_vertex_id
                    &&& before.collected ==> after.collected
                    &&& after.collected ==> before.collected || before.bireachable
                    &&& after.placed_item == before.placed_item || (before.placed_item is None
                        && before.reachable)
                },
    {
        let out = choose|out: SelectItemsOutput| #[trigger]
            self.tries_selection(world, s, bireachable, oneway, attempt_num, out, p);
        self.lemma_with_selection(s, bireachable, oneway, attempt_num, out);
        let before = self.with_selection(s, bireachable + oneway, out);
        let items = ready_items(before.locations);
        let globals = choose|globals: Seq<GlobalView>|
            {
                &&& #[trigger] pickups(world, self.game_data, items, globals)
                &&& globals.first() == s.global
                &&& globals.last() == p.global
            };
        lemma_pickups_shape(world, self.game_data, items, globals, globals.len() - 1);
        lemma_same_items(before.locations, p.locations);
        assert forall|i: int| 0 <= i < p.locations.len() implies self.location_ok(
            i,
            #[trigger] p.locations[i],
        ) by {
            assert(self.location_ok(i, before.locations[i]));
        }
        assert forall|i: int| 0 <= i < s.locations.len() implies {
            let first = s.locations[i];
            let after = #[trigger] p.locations[i];
            &&& after.reachable == first.reachable
            &&& after.bireachable == first.bireachable
            &&& after.bireachable_vertex_id == first.bireachable_vertex_id
            &&& first.collected ==> after.collected
            &&& after.collected ==> first.collected || first.bireachable
            &&& after.placed_item == first.placed_item || (first.placed_item is None
                && first.reachable)
        } by {
            let middle = before.locations[i];
        }
    }

    /// An attempt keeps a state valid, fills every place, and leaves a state that can be
    /// taken further if it succeeds without being the last.
    pub proof fn lemma_attempts<W: Traversal>(
        self,
        world: &W,
        s: StateView<W::Trail>,
        bireachable: Seq<ItemLocationId>,
        oneway: Seq<ItemLocationId>,
        attempt_num: int,
        t: StateView<W::Trail>,
    )
        requires
            self.valid(),
            self.stepping(s),
            s.locations.len() <= usize::MAX,
            self.orders(s, bireachable, oneway),
            attempt_num >= 0,
            self.attempts(world, s, bireachable, oneway, attempt_num, t),
        ensures
            self.state_ok(t),
            t.step_num == s.step_num,
            t.done == self.complete(t.remaining),
            unplaced(t.locations) < unplaced(s.locations),
            succeeds(s, t) && !t.done ==> self.stepping(t),
            forall|i: int|
                0 <= i < s.locations.len() ==> {
                    let before = s.locations[i];
                    let after = #[trigger] t.locations[i];
                    &&& before.reachable ==> after.reachable
                    &&& before.bireachable ==> after.bireachable && after.bireachable_vertex_id
                        == before.bireachable_vertex_id
                    &&& before.collected ==> after.collected
                    &&& after.collected ==> before.collected || before.bireachable
                    &&& before.placed_item is Some ==> after.placed_item == before.placed_item
                },
    {
        let p = choose|p: StateView<W::Trail>|
            {
                &&& #[trigger] self.tries_items(world, s, bireachable, oneway, attempt_num, p)
                &&& self.concludes(world, p, t)
            };
        self.lemma_tries_items(world, s, bireachable, oneway, attempt_num, p);
        self.lemma_places(s, bireachable, oneway);
        assert forall|i: int| 0 <= i < s.locations.len() implies {
            let before = s.locations[i];
            let after = #[trigger] p.locations[i];
            &&& before.placed_item is Some ==> after.placed_item == before.placed_item
            &&& before.reachable ==> after.reachable
        } by {}
        if !self.complete(p.remaining) {
            self.lemma_updates(world, p, t);
            lemma_same_items(p.locations, t.locations);
            assert forall|i: int| 0 <= i < s.locations.len() implies {
                let before = s.locations[i];
                let after = #[trigger] t.locations[i];
                &&& before.reachable ==> after.reachable
                &&& before.bireachable ==> after.bireachable && after.bireachable_vertex_id
                    == before.bireachable_vertex_id
                &&& before.collected ==> after.collected
                &&& after.collected ==> before.collected || before.bireachable
                &&& before.placed_item is Some ==> after.placed_item == before.placed_item
            } by {
                let middle = p.locations[i];
            }
            if opens_up(s, t) {
                let i = choose|i: int|
                    0 <= i < s.locations.len() && (#[trigger] t.locations[i]).bireachable
                        && !s.locations[i].reachable;
                assert(self.location_ok(i, s.locations[i]));
                let middle = p.locations[i];
                assert(t.locations[i].placed_item is None);
                lemma_unplaced_lists(t.locations);
                assert(unplaced_bireachable(t.locations).contains(i as ItemLocationId));
            }
        }
    }
}

impl<'a> Randomizer<'a> {
    /// A step by way of the state in which flags have settled, and of the attempts that did
    /// not succeed.
    pub open spec fn steps_by<W: Traversal>(
        self,
        world: &W,
        s: StateView<W::Trail>,
        settled: StateView<W::Trail>,
        bireachable: Seq<ItemLocationId>,
        oneway: Seq<ItemLocationId>,
        tries: Seq<StateView<W::Trail>>,
        t: StateView<W::Trail>,
        details: SpoilerDetails,
    ) -> bool {
        &&& self.settles(world, s, settled)
        &&& self.has_tried(world, settled, bireachable, oneway, tries)
        &&& self.attempts(world, settled, bireachable, oneway, tries.len() as int, t)
        &&& succeeds(settled, t)
        &&& self.tells_step(world, settled, t, details)
    }

    /// `t` is the state after a step, and `details` the account of it: flags are set until
    /// none is new, then items are tried out until an attempt succeeds.
    pub open spec fn steps<W: Traversal>(
        self,
        world: &W,
        s: StateView<W::Trail>,
        t: StateView<W::Trail>,
        details: SpoilerDetails,
    ) -> bool {
        exists|
            settled: StateView<W::Trail>,
            bireachable: Seq<ItemLocationId>,
            oneway: Seq<ItemLocationId>,
            tries: Seq<StateView<W::Trail>>,
        | #[trigger]
            self.steps_by(world, s, settled, bireachable, oneway, tries, t, details)
    }

    /// Why the next attempt after some that did not succeed ends a step.
    pub open spec fn attempt_fails<W: Traversal>(
        self,
        world: &W,
        s: StateView<W::Trail>,
        bireachable: Seq<ItemLocationId>,
        oneway: Seq<ItemLocationId>,
        attempt_num: int,
        failure: Failure,
    ) -> bool {
        let nb = bireachable.len() as int;
        let no = oneway.len() as int;
        match failure {
            Failure::AttemptsExhausted => self.exhausted(s, nb, no, attempt_num),
            Failure::ItemOverdrawn => self.overdrawn(s, nb, no, attempt_num),
            Failure::StateReshaped => exists|out: SelectItemsOutput|
                {
                    &&& !self.exhausted(s, nb, no, attempt_num)
                    &&& !self.overdrawn(s, nb, no, attempt_num)
                    &&& #[trigger] self.selects(s, nb, no, attempt_num, out)
                    &&& reshapes(
                        world,
                        self.game_data,
                        s.global,
                        ready_items(
                            self.with_selection(s, bireachable + oneway, out).locations,
                        ),
                    )
                },
            Failure::TraversalTooShort => exists|p: StateView<W::Trail>|
                {
                    &&& #[trigger] self.tries_items(
                        world,
                        s,
                        bireachable,
                        oneway,
                        attempt_num,
                        p,
                    )
                    &&& !self.complete(p.remaining)
                    &&& self.falls_short(world, p.global)
                },
            Failure::RouteBlocked => exists|t: StateView<W::Trail>, i: int|
                {
                    &&& self.attempts(world, s, bireachable, oneway, attempt_num, t)
                    &&& succeeds(s, t)
                    &&& 0 <= i < s.locations.len()
                    &&& #[trigger] self.first_found(s, t, i)
                    &&& self.item_blocked(world, s, i)
                },
            Failure::NoBireachableLocation => false,
        }
    }

    /// Why a step may fail, and the state `t` in which it leaves off.
    pub open spec fn step_fails<W: Traversal>(
        self,
        world: &W,
        s: StateView<W::Trail>,
        t: StateView<W::Trail>,
        failure: Failure,
    ) -> bool {
        ||| failure == Failure::TraversalTooShort && self.settling_fails(world, s, t)
        ||| self.settles(world, s, t) && exists|
            bireachable: Seq<ItemLocationId>,
            oneway: Seq<ItemLocationId>,
            tries: Seq<StateView<W::Trail>>,
        |
            {
                &&& #[trigger] self.has_tried(world, t, bireachable, oneway, tries)
                &&& self.attempt_fails(
                    world,
                    t,
                    bireachable,
                    oneway,
                    tries.len() as int,
                    failure,
                )
            }
    }

    /// A state that can be taken further stays so while flags are set.
    pub proof fn lemma_settles_stepping<W: Traversal>(
        self,
        world: &W,
        s: StateView<W::Trail>,
        t: StateView<W::Trail>,
    )
        requires
            self.valid(),
            self.stepping(s),
            s.locations.len() <= usize::MAX,
            self.settles(world, s, t),
        ensures
            self.stepping(t),
            carried_on(s, t),
            unplaced(t.locations) == unplaced(s.locations),
    {
        self.lemma_settles(world, s, t);
        lemma_unplaced_lists(s.locations);
        lemma_unplaced_lists(t.locations);
        let i = unplaced_bireachable(s.locations)[0];
        assert(unplaced_bireachable(s.locations).contains(i));
        assert(t.locations[i as int].bireachable);
        assert(unplaced_bireachable(t.locations).contains(i));
        lemma_same_items(s.locations, t.locations);
    }

    /// A state that can be taken further may be taken a step further.
    pub proof fn lemma_may_step<W: Traversal>(self, world: &W, s: StateView<W::Trail>)
        requires
            self.valid(),
            self.stepping(s),
            s.locations.len() <= usize::MAX,
        ensures
            self.may_step(world, s),
    {
        assert forall|t: StateView<W::Trail>| #[trigger]
            self.settles(world, s, t) implies self.stepping(t) by {
            self.lemma_settles_stepping(world, s, t);
        }
    }

    /// Once flags have settled a state can be taken further, and nothing has been taken back.
    pub proof fn lemma_settled<W: Traversal>(
        self,
        world: &W,
        s: StateView<W::Trail>,
        t: StateView<W::Trail>,
    )
        requires
            self.valid(),
            self.may_step(world, s),
            self.settles(world, s, t),
        ensures
            self.stepping(t),
            carried_on(s, t),
            unplaced(t.locations) == unplaced(s.locations),
    {
        self.lemma_settles(world, s, t);
        lemma_same_items(s.locations, t.locations);
    }

    /// Lists the free locations that can be reached: those that can be left again, and the
    /// others.
    fn list_unplaced<T>(&self, state: &RandomizationState<T>) -> (lists: (
        Vec<ItemLocationId>,
        Vec<ItemLocationId>,
    ))
        ensures
            lists.0@ == unplaced_bireachable(state@.locations),
            lists.1@ == unplaced_oneway(state@.locations),
    {
        let mut bireachable: Vec<ItemLocationId> = Vec::new();
        let mut oneway: Vec<ItemLocationId> = Vec::new();
        let mut i: usize = 0;
        assert(state@.locations.take(0) =~= Seq::empty());
        while i < state.item_location_state.len()
            invariant
                i <= state@.locations.len(),
                bireachable@ == unplaced_bireachable(state@.locations.take(i as int)),
                oneway@ == unplaced_oneway(state@.locations.take(i as int)),
            decreases state@.locations.len() - i,
        {
            let location: ItemLocationState = state.item_location_state[i];
            assert(state@.locations.take(i as int + 1).drop_last() =~= state@.locations.take(
                i as int,
            ));
            if location.placed_item.is_none() {
                if location.bireachable {
                    bireachable.push(i);
                } else if location.reachable {
                    oneway.push(i);
                }
            }
            i += 1;
        }
        assert(state@.locations.take(i as int) =~= state@.locations);
        (bireachable, oneway)
    }

    /// Whether every item has been placed at least once.
    fn is_complete(&self, remaining: &Vec<usize>) -> (yes: bool)
        requires
            remaining@.len() == ITEM_COUNT,
            self.initial_items_remaining@.len() == ITEM_COUNT,
        ensures
            yes == self.complete(remaining@),
    {
        let mut id: usize = 0;
        while id < ITEM_COUNT
            invariant
                id <= ITEM_COUNT,
                remaining@.len() == ITEM_COUNT,
                self.initial_items_remaining@.len() == ITEM_COUNT,
                forall|k: int|
                    0 <= k < id ==> #[trigger] remaining@[k] < self.initial_items_remaining@[k],
            decreases ITEM_COUNT - id,
        {
            if remaining[id] >= self.initial_items_remaining[id] {
                return false;
            }
            id += 1;
        }
        true
    }

    /// Whether a location comes up that could not be reached before, and can be left again.
    fn is_opened_up<T>(
        &self,
        state: &RandomizationState<T>,
        new_state: &RandomizationState<T>,
    ) -> (yes: bool)
        requires
            state@.locations.len() == new_state@.locations.len(),
        ensures
            yes == opens_up(state@, new_state@),
    {
        let mut i: usize = 0;
        while i < state.item_location_state.len()
            invariant
                i <= state@.locations.len(),
                state@.locations.len() == new_state@.locations.len(),
                forall|k: int|
                    0 <= k < i ==> !((#[trigger] new_state@.locations[k]).bireachable
                        && !state@.locations[k].reachable),
            decreases state@.locations.len() - i,
        {
            if new_state.item_location_state[i].bireachable
                && !state.item_location_state[i].reachable {
                assert(new_state@.locations[i as int].bireachable);
                return true;
            }
            i += 1;
        }
        false
    }

    /// The state with a choice of items put at the free locations.
    fn apply_selection<T>(
        &self,
        state: &RandomizationState<T>,
        bireachable: &Vec<ItemLocationId>,
        oneway: &Vec<ItemLocationId>,
        selection: SelectItemsOutput,
    ) -> (new_state: RandomizationState<T>)
        requires
            selection.key_items@.len() + selection.other_items@.len() == bireachable@.len()
                + oneway@.len(),
            bireachable@.len() + oneway@.len() <= usize::MAX,
            forall|k: int|
                0 <= k < (bireachable@ + oneway@).len() ==> (
                #[trigger] (bireachable@ + oneway@)[k]) < state@.locations.len(),
        ensures
            new_state@ == self.with_selection(state@, bireachable@ + oneway@, selection),
    {
        let mut new_state: RandomizationState<T> = RandomizationState {
            step_num: state.step_num,
            item_precedence: state.item_precedence.clone(),
            item_location_state: state.item_location_state.clone(),
            flag_bireachable: state.flag_bireachable.clone(),
            items_remaining: selection.new_items_remaining,
            global_state: state.global_state.clone(),
            done: false,
            debug_data: None,
        };
        assert(new_state@.item_precedence =~= state@.item_precedence);
        assert(new_state@.locations =~= state@.locations);
        assert(new_state@.flag_bireachable =~= state@.flag_bireachable);
        self.place_items(
            &mut new_state,
            bireachable.as_slice(),
            oneway.as_slice(),
            selection.key_items.as_slice(),
            selection.other_items.as_slice(),
        );
        new_state
    }

    /// Takes the state a step further: sets flags until none is new, then tries out items
    /// for the free locations until all have been placed at least once, or picking them up
    /// opens up a location that could not be reached before.
    pub fn step<W: Traversal>(
        &self,
        world: &W,
        state: &mut RandomizationState<W::Trail>,
        rng: &mut StdRng,
    ) -> (result: Result<SpoilerDetails, Failure>)
        requires
            self.valid(),
            self.may_step(world, old(state)@),
        ensures
            match result {
                Ok(details) => {
                    &&& self.steps(world, old(state)@, final(state)@, details)
                    &&& self.steps_from(
                        world,
                        old(state)@,
                        *old(rng),
                        final(state)@,
                        details,
                        *final(rng),
                    )
                    &&& self.state_ok(final(state)@)
                    &&& final(state)@.done == self.complete(final(state)@.remaining)
                    &&& !final(state)@.done ==> self.stepping(final(state)@)
                    &&& details.step == old(state)@.step_num
                    &&& final(state)@.step_num == old(state)@.step_num
                    &&& unplaced(final(state)@.locations) < unplaced(old(state)@.locations)
                },
                Err(failure) => {
                    &&& self.step_fails(world, old(state)@, final(state)@, failure)
                    &&& self.step_fails_from(
                        world,
                        old(state)@,
                        *old(rng),
                        failure,
                        *final(rng),
                    )
                },
            },
    {
        let ghost start = state@;
        let num_locations: usize = state.item_location_state.len();
        match self.settle_flags(world, state) {
            Ok(_) => {},
            Err(failure) => {
                return Err(failure);
            },
        }
        let ghost s = state@;
        proof {
            self.lemma_settled(world, start, s);
        }
        let (mut unplaced_bireachable, mut unplaced_oneway) = self.list_unplaced(state);
        shuffle(&mut unplaced_bireachable, rng);
        let ghost between = *rng;
        shuffle(&mut unplaced_oneway, rng);
        let ghost bireachable = unplaced_bireachable@;
        let ghost oneway = unplaced_oneway@;
        proof {
            self.lemma_places(s, bireachable, oneway);
            lemma_remaining_is_unplaced(self.initial_items_remaining@, s.remaining, s.locations);
            lemma_unplaced_len(s.locations);
            self.lemma_candidates(s);
        }
        let ghost mut tries: Seq<StateView<W::Trail>> = Seq::empty();
        let ghost mut draw = StepDraw { bireachable, oneway, mixes: Seq::empty() };
        proof {
            self.lemma_draws_places(s, draw, *old(rng), between, *rng);
        }
        let mut attempt_num: usize = 0;
        loop
            invariant
                start == old(state)@,
                s == state@,
                self.valid(),
                self.stepping(s),
                s.locations.len() == num_locations,
                self.settles(world, start, s),
                unplaced(s.locations) == unplaced(start.locations),
                s.step_num == start.step_num,
                bireachable == unplaced_bireachable@,
                oneway == unplaced_oneway@,
                self.choosable(s, bireachable.len() as int, oneway.len() as int),
                bireachable.len() + oneway.len() <= num_locations,
                forall|k: int|
                    0 <= k < (bireachable + oneway).len() ==> (
                    #[trigger] (bireachable + oneway)[k]) < s.locations.len(),
                attempt_num == tries.len(),
                self.has_tried(world, s, bireachable, oneway, tries),
                draw.bireachable == bireachable,
                draw.oneway == oneway,
                draw.mixes.len() == tries.len(),
                self.draws(s, draw, *old(rng), *rng),
                self.has_tried_as_drawn(world, s, draw, tries),
                attempt_num <= self.key_candidates(s).len() <= num_locations,
            decreases self.key_candidates(s).len() - attempt_num,
        {
            let ghost attempt = attempt_num as int;
            let ghost nb = bireachable.len() as int;
            let ghost no = oneway.len() as int;
            if self.overdraws(
                state,
                unplaced_bireachable.len(),
                unplaced_oneway.len(),
                attempt_num,
            ) {
                assert(self.step_fails_from_by(
                    world,
                    start,
                    *old(rng),
                    draw,
                    s,
                    tries,
                    Failure::ItemOverdrawn,
                    *rng,
                ));
                return Err(Failure::ItemOverdrawn);
            }
            let ghost before = *rng;
            let selection: SelectItemsOutput = match self.select_items(
                state,
                unplaced_bireachable.len(),
                unplaced_oneway.len(),
                attempt_num,
                rng,
            ) {
                Some(selection) => selection,
                None => {
                    assert(self.step_fails_from_by(
                        world,
                        start,
                        *old(rng),
                        draw,
                        s,
                        tries,
                        Failure::AttemptsExhausted,
                        *rng,
                    ));
                    return Err(Failure::AttemptsExhausted);
                },
            };
            proof {
                self.lemma_with_selection(s, bireachable, oneway, attempt, selection);
                self.lemma_key_item_count(s, nb, no);
                draw = self.lemma_choice_drawn(
                    world,
                    s,
                    draw,
                    tries,
                    *old(rng),
                    before,
                    selection,
                    *rng,
                );
            }
            let mut new_state: RandomizationState<W::Trail> = self.apply_selection(
                state,
                &unplaced_bireachable,
                &unplaced_oneway,
                selection,
            );
            match self.collect_items(world, &mut new_state) {
                Ok(_) => {},
                Err(failure) => {
                    assert(self.attempt_fails_as_drawn(world, s, draw, attempt, failure));
                    assert(self.step_fails_from_by(
                        world,
                        start,
                        *old(rng),
                        draw,
                        s,
                        tries,
                        failure,
                        *rng,
                    ));
                    return Err(failure);
                },
            }
            let ghost p = new_state@;
            assert(self.tries_selection(world, s, bireachable, oneway, attempt, selection, p));
            assert(self.tries_items(world, s, bireachable, oneway, attempt, p));
            assert(self.tries_as_drawn(world, s, draw, attempt, selection, p));
            proof {
                self.lemma_tries_items(world, s, bireachable, oneway, attempt, p);
            }
            let all_placed: bool = self.is_complete(&new_state.items_remaining);
            if all_placed {
                new_state.done = true;
            } else {
                match self.update_reachability(world, &mut new_state) {
                    Ok(_) => {},
                    Err(failure) => {
                        assert(self.attempt_fails_as_drawn(world, s, draw, attempt, failure));
                        assert(self.step_fails_from_by(
                            world,
                            start,
                            *old(rng),
                            draw,
                            s,
                            tries,
                            failure,
                            *rng,
                        ));
                        return Err(failure);
                    },
                }
            }
            let ghost t = new_state@;
            assert(self.attempts(world, s, bireachable, oneway, attempt, t));
            assert(self.attempts_as_drawn(world, s, draw, attempt, t));
            proof {
                self.lemma_attempts(world, s, bireachable, oneway, attempt, t);
            }
            if all_placed || self.is_opened_up(state, &new_state) {
                proof {
                    assert forall|i: int|
                        0 <= i < s.locations.len() && #[trigger] self.first_found(
                            s,
                            t,
                            i,
                        ) implies {
                        &&& s.debug_data is Some
                        &&& s.global.items.len() >= ITEM_COUNT
                        &&& s.locations[i].bireachable_vertex_id is Some
                    } by {
                        let after = t.locations[i];
                        assert(self.location_ok(i, s.locations[i]));
                    }
                }
                match self.get_spoiler_details(world, state, &new_state) {
                    Some(details) => {
                        assert(self.steps_by(
                            world,
                            start,
                            s,
                            bireachable,
                            oneway,
                            tries,
                            t,
                            details,
                        ));
                        assert(self.steps_from_by(
                            world,
                            start,
                            *old(rng),
                            draw,
                            s,
                            tries,
                            t,
                            details,
                            *rng,
                        ));
                        *state = new_state;
                        return Ok(details);
                    },
                    None => {
                        assert(self.attempt_fails_as_drawn(
                            world,
                            s,
                            draw,
                            attempt,
                            Failure::RouteBlocked,
                        ));
                        assert(self.step_fails_from_by(
                            world,
                            start,
                            *old(rng),
                            draw,
                            s,
                            tries,
                            Failure::RouteBlocked,
                            *rng,
                        ));
                        return Err(Failure::RouteBlocked);
                    },
                }
            }
            proof {
                tries = tries.push(t);
            }
            attempt_num += 1;
        }
    }
}

}
