//! A model that gives the same answer whenever it is asked the same, and what follows of
//! single parts of a step: each comes out in one way only.
use crate::flags::with_flags;
use crate::game_data::{names_view, LinkIdx, Requirement, VertexId};
use crate::items::Item;
use crate::log::law_routes_join;
use crate::placement::{picks_up, pickups, reshapes, same_shape};
use crate::spoiler::amounts_fit;
use crate::state::{
    Randomizer, SpoilerDetails, SpoilerItemDetails, SpoilerRouteEntry, SpoilerStartState,
    StateView,
};
use crate::traverse::{
    may_apply, may_arm, may_bireach, may_collect, may_route, GlobalView, LocalState, Traversal,
    TraverseResult,
};
use vstd::prelude::*;

verus! {

/// Two accounts of a link read the same.
pub open spec fn same_entry(a: SpoilerRouteEntry, b: SpoilerRouteEntry) -> bool {
    &&& a.room@ == b.room@
    &&& a.node@ == b.node@
    &&& a.strat_name@ == b.strat_name@
    &&& a.energy_remaining == b.energy_remaining
    &&& a.reserves_remaining == b.reserves_remaining
    &&& a.missiles_remaining == b.missiles_remaining
    &&& a.supers_remaining == b.supers_remaining
    &&& a.power_bombs_remaining == b.power_bombs_remaining
}

/// Two accounts of a route read the same.
pub open spec fn same_route(a: Seq<SpoilerRouteEntry>, b: Seq<SpoilerRouteEntry>) -> bool {
    &&& a.len() == b.len()
    &&& forall|i: int| 0 <= i < a.len() ==> same_entry(#[trigger] a[i], #[trigger] b[i])
}

/// Two accounts of what the player owns read the same.
pub open spec fn same_start(a: SpoilerStartState, b: SpoilerStartState) -> bool {
    &&& a.max_energy == b.max_energy
    &&& a.max_reserves == b.max_reserves
    &&& a.max_missiles == b.max_missiles
    &&& a.max_supers == b.max_supers
    &&& a.max_power_bombs == b.max_power_bombs
    &&& names_view(a.items@) == names_view(b.items@)
    &&& names_view(a.flags@) == names_view(b.flags@)
}

/// Two accounts of finding an item read the same.
pub open spec fn same_item(a: SpoilerItemDetails, b: SpoilerItemDetails) -> bool {
    &&& a.item@ == b.item@
    &&& a.location.room@ == b.location.room@
    &&& a.location.node@ == b.location.node@
    &&& same_start(a.start_state, b.start_state)
    &&& same_route(a.obtain_route@, b.obtain_route@)
    &&& same_route(a.return_route@, b.return_route@)
}

/// Two accounts of the items of a step read the same.
pub open spec fn same_items(a: Seq<SpoilerItemDetails>, b: Seq<SpoilerItemDetails>) -> bool {
    &&& a.len() == b.len()
    &&& forall|i: int| 0 <= i < a.len() ==> same_item(#[trigger] a[i], #[trigger] b[i])
}

/// Two accounts of a step read the same.
pub open spec fn same_step(a: SpoilerDetails, b: SpoilerDetails) -> bool {
    &&& a.step == b.step
    &&& same_items(a.items@, b.items@)
}

/// Two accounts of an attempt read the same.
pub open spec fn same_log(a: Seq<SpoilerDetails>, b: Seq<SpoilerDetails>) -> bool {
    &&& a.len() == b.len()
    &&& forall|i: int| 0 <= i < a.len() ==> same_step(#[trigger] a[i], #[trigger] b[i])
}

impl<'a> Randomizer<'a> {
    /// The model gives the same answer whenever it is asked the same.
    pub open spec fn steady<W: Traversal>(self, world: &W) -> bool {
        &&& forall|
            global: GlobalView,
            reverse: bool,
            a: TraverseResult<W::Trail>,
            b: TraverseResult<W::Trail>,
        | #[trigger]
            self.may_find(world, global, reverse, a) && #[trigger] self.may_find(
                world,
                global,
                reverse,
                b,
            ) ==> a == b
        &&& forall|
            global: GlobalView,
            forward: Option<LocalState>,
            reverse: Option<LocalState>,
            a: bool,
            b: bool,
        | #[trigger]
            may_bireach(world, global, forward, reverse, a) && #[trigger] may_bireach(
                world,
                global,
                forward,
                reverse,
                b,
            ) ==> a == b
        &&& forall|
            requirement: Requirement,
            global: GlobalView,
            before: LocalState,
            a: Option<LocalState>,
            b: Option<LocalState>,
        | #[trigger]
            may_apply(world, requirement, global, before, a) && #[trigger] may_apply(
                world,
                requirement,
                global,
                before,
                b,
            ) ==> a == b
        &&& forall|
            traversal: TraverseResult<W::Trail>,
            vertex_id: VertexId,
            reverse: bool,
            a: Seq<LinkIdx>,
            b: Seq<LinkIdx>,
        | #[trigger]
            may_route(world, traversal, vertex_id, reverse, a) && #[trigger] may_route(
                world,
                traversal,
                vertex_id,
                reverse,
                b,
            ) ==> a == b
        &&& forall|before: GlobalView, item: Item, a: GlobalView, b: GlobalView| #[trigger]
            may_collect(world, before, item, self.game_data, a) && #[trigger] may_collect(
                world,
                before,
                item,
                self.game_data,
                b,
            ) ==> a == b
        &&& forall|a: usize, b: usize| #[trigger]
            may_arm(world, self.no_items(), self.game_data, a) && #[trigger] may_arm(
                world,
                self.no_items(),
                self.game_data,
                b,
            ) ==> a == b
    }

    pub proof fn lemma_updates_agree<W: Traversal>(
        self,
        world: &W,
        s: StateView<W::Trail>,
        a: StateView<W::Trail>,
        b: StateView<W::Trail>,
    )
        requires
            self.steady(world),
            self.updates(world, s, a),
            self.updates(world, s, b),
        ensures
            a == b,
    {
        let (f, r, x) = choose|
            f: TraverseResult<W::Trail>,
            r: TraverseResult<W::Trail>,
            x: Seq<bool>,
        |
            #[trigger] self.surveyed(world, s.global, f, r, x) && a == self.marked_state(s, f, r, x);
        let (g, q, y) = choose|
            f: TraverseResult<W::Trail>,
            r: TraverseResult<W::Trail>,
            x: Seq<bool>,
        |
            #[trigger] self.surveyed(world, s.global, f, r, x) && b == self.marked_state(s, f, r, x);
        assert(f == g);
        assert(r == q);
        assert(x =~= y) by {
            assert forall|v: int| 0 <= v < x.len() implies x[v] == y[v] by {
                assert(may_bireach(world, s.global, f.local_states@[v], r.local_states@[v], x[v]));
                assert(may_bireach(world, s.global, f.local_states@[v], r.local_states@[v], y[v]));
            }
        }
    }

    /// A survey that covers every vertex does not fall short.
    pub proof fn lemma_updates_not_short<W: Traversal>(
        self,
        world: &W,
        s: StateView<W::Trail>,
        t: StateView<W::Trail>,
    )
        requires
            self.steady(world),
            self.updates(world, s, t),
        ensures
            !self.falls_short(world, s.global),
    {
        if self.falls_short(world, s.global) {
            let (reverse, found) = choose|reverse: bool, found: TraverseResult<W::Trail>|
                {
                    &&& #[trigger] self.may_find(world, s.global, reverse, found)
                    &&& found.local_states@.len() < self.game_data.num_vertices()
                };
            let (f, r, x) = choose|
                f: TraverseResult<W::Trail>,
                r: TraverseResult<W::Trail>,
                x: Seq<bool>,
            |
                #[trigger] self.surveyed(world, s.global, f, r, x) && t == self.marked_state(
                    s,
                    f,
                    r,
                    x,
                );
            assert(self.may_find(world, s.global, false, f));
            assert(self.may_find(world, s.global, true, r));
            if reverse {
                assert(found == r);
            } else {
                assert(found == f);
            }
        }
    }

    proof fn lemma_rounds_agree<W: Traversal>(
        self,
        world: &W,
        x: Seq<StateView<W::Trail>>,
        y: Seq<StateView<W::Trail>>,
        n: int,
    )
        requires
            self.steady(world),
            self.flag_rounds(world, x),
            self.flag_rounds(world, y),
            x[0] == y[0],
            0 <= n < x.len(),
            n < y.len(),
        ensures
            x[n] == y[n],
        decreases n,
    {
        if n > 0 {
            self.lemma_rounds_agree(world, x, y, n - 1);
            let before = x[n - 1];
            let flagged = with_flags(before, self.flags_acquired(before));
            assert(self.updates(world, flagged, x[n - 1 + 1]));
            assert(y[n - 1] == before);
            assert(self.updates(world, flagged, y[n - 1 + 1]));
            self.lemma_updates_agree(world, flagged, x[n], y[n]);
        }
    }

    pub proof fn lemma_settles_agree<W: Traversal>(
        self,
        world: &W,
        s: StateView<W::Trail>,
        a: StateView<W::Trail>,
        b: StateView<W::Trail>,
    )
        requires
            self.steady(world),
            self.settles(world, s, a),
            self.settles(world, s, b),
        ensures
            a == b,
    {
        let x = choose|rounds: Seq<StateView<W::Trail>>|
            {
                &&& #[trigger] self.flag_rounds(world, rounds)
                &&& rounds.first() == s
                &&& rounds.last() == a
                &&& self.flags_acquired(a) == a.global.flags
            };
        let y = choose|rounds: Seq<StateView<W::Trail>>|
            {
                &&& #[trigger] self.flag_rounds(world, rounds)
                &&& rounds.first() == s
                &&& rounds.last() == b
                &&& self.flags_acquired(b) == b.global.flags
            };
        if x.len() <= y.len() {
            self.lemma_rounds_agree(world, x, y, x.len() - 1);
            assert(y[x.len() - 1] == a);
        } else {
            self.lemma_rounds_agree(world, x, y, y.len() - 1);
            assert(x[y.len() - 1] == b);
        }
    }

    /// Flags that settle do not fail to settle.
    pub proof fn lemma_settles_not_fails<W: Traversal>(
        self,
        world: &W,
        s: StateView<W::Trail>,
        a: StateView<W::Trail>,
        b: StateView<W::Trail>,
    )
        requires
            self.steady(world),
            self.settles(world, s, a),
        ensures
            !self.settling_fails(world, s, b),
    {
        if self.settling_fails(world, s, b) {
            let x = choose|rounds: Seq<StateView<W::Trail>>|
                {
                    &&& #[trigger] self.flag_rounds(world, rounds)
                    &&& rounds.first() == s
                    &&& rounds.last() == a
                    &&& self.flags_acquired(a) == a.global.flags
                };
            let y = choose|rounds: Seq<StateView<W::Trail>>|
                {
                    &&& #[trigger] self.flag_rounds(world, rounds)
                    &&& rounds.first() == s
                    &&& b == with_flags(rounds.last(), self.flags_acquired(rounds.last()))
                    &&& b.global.flags != rounds.last().global.flags
                    &&& self.falls_short(world, b.global)
                };
            if x.len() <= y.len() {
                self.lemma_rounds_agree(world, x, y, x.len() - 1);
                assert(y[x.len() - 1] == a);
            } else {
                let n = y.len() - 1;
                self.lemma_rounds_agree(world, x, y, n);
                assert(x[n] == y.last());
                assert(self.updates(world, b, x[n + 1]));
                self.lemma_updates_not_short(world, b, x[n + 1]);
            }
        }
    }

    proof fn lemma_pickups_agree<W: Traversal>(
        self,
        world: &W,
        items: Seq<Item>,
        more: Seq<Item>,
        x: Seq<GlobalView>,
        y: Seq<GlobalView>,
        n: int,
    )
        requires
            self.steady(world),
            pickups(world, self.game_data, items, x),
            pickups(world, self.game_data, more, y),
            x[0] == y[0],
            0 <= n <= items.len() <= more.len(),
            more.take(items.len() as int) == items,
        ensures
            x[n] == y[n],
        decreases n,
    {
        if n > 0 {
            self.lemma_pickups_agree(world, items, more, x, y, n - 1);
            assert(items[n - 1] == more[n - 1]);
            assert(may_collect(world, x[n - 1], items[n - 1], self.game_data, x[n - 1 + 1]));
            assert(may_collect(world, y[n - 1], more[n - 1], self.game_data, y[n - 1 + 1]));
        }
    }

    pub proof fn lemma_picks_up_agree<W: Traversal>(
        self,
        world: &W,
        before: GlobalView,
        items: Seq<Item>,
        a: GlobalView,
        b: GlobalView,
    )
        requires
            self.steady(world),
            picks_up(world, self.game_data, before, items, a),
            picks_up(world, self.game_data, before, items, b),
        ensures
            a == b,
    {
        let x = choose|globals: Seq<GlobalView>|
            {
                &&& #[trigger] pickups(world, self.game_data, items, globals)
                &&& globals.first() == before
                &&& globals.last() == a
            };
        let y = choose|globals: Seq<GlobalView>|
            {
                &&& #[trigger] pickups(world, self.game_data, items, globals)
                &&& globals.first() == before
                &&& globals.last() == b
            };
        assert(items.take(items.len() as int) =~= items);
        self.lemma_pickups_agree(world, items, items, x, y, items.len() as int);
    }

    /// Items that are picked up do not change the number of items or flags on the way.
    pub proof fn lemma_picks_up_not_reshapes<W: Traversal>(
        self,
        world: &W,
        before: GlobalView,
        items: Seq<Item>,
        a: GlobalView,
    )
        requires
            self.steady(world),
            picks_up(world, self.game_data, before, items, a),
        ensures
            !reshapes(world, self.game_data, before, items),
    {
        if reshapes(world, self.game_data, before, items) {
            let (n, between, after) = choose|n: int, between: GlobalView, after: GlobalView|
                {
                    &&& 0 <= n < items.len()
                    &&& #[trigger] picks_up(world, self.game_data, before, items.take(n), between)
                    &&& #[trigger] may_collect(world, between, items[n], self.game_data, after)
                    &&& !same_shape(between, after)
                };
            let x = choose|globals: Seq<GlobalView>|
                {
                    &&& #[trigger] pickups(world, self.game_data, items.take(n), globals)
                    &&& globals.first() == before
                    &&& globals.last() == between
                };
            let y = choose|globals: Seq<GlobalView>|
                {
                    &&& #[trigger] pickups(world, self.game_data, items, globals)
                    &&& globals.first() == before
                    &&& globals.last() == a
                };
            self.lemma_pickups_agree(world, items.take(n), items, x, y, n);
            assert(y[n] == between);
            assert(may_collect(world, y[n], items[n], self.game_data, y[n + 1]));
            assert(same_shape(y[n], y[n + 1]));
        }
    }

    proof fn lemma_follows_agree<W: Traversal>(
        self,
        world: &W,
        global: GlobalView,
        a: Seq<LinkIdx>,
        b: Seq<LinkIdx>,
        x: Seq<LocalState>,
        y: Seq<LocalState>,
        n: int,
    )
        requires
            self.steady(world),
            self.follows(world, global, a, x),
            self.follows(world, global, b, y),
            x[0] == y[0],
            0 <= n <= a.len() <= b.len(),
            b.take(a.len() as int) == a,
        ensures
            x[n] == y[n],
        decreases n,
    {
        if n > 0 {
            self.lemma_follows_agree(world, global, a, b, x, y, n - 1);
            assert(a[n - 1] == b[n - 1]);
            let requirement = self.links@[a[n - 1] as int].requirement;
            assert(may_apply(world, requirement, global, x[n - 1], Some(x[n - 1 + 1])));
            assert(may_apply(world, requirement, global, y[n - 1], Some(y[n - 1 + 1])));
        }
    }

    /// A route that is followed to its end is not blocked.
    proof fn lemma_follows_not_blocked<W: Traversal>(
        self,
        world: &W,
        global: GlobalView,
        link_idxs: Seq<LinkIdx>,
        locals: Seq<LocalState>,
        last: LocalState,
    )
        requires
            self.steady(world),
            self.follows(world, global, link_idxs, locals),
        ensures
            !self.route_blocked(world, global, link_idxs, locals.first(), last),
    {
        if self.route_blocked(world, global, link_idxs, locals.first(), last) {
            let (n, x) = choose|n: int, x: Seq<LocalState>|
                {
                    &&& 0 <= n < link_idxs.len()
                    &&& #[trigger] self.follows(world, global, link_idxs.take(n), x)
                    &&& x.first() == locals.first()
                    &&& x.last() == last
                    &&& self.link_blocked(world, global, link_idxs[n], last)
                };
            self.lemma_follows_agree(world, global, link_idxs.take(n), link_idxs, x, locals, n);
            assert(locals[n] == last);
            assert(link_idxs[n] < self.links@.len());
            let requirement = self.links@[link_idxs[n] as int].requirement;
            assert(may_apply(world, requirement, global, locals[n], Some(locals[n + 1])));
            assert(amounts_fit(global, locals[n], locals[n + 1]));
        }
    }
}

/// With a steady model a route is told in one way: from the same start it spends the same, the
/// accounts read the same, and it is not blocked as well.
pub proof fn law_a_route_is_told_in_one_way<W: Traversal>(
    randomizer: Randomizer,
    world: &W,
    global: GlobalView,
    link_idxs: Seq<LinkIdx>,
    x: Seq<LocalState>,
    y: Seq<LocalState>,
    route_x: Seq<SpoilerRouteEntry>,
    route_y: Seq<SpoilerRouteEntry>,
    last: LocalState,
)
    requires
        randomizer.steady(world),
        randomizer.follows(world, global, link_idxs, x),
        randomizer.follows(world, global, link_idxs, y),
        x.first() == y.first(),
        randomizer.tells_route(route_x, global, link_idxs, x),
        randomizer.tells_route(route_y, global, link_idxs, y),
    ensures
        x == y,
        same_route(route_x, route_y),
        !randomizer.route_blocked(world, global, link_idxs, x.first(), last),
{
    assert(link_idxs.take(link_idxs.len() as int) =~= link_idxs);
    assert forall|n: int| 0 <= n < x.len() implies x[n] == y[n] by {
        randomizer.lemma_follows_agree(world, global, link_idxs, link_idxs, x, y, n);
    }
    assert(x =~= y);
    assert forall|i: int| 0 <= i < route_x.len() implies same_entry(
        #[trigger] route_x[i],
        #[trigger] route_y[i],
    ) by {
        let link = randomizer.links@[link_idxs[i] as int];
        assert(randomizer.tells_link(route_x[i], global, link, x[i], x[i + 1]));
        assert(randomizer.tells_link(route_y[i], global, link, y[i], y[i + 1]));
    }
    randomizer.lemma_follows_not_blocked(world, global, link_idxs, x, last);
}

/// With a steady model telling two routes one after the other reads the same as telling their
/// concatenation, and spends the same.
pub proof fn law_joined_routes_read_the_same<W: Traversal>(
    randomizer: Randomizer,
    world: &W,
    global: GlobalView,
    a: Seq<LinkIdx>,
    b: Seq<LinkIdx>,
    x: Seq<LocalState>,
    y: Seq<LocalState>,
    z: Seq<LocalState>,
    route_a: Seq<SpoilerRouteEntry>,
    route_b: Seq<SpoilerRouteEntry>,
    route: Seq<SpoilerRouteEntry>,
)
    requires
        randomizer.steady(world),
        randomizer.follows(world, global, a, x),
        randomizer.follows(world, global, b, y),
        y.first() == x.last(),
        randomizer.tells_route(route_a, global, a, x),
        randomizer.tells_route(route_b, global, b, y),
        randomizer.follows(world, global, a + b, z),
        z.first() == x.first(),
        randomizer.tells_route(route, global, a + b, z),
    ensures
        z.last() == y.last(),
        same_route(route, route_a + route_b),
{
    law_routes_join(randomizer, world, global, a, b, x, y, route_a, route_b);
    law_a_route_is_told_in_one_way(
        randomizer,
        world,
        global,
        a + b,
        z,
        x + y.skip(1),
        route,
        route_a + route_b,
        z.last(),
    );
}

impl<'a> Randomizer<'a> {
    proof fn lemma_tells_item_agree<W: Traversal>(
        self,
        world: &W,
        s: StateView<W::Trail>,
        t: StateView<W::Trail>,
        i: int,
        a: SpoilerItemDetails,
        b: SpoilerItemDetails,
    )
        requires
            self.steady(world),
            self.tells_item(world, s, t, i, a),
            self.tells_item(world, s, t, i, b),
        ensures
            same_item(a, b),
    {
        let vertex_id = s.locations[i].bireachable_vertex_id->0;
        let (there, back, going, returning) = choose|
            there: Seq<LinkIdx>,
            back: Seq<LinkIdx>,
            going: Seq<LocalState>,
            returning: Seq<LocalState>,
        |
            {
                &&& may_route(world, (s.debug_data->0).forward, vertex_id, false, there)
                &&& may_route(world, (s.debug_data->0).reverse, vertex_id, true, back)
                &&& #[trigger] self.follows(world, s.global, there, going)
                &&& #[trigger] self.follows(world, s.global, back, returning)
                &&& going.first() == LocalState::fresh()
                &&& returning.first() == going.last()
                &&& self.tells_route(a.obtain_route@, s.global, there, going)
                &&& self.tells_route(a.return_route@, s.global, back, returning)
            };
        let (there_b, back_b, going_b, returning_b) = choose|
            there: Seq<LinkIdx>,
            back: Seq<LinkIdx>,
            going: Seq<LocalState>,
            returning: Seq<LocalState>,
        |
            {
                &&& may_route(world, (s.debug_data->0).forward, vertex_id, false, there)
                &&& may_route(world, (s.debug_data->0).reverse, vertex_id, true, back)
                &&& #[trigger] self.follows(world, s.global, there, going)
                &&& #[trigger] self.follows(world, s.global, back, returning)
                &&& going.first() == LocalState::fresh()
                &&& returning.first() == going.last()
                &&& self.tells_route(b.obtain_route@, s.global, there, going)
                &&& self.tells_route(b.return_route@, s.global, back, returning)
            };
        assert(there == there_b);
        assert(back == back_b);
        law_a_route_is_told_in_one_way(
            self,
            world,
            s.global,
            there,
            going,
            going_b,
            a.obtain_route@,
            b.obtain_route@,
            LocalState::fresh(),
        );
        law_a_route_is_told_in_one_way(
            self,
            world,
            s.global,
            back,
            returning,
            returning_b,
            a.return_route@,
            b.return_route@,
            LocalState::fresh(),
        );
        assert(names_view(a.start_state.flags@) =~= names_view(b.start_state.flags@));
    }

    /// The routes of an item that is told of are not blocked.
    proof fn lemma_tells_item_not_blocked<W: Traversal>(
        self,
        world: &W,
        s: StateView<W::Trail>,
        t: StateView<W::Trail>,
        i: int,
        details: SpoilerItemDetails,
    )
        requires
            self.steady(world),
            self.tells_item(world, s, t, i, details),
        ensures
            !self.item_blocked(world, s, i),
    {
        let vertex_id = s.locations[i].bireachable_vertex_id->0;
        let (there, back, going, returning) = choose|
            there: Seq<LinkIdx>,
            back: Seq<LinkIdx>,
            going: Seq<LocalState>,
            returning: Seq<LocalState>,
        |
            {
                &&& may_route(world, (s.debug_data->0).forward, vertex_id, false, there)
                &&& may_route(world, (s.debug_data->0).reverse, vertex_id, true, back)
                &&& #[trigger] self.follows(world, s.global, there, going)
                &&& #[trigger] self.follows(world, s.global, back, returning)
                &&& going.first() == LocalState::fresh()
                &&& returning.first() == going.last()
                &&& self.tells_route(details.obtain_route@, s.global, there, going)
                &&& self.tells_route(details.return_route@, s.global, back, returning)
            };
        assert forall|other: Seq<LinkIdx>, last: LocalState|
            may_route(
                world,
                (s.debug_data->0).forward,
                vertex_id,
                false,
                other,
            ) implies !#[trigger] self.route_blocked(
            world,
            s.global,
            other,
            LocalState::fresh(),
            last,
        ) by {
            assert(other == there);
            self.lemma_follows_not_blocked(world, s.global, there, going, last);
        }
        assert forall|
            other: Seq<LinkIdx>,
            gone: Seq<LocalState>,
            other_back: Seq<LinkIdx>,
            last: LocalState,
        |
            {
                &&& may_route(world, (s.debug_data->0).forward, vertex_id, false, other)
                &&& #[trigger] self.follows(world, s.global, other, gone)
                &&& gone.first() == LocalState::fresh()
                &&& may_route(world, (s.debug_data->0).reverse, vertex_id, true, other_back)
            } implies !#[trigger] self.route_blocked(
            world,
            s.global,
            other_back,
            gone.last(),
            last,
        ) by {
            assert(other == there);
            assert(other_back == back);
            assert(there.take(there.len() as int) =~= there);
            self.lemma_follows_agree(
                world,
                s.global,
                there,
                there,
                going,
                gone,
                there.len() as int,
            );
            self.lemma_follows_not_blocked(world, s.global, back, returning, last);
        }
    }

    pub proof fn lemma_tells_items_agree<W: Traversal>(
        self,
        world: &W,
        s: StateView<W::Trail>,
        t: StateView<W::Trail>,
        n: nat,
        a: Seq<SpoilerItemDetails>,
        b: Seq<SpoilerItemDetails>,
    )
        requires
            self.steady(world),
            self.tells_items(world, s, t, n, a),
            self.tells_items(world, s, t, n, b),
        ensures
            same_items(a, b),
        decreases n,
    {
        if n > 0 {
            if self.first_found(s, t, n - 1) {
                self.lemma_tells_items_agree(
                    world,
                    s,
                    t,
                    (n - 1) as nat,
                    a.drop_last(),
                    b.drop_last(),
                );
                self.lemma_tells_item_agree(world, s, t, n - 1, a.last(), b.last());
                assert forall|i: int| 0 <= i < a.len() implies same_item(
                    #[trigger] a[i],
                    #[trigger] b[i],
                ) by {
                    if i < a.len() - 1 {
                        assert(same_item(a.drop_last()[i], b.drop_last()[i]));
                    }
                }
            } else {
                self.lemma_tells_items_agree(world, s, t, (n - 1) as nat, a, b);
            }
        }
    }

    /// The routes of what a step tells of are not blocked.
    pub proof fn lemma_tells_items_not_blocked<W: Traversal>(
        self,
        world: &W,
        s: StateView<W::Trail>,
        t: StateView<W::Trail>,
        n: nat,
        items: Seq<SpoilerItemDetails>,
        i: int,
    )
        requires
            self.steady(world),
            self.tells_items(world, s, t, n, items),
            0 <= i < n,
            self.first_found(s, t, i),
        ensures
            !self.item_blocked(world, s, i),
        decreases n,
    {
        if i == n - 1 {
            self.lemma_tells_item_not_blocked(world, s, t, i, items.last());
        } else if self.first_found(s, t, n - 1) {
            self.lemma_tells_items_not_blocked(
                world,
                s,
                t,
                (n - 1) as nat,
                items.drop_last(),
                i,
            );
        } else {
            self.lemma_tells_items_not_blocked(world, s, t, (n - 1) as nat, items, i);
        }
    }
}

}
