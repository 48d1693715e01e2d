//! Which item locations and flags can be reached, and which can also be left again.
use crate::counting::{conserved, lemma_same_items};
use crate::game_data::VertexId;
use crate::items::ITEM_COUNT;
use crate::state::{
    listed, start_key, DebugData, Failure, ItemLocationState, RandomizationState, Randomizer,
    StateView,
};
use crate::traverse::{
    may_bireach, may_traverse, GlobalState, GlobalView, LocalState, Traversal, TraverseResult,
};
use vstd::prelude::*;

verus! {

/// One of the vertices has been reached.
pub open spec fn any_found(vertices: Seq<VertexId>, found: Seq<Option<LocalState>>) -> bool {
    exists|j: int| 0 <= j < vertices.len() && found[#[trigger] vertices[j] as int] is Some
}

/// One of the vertices can be reached and left again.
pub open spec fn any_left(vertices: Seq<VertexId>, bireachable: Seq<bool>) -> bool {
    exists|j: int| 0 <= j < vertices.len() && bireachable[#[trigger] vertices[j] as int]
}

/// The first of the vertices that has been reached and can be left again.
pub open spec fn first_gate(
    vertices: Seq<VertexId>,
    found: Seq<Option<LocalState>>,
    bireachable: Seq<bool>,
) -> Option<VertexId>
    decreases vertices.len(),
{
    if vertices.len() == 0 {
        None
    } else {
        match first_gate(vertices.drop_last(), found, bireachable) {
            Some(v) => Some(v),
            None => {
                let v = vertices.last();
                if found[v as int] is Some && bireachable[v as int] {
                    Some(v)
                } else {
                    None
                }
            },
        }
    }
}

/// What is known of a location once its vertices have been looked at. Nothing that was
/// known before is taken back.
pub open spec fn marked(
    location: ItemLocationState,
    vertices: Seq<VertexId>,
    found: Seq<Option<LocalState>>,
    bireachable: Seq<bool>,
) -> ItemLocationState {
    let gate = first_gate(vertices, found, bireachable);
    ItemLocationState {
        reachable: location.reachable || any_found(vertices, found),
        bireachable: location.bireachable || gate is Some,
        bireachable_vertex_id: if !location.bireachable && gate is Some {
            gate
        } else {
            location.bireachable_vertex_id
        },
        ..location
    }
}

impl<'a> Randomizer<'a> {
    /// The answers to traversing the links in one direction.
    pub open spec fn may_find<W: Traversal>(
        self,
        world: &W,
        global: GlobalView,
        reverse: bool,
        found: TraverseResult<W::Trail>,
    ) -> bool {
        may_traverse(
            world,
            &self.links,
            global,
            self.game_data.vertex_isv.keys.len(),
            self.game_data.vertex_isv.position(start_key()),
            reverse,
            self.game_data,
            found,
        )
    }

    /// Traversals in both directions, and which vertices can be reached and left again.
    pub open spec fn surveyed<W: Traversal>(
        self,
        world: &W,
        global: GlobalView,
        forward: TraverseResult<W::Trail>,
        reverse: TraverseResult<W::Trail>,
        bireachable: Seq<bool>,
    ) -> bool {
        &&& self.may_find(world, global, false, forward)
        &&& self.may_find(world, global, true, reverse)
        &&& forward.local_states@.len() >= self.game_data.num_vertices()
        &&& reverse.local_states@.len() >= self.game_data.num_vertices()
        &&& bireachable.len() == self.game_data.num_vertices()
        &&& forall|v: int|
            0 <= v < bireachable.len() ==> may_bireach(
                world,
                global,
                forward.local_states@[v],
                reverse.local_states@[v],
                #[trigger] bireachable[v],
            )
    }

    /// A traversal lacks an entry for some vertex.
    pub open spec fn falls_short<W: Traversal>(self, world: &W, global: GlobalView) -> bool {
        exists|reverse: bool, found: TraverseResult<W::Trail>|
            {
                &&& #[trigger] self.may_find(world, global, reverse, found)
                &&& found.local_states@.len() < self.game_data.num_vertices()
            }
    }

    /// The state once every location and flag has been looked at.
    pub open spec fn marked_state<T>(
        self,
        s: StateView<T>,
        forward: TraverseResult<T>,
        reverse: TraverseResult<T>,
        bireachable: Seq<bool>,
    ) -> StateView<T> {
        StateView {
            locations: Seq::new(
                s.locations.len(),
                |i: int|
                    marked(
                        s.locations[i],
                        listed(self.game_data.item_vertex_ids@, i),
                        forward.local_states@,
                        bireachable,
                    ),
            ),
            flag_bireachable: Seq::new(
                s.flag_bireachable.len(),
                |i: int|
                    s.flag_bireachable[i] || any_left(
                        listed(self.game_data.flag_vertex_ids@, i),
                        bireachable,
                    ),
            ),
            debug_data: Some(DebugData { forward, reverse }),
            ..s
        }
    }

    /// `t` is what a state may become by looking at what can be reached.
    pub open spec fn updates<W: Traversal>(
        self,
        world: &W,
        s: StateView<W::Trail>,
        t: StateView<W::Trail>,
    ) -> bool {
        exists|
            forward: TraverseResult<W::Trail>,
            reverse: TraverseResult<W::Trail>,
            bireachable: Seq<bool>,
        |
            {
                &&& #[trigger] self.surveyed(world, s.global, forward, reverse, bireachable)
                &&& t == self.marked_state(s, forward, reverse, bireachable)
            }
    }

    /// There is an entry for every item location and every flag location.
    pub open spec fn sized<T>(self, s: StateView<T>) -> bool {
        &&& s.locations.len() == self.game_data.item_locations@.len()
        &&& s.flag_bireachable.len() == self.game_data.flag_locations@.len()
    }

    /// What is known of the location with number `i` hangs together. The vertex that is
    /// remembered is one of those at which the location can be reached.
    pub open spec fn location_ok(self, i: int, location: ItemLocationState) -> bool {
        &&& location.collected ==> location.bireachable && location.placed_item is Some
        &&& location.placed_item is Some ==> location.reachable
        &&& location.bireachable ==> location.reachable
        &&& location.bireachable <==> location.bireachable_vertex_id is Some
        &&& location.bireachable_vertex_id matches Some(v) ==> listed(
            self.game_data.item_vertex_ids@,
            i,
        ).contains(v)
    }

    /// The validity of a state.
    pub open spec fn state_ok<T>(self, s: StateView<T>) -> bool {
        &&& self.sized(s)
        &&& self.stocked(s)
        &&& conserved(self.initial_items_remaining@, s.remaining, s.locations)
        &&& s.global.items.len() == ITEM_COUNT
        &&& s.global.flags.len() == self.game_data.flag_isv.keys@.len()
        &&& forall|i: int|
            0 <= i < s.locations.len() ==> self.location_ok(i, #[trigger] s.locations[i])
    }

    /// Looks at every vertex in both directions.
    fn survey<W: Traversal>(&self, world: &W, global: &GlobalState) -> (survey: Result<
        (TraverseResult<W::Trail>, TraverseResult<W::Trail>, Vec<bool>),
        Failure,
    >)
        requires
            self.game_data.vertex_isv.has(start_key()),
        ensures
            match survey {
                Ok((forward, reverse, bireachable)) => self.surveyed(
                    world,
                    global@,
                    forward,
                    reverse,
                    bireachable@,
                ),
                Err(failure) => failure == Failure::TraversalTooShort && self.falls_short(
                    world,
                    global@,
                ),
            },
    {
        let num_vertices: usize = self.game_data.vertex_isv.keys.len();
        let start_vertex_id: VertexId = self.game_data.vertex_isv.index_by_key((8, 5, 0)).unwrap();
        let forward: TraverseResult<W::Trail> = world.traverse(
            &self.links,
            global,
            num_vertices,
            start_vertex_id,
            false,
            self.game_data,
        );
        assert(self.may_find(world, global@, false, forward));
        let reverse: TraverseResult<W::Trail> = world.traverse(
            &self.links,
            global,
            num_vertices,
            start_vertex_id,
            true,
            self.game_data,
        );
        assert(self.may_find(world, global@, true, reverse));
        if forward.local_states.len() < num_vertices || reverse.local_states.len() < num_vertices {
            return Err(Failure::TraversalTooShort);
        }
        let mut bireachable: Vec<bool> = Vec::new();
        let mut v: usize = 0;
        while v < num_vertices
            invariant
                v <= num_vertices,
                num_vertices <= forward.local_states@.len(),
                num_vertices <= reverse.local_states@.len(),
                bireachable@.len() == v,
                forall|u: int|
                    0 <= u < v ==> may_bireach(
                        world,
                        global@,
                        forward.local_states@[u],
                        reverse.local_states@[u],
                        #[trigger] bireachable@[u],
                    ),
            decreases num_vertices - v,
        {
            let yes: bool = world.is_bireachable(
                global,
                &forward.local_states[v],
                &reverse.local_states[v],
            );
            assert(may_bireach(
                world,
                global@,
                forward.local_states@[v as int],
                reverse.local_states@[v as int],
                yes,
            ));
            bireachable.push(yes);
            v += 1;
        }
        Ok((forward, reverse, bireachable))
    }

    /// Notes what two traversals say of the locations and flags. `bireachable` tells for
    /// every vertex whether it can be reached and left again.
    pub fn mark_reachability<T>(
        &self,
        state: &mut RandomizationState<T>,
        forward: TraverseResult<T>,
        reverse: TraverseResult<T>,
        bireachable: &Vec<bool>,
    )
        requires
            self.game_data.playable(),
            self.sized(old(state)@),
            forward.local_states@.len() >= self.game_data.num_vertices(),
            bireachable@.len() == self.game_data.num_vertices(),
        ensures
            final(state)@ == self.marked_state(old(state)@, forward, reverse, bireachable@),
    {
        let ghost start = state@;
        let ghost found = forward.local_states@;
        let mut i: usize = 0;
        while i < self.game_data.item_vertex_ids.len()
            invariant
                i <= self.game_data.item_vertex_ids@.len(),
                self.game_data.playable(),
                self.sized(start),
                found == forward.local_states@,
                found.len() >= self.game_data.num_vertices(),
                bireachable@.len() == self.game_data.num_vertices(),
                state@ == (StateView { locations: state@.locations, ..start }),
                state@.locations.len() == start.locations.len(),
                forall|k: int|
                    0 <= k < i ==> (#[trigger] state@.locations[k]) == marked(
                        start.locations[k],
                        self.game_data.item_vertex_ids@[k]@,
                        found,
                        bireachable@,
                    ),
                forall|k: int|
                    i <= k < start.locations.len() ==> (#[trigger] state@.locations[k])
                        == start.locations[k],
            decreases self.game_data.item_vertex_ids@.len() - i,
        {
            let vertices: &Vec<VertexId> = &self.game_data.item_vertex_ids[i];
            let ghost before = start.locations[i as int];
            let mut location: ItemLocationState = state.item_location_state[i];
            let mut j: usize = 0;
            while j < vertices.len()
                invariant
                    i < self.game_data.item_vertex_ids@.len(),
                    vertices == self.game_data.item_vertex_ids@[i as int],
                    j <= vertices@.len(),
                    self.game_data.playable(),
                    found == forward.local_states@,
                    found.len() >= self.game_data.num_vertices(),
                    bireachable@.len() == self.game_data.num_vertices(),
                    location == marked(before, vertices@.take(j as int), found, bireachable@),
                decreases vertices@.len() - j,
            {
                let v: VertexId = vertices[j];
                assert(self.game_data.item_vertex_ids@[i as int]@[j as int] == v);
                let ghost seen = vertices@.take(j as int);
                let ghost more = vertices@.take(j as int + 1);
                assert(more.drop_last() =~= seen);
                assert(more =~= seen.push(v));
                proof {
                    assert forall|k: int| 0 <= k < more.len() && found[more[k] as int]
                        is Some implies any_found(seen, found) || found[v as int] is Some by {
                        if k < seen.len() {
                            assert(seen[k] == more[k]);
                        }
                    }
                    if any_found(seen, found) {
                        let k = choose|k: int|
                            0 <= k < seen.len() && found[#[trigger] seen[k] as int] is Some;
                        assert(more[k] == seen[k]);
                    }
                    assert(more[j as int] == v);
                    assert(any_found(more, found) == (any_found(seen, found) || found[v as int]
                        is Some));
                }
                if forward.local_states[v].is_some() {
                    location.reachable = true;
                    if !location.bireachable && bireachable[v] {
                        location.bireachable = true;
                        location.bireachable_vertex_id = Some(v);
                    }
                }
                j += 1;
            }
            assert(vertices@.take(j as int) =~= vertices@);
            state.item_location_state.set(i, location);
            i += 1;
        }
        assert forall|k: int| i <= k < start.locations.len() implies marked(
            start.locations[k],
            listed(self.game_data.item_vertex_ids@, k),
            found,
            bireachable@,
        ) == start.locations[k] by {}
        let ghost locations = state@.locations;
        let mut f: usize = 0;
        while f < self.game_data.flag_vertex_ids.len()
            invariant
                f <= self.game_data.flag_vertex_ids@.len(),
                self.game_data.playable(),
                self.sized(start),
                bireachable@.len() == self.game_data.num_vertices(),
                state@ == (StateView {
                    locations,
                    flag_bireachable: state@.flag_bireachable,
                    ..start
                }),
                state@.flag_bireachable.len() == start.flag_bireachable.len(),
                forall|k: int|
                    0 <= k < f ==> (#[trigger] state@.flag_bireachable[k]) == (
                    start.flag_bireachable[k] || any_left(
                        self.game_data.flag_vertex_ids@[k]@,
                        bireachable@,
                    )),
                forall|k: int|
                    f <= k < start.flag_bireachable.len() ==> (
                    #[trigger] state@.flag_bireachable[k]) == start.flag_bireachable[k],
            decreases self.game_data.flag_vertex_ids@.len() - f,
        {
            let vertices: &Vec<VertexId> = &self.game_data.flag_vertex_ids[f];
            let mut yes: bool = state.flag_bireachable[f];
            let mut j: usize = 0;
            while j < vertices.len()
                invariant
                    f < self.game_data.flag_vertex_ids@.len(),
                    vertices == self.game_data.flag_vertex_ids@[f as int],
                    j <= vertices@.len(),
                    self.game_data.playable(),
                    bireachable@.len() == self.game_data.num_vertices(),
                    yes == (start.flag_bireachable[f as int] || exists|k: int|
                        0 <= k < j && bireachable@[#[trigger] vertices@[k] as int]),
                decreases vertices@.len() - j,
            {
                let v: VertexId = vertices[j];
                assert(self.game_data.flag_vertex_ids@[f as int]@[j as int] == v);
                if bireachable[v] {
                    yes = true;
                }
                j += 1;
            }
            state.flag_bireachable.set(f, yes);
            f += 1;
        }
        state.debug_data = Some(DebugData { forward, reverse });
        assert(state@.locations =~= self.marked_state(
            start,
            forward,
            reverse,
            bireachable@,
        ).locations);
        assert(state@.flag_bireachable =~= self.marked_state(
            start,
            forward,
            reverse,
            bireachable@,
        ).flag_bireachable);
    }

    /// Finds out what can be reached with what the player owns. The state stays as it was
    /// if a traversal does not cover every vertex.
    pub fn update_reachability<W: Traversal>(
        &self,
        world: &W,
        state: &mut RandomizationState<W::Trail>,
    ) -> (result: Result<(), Failure>)
        requires
            self.game_data.playable(),
            self.sized(old(state)@),
        ensures
            match result {
                Ok(_) => self.updates(world, old(state)@, final(state)@),
                Err(failure) => {
                    &&& failure == Failure::TraversalTooShort
                    &&& self.falls_short(world, old(state)@.global)
                    &&& final(state)@ == old(state)@
                },
            },
    {
        match self.survey(world, &state.global_state) {
            Ok((forward, reverse, bireachable)) => {
                self.mark_reachability(state, forward, reverse, &bireachable);
                Ok(())
            },
            Err(failure) => Err(failure),
        }
    }
}

/// A gate is one of the vertices, and one that has been reached.
pub proof fn lemma_first_gate(
    vertices: Seq<VertexId>,
    found: Seq<Option<LocalState>>,
    bireachable: Seq<bool>,
)
    ensures
        first_gate(vertices, found, bireachable) matches Some(v) ==> {
            &&& vertices.contains(v)
            &&& found[v as int] is Some
            &&& bireachable[v as int]
            &&& any_found(vertices, found)
        },
        first_gate(vertices, found, bireachable) is None ==> forall|j: int|
            0 <= j < vertices.len() ==> !(found[#[trigger] vertices[j] as int] is Some
                && bireachable[vertices[j] as int]),
    decreases vertices.len(),
{
    if vertices.len() > 0 {
        let rest = vertices.drop_last();
        lemma_first_gate(rest, found, bireachable);
        match first_gate(rest, found, bireachable) {
            Some(v) => {
                let j = choose|j: int| 0 <= j < rest.len() && rest[j] == v;
                assert(vertices[j] == v);
            },
            None => {
                assert(vertices[vertices.len() - 1] == vertices.last());
                assert forall|j: int|
                    0 <= j < vertices.len() && j < rest.len() implies !(
                found[#[trigger] vertices[j] as int] is Some
                    && bireachable[vertices[j] as int]) by {
                    assert(rest[j] == vertices[j]);
                }
            },
        }
    }
}

impl<'a> Randomizer<'a> {
    /// Looking at what can be reached keeps a state valid, and takes nothing back.
    pub proof fn lemma_marked_state<T>(
        self,
        s: StateView<T>,
        forward: TraverseResult<T>,
        reverse: TraverseResult<T>,
        bireachable: Seq<bool>,
    )
        requires
            self.valid(),
            self.state_ok(s),
        ensures
            self.state_ok(self.marked_state(s, forward, reverse, bireachable)),
            not_taken_back(s, self.marked_state(s, forward, reverse, bireachable)),
    {
        let t = self.marked_state(s, forward, reverse, bireachable);
        let found = forward.local_states@;
        assert forall|i: int| 0 <= i < t.locations.len() implies self.location_ok(
            i,
            #[trigger] t.locations[i],
        ) by {
            assert(self.location_ok(i, s.locations[i]));
            let vertices = listed(self.game_data.item_vertex_ids@, i);
            lemma_first_gate(vertices, found, bireachable);
            if let Some(v) = first_gate(vertices, found, bireachable) {
                let j = choose|j: int| 0 <= j < vertices.len() && vertices[j] == v;
                assert(self.game_data.item_vertex_ids@[i]@[j] == v);
            }
        }
        lemma_same_items(s.locations, t.locations);
    }

    /// Looking at what can be reached keeps a state valid, and takes nothing back.
    pub proof fn lemma_updates<W: Traversal>(
        self,
        world: &W,
        s: StateView<W::Trail>,
        t: StateView<W::Trail>,
    )
        requires
            self.valid(),
            self.state_ok(s),
            self.updates(world, s, t),
        ensures
            self.state_ok(t),
            not_taken_back(s, t),
    {
        let (forward, reverse, bireachable) = choose|
            forward: TraverseResult<W::Trail>,
            reverse: TraverseResult<W::Trail>,
            bireachable: Seq<bool>,
        |
            {
                &&& #[trigger] self.surveyed(world, s.global, forward, reverse, bireachable)
                &&& t == self.marked_state(s, forward, reverse, bireachable)
            };
        self.lemma_marked_state(s, forward, reverse, bireachable);
    }
}

/// What was reachable stays so, the vertex by which a location can be left again stays the
/// same, and nothing but what is known to be reachable changes.
pub open spec fn not_taken_back<T>(s: StateView<T>, t: StateView<T>) -> bool {
    &&& t.locations.len() == s.locations.len()
    &&& t.flag_bireachable.len() == s.flag_bireachable.len()
    &&& t.step_num == s.step_num
    &&& t.item_precedence == s.item_precedence
    &&& t.remaining == s.remaining
    &&& t.global == s.global
    &&& t.done == s.done
    &&& t.debug_data is Some
    &&& forall|i: int|
        0 <= i < s.locations.len() ==> {
            let before = s.locations[i];
            let after = #[trigger] t.locations[i];
            &&& after.placed_item == before.placed_item
            &&& after.collected == before.collected
            &&& before.reachable ==> after.reachable
            &&& before.bireachable ==> after.bireachable && after.bireachable_vertex_id
                == before.bireachable_vertex_id
        }
    &&& forall|i: int|
        0 <= i < s.flag_bireachable.len() && s.flag_bireachable[i]
            ==> #[trigger] t.flag_bireachable[i]
}

}
