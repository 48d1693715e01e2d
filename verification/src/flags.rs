//! Setting flags, and looking again at what can be reached until no new flag comes up.
use crate::game_data::FlagId;
use crate::reachability::not_taken_back;
use crate::state::{opening_flag, Failure, RandomizationState, Randomizer, StateView};
use crate::traverse::{GlobalView, Traversal};
use vstd::prelude::*;

verus! {

/// A state with other flags set.
pub open spec fn with_flags<T>(s: StateView<T>, flags: Seq<bool>) -> StateView<T> {
    StateView { global: GlobalView { flags, ..s.global }, ..s }
}

/// The number of flags that are not set.
pub open spec fn unset(flags: Seq<bool>) -> nat
    decreases flags.len(),
{
    if flags.len() == 0 {
        0
    } else if flags.last() {
        unset(flags.drop_last())
    } else {
        unset(flags.drop_last()) + 1
    }
}

proof fn lemma_unset(a: Seq<bool>, b: Seq<bool>)
    requires
        a.len() == b.len(),
        forall|i: int| 0 <= i < a.len() && a[i] ==> #[trigger] b[i],
    ensures
        unset(b) <= unset(a),
        a != b ==> unset(b) < unset(a),
    decreases a.len(),
{
    if a.len() > 0 {
        assert forall|i: int| 0 <= i < a.len() - 1 && a.drop_last()[i] implies #[trigger]
            b.drop_last()[i] by {
            assert(a[i]);
            assert(b[i]);
        }
        lemma_unset(a.drop_last(), b.drop_last());
        assert(a[a.len() - 1] ==> b[a.len() - 1]);
        if a.drop_last() == b.drop_last() && a.last() == b.last() {
            assert(a =~= a.drop_last().push(a.last()));
            assert(b =~= b.drop_last().push(b.last()));
        }
    } else {
        assert(a =~= b);
    }
}

impl<'a> Randomizer<'a> {
    /// The flags once those have been set whose locations can be reached and left again.
    pub open spec fn flags_acquired<T>(self, s: StateView<T>) -> Seq<bool> {
        Seq::new(
            s.global.flags.len(),
            |flag: int|
                s.global.flags[flag] || exists|i: int|
                    0 <= i < s.flag_bireachable.len() && s.flag_bireachable[i] && (
                    #[trigger] self.game_data.flag_locations@[i]).2 == flag,
        )
    }

    /// A run of rounds, each of which sets new flags and looks again at what can be reached.
    pub open spec fn flag_rounds<W: Traversal>(
        self,
        world: &W,
        rounds: Seq<StateView<W::Trail>>,
    ) -> bool {
        &&& rounds.len() >= 1
        &&& forall|i: int|
            0 <= i < rounds.len() - 1 ==> {
                &&& self.flags_acquired(#[trigger] rounds[i]) != rounds[i].global.flags
                &&& self.updates(
                    world,
                    with_flags(rounds[i], self.flags_acquired(rounds[i])),
                    rounds[i + 1],
                )
            }
    }

    /// `t` is what a state may become by setting flags until none is new.
    pub open spec fn settles<W: Traversal>(
        self,
        world: &W,
        s: StateView<W::Trail>,
        t: StateView<W::Trail>,
    ) -> bool {
        exists|rounds: Seq<StateView<W::Trail>>|
            {
                &&& #[trigger] self.flag_rounds(world, rounds)
                &&& rounds.first() == s
                &&& rounds.last() == t
                &&& self.flags_acquired(t) == t.global.flags
            }
    }

    /// On the way to setting all flags a traversal does not cover every vertex, and the
    /// state is left at `t`.
    pub open spec fn settling_fails<W: Traversal>(
        self,
        world: &W,
        s: StateView<W::Trail>,
        t: StateView<W::Trail>,
    ) -> bool {
        exists|rounds: Seq<StateView<W::Trail>>|
            {
                &&& #[trigger] self.flag_rounds(world, rounds)
                &&& rounds.first() == s
                &&& t == with_flags(rounds.last(), self.flags_acquired(rounds.last()))
                &&& t.global.flags != rounds.last().global.flags
                &&& self.falls_short(world, t.global)
            }
    }

    /// The flags at the start: none but the one that is always set.
    pub fn get_flag_vec(&self) -> (flags: Vec<bool>)
        requires
            self.game_data.flag_isv.has_name(opening_flag()),
        ensures
            flags@ == Seq::new(
                self.game_data.flag_isv.keys@.len(),
                |flag: int| flag == self.game_data.flag_isv.name_position(opening_flag()),
            ),
    {
        let mut flags: Vec<bool> = vec![false; self.game_data.flag_isv.keys.len()];
        let flag: FlagId = self.game_data.flag_isv.index_by_name("f_TourianOpen").unwrap();
        flags.set(flag, true);
        assert(flags@ =~= Seq::new(
            self.game_data.flag_isv.keys@.len(),
            |flag: int| flag == self.game_data.flag_isv.name_position(opening_flag()),
        ));
        flags
    }

    /// Sets the flags whose locations can be reached and left again, and tells whether any
    /// of them was new.
    pub fn acquire_flags<T>(&self, state: &mut RandomizationState<T>) -> (any_new: bool)
        requires
            self.game_data.playable(),
            self.sized(old(state)@),
            old(state)@.global.flags.len() == self.game_data.flag_isv.keys@.len(),
        ensures
            final(state)@ == with_flags(old(state)@, self.flags_acquired(old(state)@)),
            any_new == (self.flags_acquired(old(state)@) != old(state)@.global.flags),
    {
        let ghost start = state@;
        let ghost locations = self.game_data.flag_locations@;
        let mut any_new: bool = false;
        let mut i: usize = 0;
        while i < self.game_data.flag_locations.len()
            invariant
                i <= locations.len(),
                locations == self.game_data.flag_locations@,
                self.game_data.playable(),
                self.sized(start),
                start.global.flags.len() == self.game_data.flag_isv.keys@.len(),
                state@ == with_flags(start, state@.global.flags),
                state@.global.flags.len() == start.global.flags.len(),
                forall|flag: int|
                    0 <= flag < start.global.flags.len() ==> (#[trigger] state@.global.flags[flag])
                        == (start.global.flags[flag] || exists|k: int|
                        0 <= k < i && start.flag_bireachable[k] && (#[trigger] locations[k]).2
                            == flag),
                any_new == (state@.global.flags != start.global.flags),
            decreases locations.len() - i,
        {
            let flag: FlagId = self.game_data.flag_locations[i].2;
            assert(locations[i as int].2 == flag);
            let ghost before = state@.global.flags;
            if !state.global_state.flags[flag] && state.flag_bireachable[i] {
                any_new = true;
                state.global_state.flags.set(flag, true);
                assert(!start.global.flags[flag as int]);
                assert(state@.global.flags[flag as int]);
            }
            i += 1;
        }
        assert(state@.global.flags =~= self.flags_acquired(start));
        any_new
    }

    /// Sets flags and looks again at what can be reached until no new flag comes up.
    pub fn settle_flags<W: Traversal>(
        &self,
        world: &W,
        state: &mut RandomizationState<W::Trail>,
    ) -> (result: Result<(), Failure>)
        requires
            self.valid(),
            self.state_ok(old(state)@),
        ensures
            match result {
                Ok(_) => {
                    &&& self.settles(world, old(state)@, final(state)@)
                    &&& self.state_ok(final(state)@)
                },
                Err(failure) => {
                    &&& failure == Failure::TraversalTooShort
                    &&& self.settling_fails(world, old(state)@, final(state)@)
                },
            },
    {
        let ghost start = state@;
        let ghost mut rounds: Seq<StateView<W::Trail>> = seq![start];
        loop
            invariant
                start == old(state)@,
                self.valid(),
                self.state_ok(state@),
                self.flag_rounds(world, rounds),
                rounds.first() == start,
                rounds.last() == state@,
            decreases unset(state@.global.flags),
        {
            let ghost before = state@;
            if !self.acquire_flags(state) {
                assert(state@ == before);
                return Ok(());
            }
            let ghost flagged = state@;
            proof {
                lemma_unset(before.global.flags, flagged.global.flags);
            }
            match self.update_reachability(world, state) {
                Ok(_) => {},
                Err(failure) => {
                    return Err(failure);
                },
            }
            proof {
                self.lemma_updates(world, flagged, state@);
                let next = rounds.push(state@);
                assert forall|i: int| 0 <= i < next.len() - 1 implies self.flags_acquired(
                    #[trigger] next[i],
                ) != next[i].global.flags && self.updates(
                    world,
                    with_flags(next[i], self.flags_acquired(next[i])),
                    next[i + 1],
                ) by {
                    assert(next[i] == rounds[i]);
                    if i < rounds.len() - 1 {
                        assert(next[i + 1] == rounds[i + 1]);
                    }
                }
                rounds = next;
            }
        }
    }
}

/// Between two looks at the map no location loses what was known of it, and nothing else
/// changes but that flags are set.
pub open spec fn carried_on<T>(s: StateView<T>, t: StateView<T>) -> bool {
    &&& t.locations.len() == s.locations.len()
    &&& t.flag_bireachable.len() == s.flag_bireachable.len()
    &&& t.global.flags.len() == s.global.flags.len()
    &&& t.step_num == s.step_num
    &&& t.item_precedence == s.item_precedence
    &&& t.remaining == s.remaining
    &&& t.global == (GlobalView { flags: t.global.flags, ..s.global })
    &&& t.done == s.done
    &&& s.debug_data is Some ==> t.debug_data is Some
    &&& forall|i: int|
        0 <= i < s.locations.len() ==> {
            let before = s.locations[i];
            let after = #[trigger] t.locations[i];
            &&& after.placed_item == before.placed_item
            &&& after.collected == before.collected
            &&& before.reachable ==> after.reachable
            &&& before.bireachable ==> after.bireachable && after.bireachable_vertex_id
                == before.bireachable_vertex_id
        }
    &&& forall|i: int|
        0 <= i < s.flag_bireachable.len() && s.flag_bireachable[i]
            ==> #[trigger] t.flag_bireachable[i]
    &&& forall|i: int|
        0 <= i < s.global.flags.len() && s.global.flags[i] ==> #[trigger] t.global.flags[i]
}

impl<'a> Randomizer<'a> {
    proof fn lemma_flag_rounds<W: Traversal>(
        self,
        world: &W,
        rounds: Seq<StateView<W::Trail>>,
        n: int,
    )
        requires
            self.valid(),
            self.flag_rounds(world, rounds),
            self.state_ok(rounds[0]),
            0 <= n < rounds.len(),
        ensures
            self.state_ok(rounds[n]),
            carried_on(rounds[0], rounds[n]),
        decreases n,
    {
        if n > 0 {
            self.lemma_flag_rounds(world, rounds, n - 1);
            let before = rounds[n - 1];
            let flagged = with_flags(before, self.flags_acquired(before));
            assert(self.updates(world, flagged, rounds[n - 1 + 1]));
            assert(self.state_ok(flagged));
            self.lemma_updates(world, flagged, rounds[n]);
            let after = rounds[n];
            assert(not_taken_back(flagged, after));
            assert forall|i: int| 0 <= i < before.locations.len() implies {
                let first = rounds[0].locations[i];
                let last = #[trigger] after.locations[i];
                &&& last.placed_item == first.placed_item
                &&& last.collected == first.collected
                &&& first.reachable ==> last.reachable
                &&& first.bireachable ==> last.bireachable && last.bireachable_vertex_id
                    == first.bireachable_vertex_id
            } by {
                assert(before.locations[i] == flagged.locations[i]);
            }
            assert forall|i: int|
                0 <= i < before.flag_bireachable.len()
                    && rounds[0].flag_bireachable[i] implies #[trigger] after.flag_bireachable[i] by {
                assert(before.flag_bireachable[i]);
            }
            assert forall|i: int|
                0 <= i < before.global.flags.len()
                    && rounds[0].global.flags[i] implies #[trigger] after.global.flags[i] by {
                assert(before.global.flags[i]);
            }
        }
    }

    /// Setting flags keeps a state valid, and takes nothing back.
    pub proof fn lemma_settles<W: Traversal>(
        self,
        world: &W,
        s: StateView<W::Trail>,
        t: StateView<W::Trail>,
    )
        requires
            self.valid(),
            self.state_ok(s),
            self.settles(world, s, t),
        ensures
            self.state_ok(t),
            carried_on(s, t),
    {
        let rounds = choose|rounds: Seq<StateView<W::Trail>>|
            {
                &&& #[trigger] self.flag_rounds(world, rounds)
                &&& rounds.first() == s
                &&& rounds.last() == t
                &&& self.flags_acquired(t) == t.global.flags
            };
        self.lemma_flag_rounds(world, rounds, rounds.len() - 1);
    }
}

}
