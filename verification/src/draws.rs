//! The orders that are drawn at random in a step, and the states of the generator from which
//! they are drawn. With a steady model the orders determine the step.
use crate::game_data::ItemLocationId;
use crate::items::Item;
use crate::outside::{may_shuffle, shuffles_alike};
use crate::placement::{ready_items, reshapes};
use crate::state::{Failure, Randomizer, SelectItemsOutput, SpoilerDetails, StateView};
use crate::steady::same_step;
use crate::step::{succeeds, unplaced_bireachable, unplaced_oneway};
use crate::traverse::Traversal;
use rand::rngs::StdRng;
use vstd::prelude::*;

verus! {

/// The orders drawn in one step: those of the free locations, and that of the mix in each
/// attempt.
pub ghost struct StepDraw {
    pub bireachable: Seq<ItemLocationId>,
    pub oneway: Seq<ItemLocationId>,
    pub mixes: Seq<Seq<Item>>,
}

impl StepDraw {
    /// The draw with the order of one more mix.
    pub open spec fn with_mix(self, mixed: Seq<Item>) -> StepDraw {
        StepDraw { mixes: self.mixes.push(mixed), ..self }
    }

    /// Another draw goes on from this one.
    pub open spec fn begins(self, longer: StepDraw) -> bool {
        &&& longer.bireachable == self.bireachable
        &&& longer.oneway == self.oneway
        &&& self.mixes.len() <= longer.mixes.len()
        &&& longer.mixes.take(self.mixes.len() as int) == self.mixes
    }
}

impl<'a> Randomizer<'a> {
    /// The orders of a draw are drawn one after the other: those of the free locations of a
    /// state, then that of the mix in each attempt. `rngs` are the states of the generator
    /// before, between and after.
    pub open spec fn draws_by<T>(
        self,
        s: StateView<T>,
        draw: StepDraw,
        rngs: Seq<StdRng>,
    ) -> bool {
        &&& rngs.len() == draw.mixes.len() + 3
        &&& may_shuffle(unplaced_bireachable(s.locations), rngs[0], draw.bireachable, rngs[1])
        &&& may_shuffle(unplaced_oneway(s.locations), rngs[1], draw.oneway, rngs[2])
        &&& forall|a: int|
            0 <= a < draw.mixes.len() ==> may_shuffle(
                self.mix(s, draw.bireachable.len() as int, draw.oneway.len() as int, a),
                rngs[a + 2],
                #[trigger] draw.mixes[a],
                rngs[a + 3],
            )
    }

    /// The orders of a draw are drawn with a generator in the state `rng`, which leaves it in
    /// the state `next`.
    pub open spec fn draws<T>(
        self,
        s: StateView<T>,
        draw: StepDraw,
        rng: StdRng,
        next: StdRng,
    ) -> bool {
        exists|rngs: Seq<StdRng>|
            {
                &&& #[trigger] self.draws_by(s, draw, rngs)
                &&& rngs.first() == rng
                &&& rngs.last() == next
            }
    }

    /// An attempt of a step in the orders of a draw, up to what lies ready being picked up.
    pub open spec fn tries_as_drawn<W: Traversal>(
        self,
        world: &W,
        s: StateView<W::Trail>,
        draw: StepDraw,
        attempt_num: int,
        out: SelectItemsOutput,
        p: StateView<W::Trail>,
    ) -> bool {
        &&& 0 <= attempt_num < draw.mixes.len()
        &&& self.selects_in_order(
            s,
            draw.bireachable.len() as int,
            draw.oneway.len() as int,
            attempt_num,
            draw.mixes[attempt_num],
            out,
        )
        &&& self.tries_selection(
            world,
            s,
            draw.bireachable,
            draw.oneway,
            attempt_num,
            out,
            p,
        )
    }

    /// `t` is the state after an attempt in the orders of a draw.
    pub open spec fn attempts_as_drawn<W: Traversal>(
        self,
        world: &W,
        s: StateView<W::Trail>,
        draw: StepDraw,
        attempt_num: int,
        t: StateView<W::Trail>,
    ) -> bool {
        exists|out: SelectItemsOutput, p: StateView<W::Trail>|
            {
                &&& #[trigger] self.tries_as_drawn(world, s, draw, attempt_num, out, p)
                &&& self.concludes(world, p, t)
            }
    }

    /// The first attempts of a step have been made in the orders of a draw, without success.
    pub open spec fn has_tried_as_drawn<W: Traversal>(
        self,
        world: &W,
        s: StateView<W::Trail>,
        draw: StepDraw,
        tries: Seq<StateView<W::Trail>>,
    ) -> bool {
        &&& self.orders(s, draw.bireachable, draw.oneway)
        &&& forall|a: int|
            0 <= a < tries.len() ==> self.attempts_as_drawn(world, s, draw, a, #[trigger] tries[a])
                && !succeeds(s, tries[a])
    }

    /// A step in the orders of a draw, by way of the state in which flags have settled and of
    /// the attempts that did not succeed.
    pub open spec fn steps_as_drawn_by<W: Traversal>(
        self,
        world: &W,
        s: StateView<W::Trail>,
        draw: StepDraw,
        settled: StateView<W::Trail>,
        tries: Seq<StateView<W::Trail>>,
        t: StateView<W::Trail>,
        details: SpoilerDetails,
    ) -> bool {
        &&& self.settles(world, s, settled)
        &&& self.has_tried_as_drawn(world, settled, draw, tries)
        &&& self.attempts_as_drawn(world, settled, draw, tries.len() as int, t)
        &&& succeeds(settled, t)
        &&& self.tells_step(world, settled, t, details)
    }

    /// `t` is the state after a step in the orders of a draw, and `details` the account of it.
    pub open spec fn steps_as_drawn<W: Traversal>(
        self,
        world: &W,
        s: StateView<W::Trail>,
        draw: StepDraw,
        t: StateView<W::Trail>,
        details: SpoilerDetails,
    ) -> bool {
        exists|settled: StateView<W::Trail>, tries: Seq<StateView<W::Trail>>| #[trigger]
            self.steps_as_drawn_by(world, s, draw, settled, tries, t, details)
    }

    /// Why the next attempt in the orders of a draw ends a step.
    pub open spec fn attempt_fails_as_drawn<W: Traversal>(
        self,
        world: &W,
        s: StateView<W::Trail>,
        draw: StepDraw,
        attempt_num: int,
        failure: Failure,
    ) -> bool {
        let nb = draw.bireachable.len() as int;
        let no = draw.oneway.len() as int;
        match failure {
            Failure::AttemptsExhausted => self.exhausted(s, nb, no, attempt_num),
            Failure::ItemOverdrawn => self.overdrawn(s, nb, no, attempt_num),
            Failure::StateReshaped => exists|out: SelectItemsOutput|
                {
                    &&& 0 <= attempt_num < draw.mixes.len()
                    &&& !self.exhausted(s, nb, no, attempt_num)
                    &&& !self.overdrawn(s, nb, no, attempt_num)
                    &&& #[trigger] self.selects_in_order(
                        s,
                        nb,
                        no,
                        attempt_num,
                        draw.mixes[attempt_num],
                        out,
                    )
                    &&& reshapes(
                        world,
                        self.game_data,
                        s.global,
                        ready_items(
                            self.with_selection(s, draw.bireachable + draw.oneway, out).locations,
                        ),
                    )
                },
            Failure::TraversalTooShort => exists|out: SelectItemsOutput, p: StateView<W::Trail>|
                {
                    &&& #[trigger] self.tries_as_drawn(world, s, draw, attempt_num, out, p)
                    &&& !self.complete(p.remaining)
                    &&& self.falls_short(world, p.global)
                },
            Failure::RouteBlocked => exists|t: StateView<W::Trail>, i: int|
                {
                    &&& self.attempts_as_drawn(world, s, draw, attempt_num, t)
                    &&& succeeds(s, t)
                    &&& 0 <= i < s.locations.len()
                    &&& #[trigger] self.first_found(s, t, i)
                    &&& self.item_blocked(world, s, i)
                },
            Failure::NoBireachableLocation => false,
        }
    }

    /// The flags settle, and then a step fails in the orders of a draw after some attempts.
    pub open spec fn step_fails_as_drawn_by<W: Traversal>(
        self,
        world: &W,
        s: StateView<W::Trail>,
        draw: StepDraw,
        settled: StateView<W::Trail>,
        tries: Seq<StateView<W::Trail>>,
        failure: Failure,
    ) -> bool {
        &&& self.settles(world, s, settled)
        &&& self.has_tried_as_drawn(world, settled, draw, tries)
        &&& self.attempt_fails_as_drawn(world, settled, draw, tries.len() as int, failure)
    }

    /// A step with a generator in the state `rng`, in the orders of a draw made with it.
    pub open spec fn steps_from_by<W: Traversal>(
        self,
        world: &W,
        s: StateView<W::Trail>,
        rng: StdRng,
        draw: StepDraw,
        settled: StateView<W::Trail>,
        tries: Seq<StateView<W::Trail>>,
        t: StateView<W::Trail>,
        details: SpoilerDetails,
        next: StdRng,
    ) -> bool {
        &&& self.steps_as_drawn_by(world, s, draw, settled, tries, t, details)
        &&& draw.mixes.len() == tries.len() + 1
        &&& self.draws(settled, draw, rng, next)
    }

    /// `t` is the state after a step with a generator in the state `rng`, and `details` the
    /// account of it. The generator is left in the state `next`.
    pub open spec fn steps_from<W: Traversal>(
        self,
        world: &W,
        s: StateView<W::Trail>,
        rng: StdRng,
        t: StateView<W::Trail>,
        details: SpoilerDetails,
        next: StdRng,
    ) -> bool {
        exists|draw: StepDraw, settled: StateView<W::Trail>, tries: Seq<StateView<W::Trail>>|
            #[trigger]
            self.steps_from_by(world, s, rng, draw, settled, tries, t, details, next)
    }

    /// A step with a generator in the state `rng` fails in the orders of a draw made with it.
    /// The attempt that fails has drawn an order, unless there was nothing to choose.
    pub open spec fn step_fails_from_by<W: Traversal>(
        self,
        world: &W,
        s: StateView<W::Trail>,
        rng: StdRng,
        draw: StepDraw,
        settled: StateView<W::Trail>,
        tries: Seq<StateView<W::Trail>>,
        failure: Failure,
        next: StdRng,
    ) -> bool {
        &&& self.step_fails_as_drawn_by(world, s, draw, settled, tries, failure)
        &&& draw.mixes.len() == (if failure == Failure::AttemptsExhausted || failure
            == Failure::ItemOverdrawn {
            tries.len()
        } else {
            tries.len() + 1
        })
        &&& self.draws(settled, draw, rng, next)
    }

    /// A step with a generator in the state `rng` fails, and leaves it in the state `next`.
    /// Nothing is drawn before flags have settled.
    pub open spec fn step_fails_from<W: Traversal>(
        self,
        world: &W,
        s: StateView<W::Trail>,
        rng: StdRng,
        failure: Failure,
        next: StdRng,
    ) -> bool {
        ||| {
            &&& failure == Failure::TraversalTooShort
            &&& next == rng
            &&& exists|t: StateView<W::Trail>| #[trigger] self.settling_fails(world, s, t)
        }
        ||| exists|
            draw: StepDraw,
            settled: StateView<W::Trail>,
            tries: Seq<StateView<W::Trail>>,
        | #[trigger]
            self.step_fails_from_by(world, s, rng, draw, settled, tries, failure, next)
    }

    /// The orders of the free locations are drawn.
    pub proof fn lemma_draws_places<T>(
        self,
        s: StateView<T>,
        draw: StepDraw,
        rng: StdRng,
        between: StdRng,
        next: StdRng,
    )
        requires
            may_shuffle(unplaced_bireachable(s.locations), rng, draw.bireachable, between),
            may_shuffle(unplaced_oneway(s.locations), between, draw.oneway, next),
            draw.mixes.len() == 0,
        ensures
            self.draws(s, draw, rng, next),
    {
        let rngs = seq![rng, between, next];
        assert(self.draws_by(s, draw, rngs));
    }

    /// The order of one more mix is drawn.
    pub proof fn lemma_draws_mix<T>(
        self,
        s: StateView<T>,
        draw: StepDraw,
        rng: StdRng,
        between: StdRng,
        mixed: Seq<Item>,
        next: StdRng,
    )
        requires
            self.draws(s, draw, rng, between),
            may_shuffle(
                self.mix(
                    s,
                    draw.bireachable.len() as int,
                    draw.oneway.len() as int,
                    draw.mixes.len() as int,
                ),
                between,
                mixed,
                next,
            ),
        ensures
            self.draws(s, draw.with_mix(mixed), rng, next),
    {
        let rngs = choose|rngs: Seq<StdRng>|
            {
                &&& #[trigger] self.draws_by(s, draw, rngs)
                &&& rngs.first() == rng
                &&& rngs.last() == between
            };
        let longer = draw.with_mix(mixed);
        let more = rngs.push(next);
        assert forall|a: int| 0 <= a < longer.mixes.len() implies may_shuffle(
            self.mix(s, longer.bireachable.len() as int, longer.oneway.len() as int, a),
            more[a + 2],
            #[trigger] longer.mixes[a],
            more[a + 3],
        ) by {
            if a < draw.mixes.len() {
                assert(longer.mixes[a] == draw.mixes[a]);
            }
        }
        assert(self.draws_by(s, longer, more));
    }

    /// Attempts that have been made do not depend on the order of a mix that is drawn later.
    pub proof fn lemma_has_tried_with_mix<W: Traversal>(
        self,
        world: &W,
        s: StateView<W::Trail>,
        draw: StepDraw,
        longer: StepDraw,
        tries: Seq<StateView<W::Trail>>,
    )
        requires
            self.has_tried_as_drawn(world, s, draw, tries),
            draw.begins(longer),
        ensures
            self.has_tried_as_drawn(world, s, longer, tries),
    {
        assert forall|a: int| 0 <= a < tries.len() implies self.attempts_as_drawn(
            world,
            s,
            longer,
            a,
            #[trigger] tries[a],
        ) && !succeeds(s, tries[a]) by {
            self.lemma_attempts_with_mix(world, s, draw, longer, a, tries[a]);
        }
    }

    /// An attempt does not depend on the order of a mix that is drawn later.
    pub proof fn lemma_attempts_with_mix<W: Traversal>(
        self,
        world: &W,
        s: StateView<W::Trail>,
        draw: StepDraw,
        longer: StepDraw,
        attempt_num: int,
        t: StateView<W::Trail>,
    )
        requires
            self.attempts_as_drawn(world, s, draw, attempt_num, t),
            draw.begins(longer),
        ensures
            self.attempts_as_drawn(world, s, longer, attempt_num, t),
    {
        let (out, p) = choose|out: SelectItemsOutput, p: StateView<W::Trail>|
            {
                &&& #[trigger] self.tries_as_drawn(world, s, draw, attempt_num, out, p)
                &&& self.concludes(world, p, t)
            };
        assert(draw.mixes[attempt_num] == longer.mixes[attempt_num]);
        assert(self.tries_as_drawn(world, s, longer, attempt_num, out, p));
    }

    /// One more choice has been made, in an order that was drawn for it.
    pub proof fn lemma_choice_drawn<W: Traversal>(
        self,
        world: &W,
        s: StateView<W::Trail>,
        draw: StepDraw,
        tries: Seq<StateView<W::Trail>>,
        rng: StdRng,
        between: StdRng,
        out: SelectItemsOutput,
        next: StdRng,
    ) -> (longer: StepDraw)
        requires
            self.draws(s, draw, rng, between),
            draw.mixes.len() == tries.len(),
            self.has_tried_as_drawn(world, s, draw, tries),
            self.selects_drawing(
                s,
                draw.bireachable.len() as int,
                draw.oneway.len() as int,
                tries.len() as int,
                between,
                out,
                next,
            ),
        ensures
            longer.bireachable == draw.bireachable,
            longer.oneway == draw.oneway,
            longer.mixes.len() == tries.len() + 1,
            self.draws(s, longer, rng, next),
            self.has_tried_as_drawn(world, s, longer, tries),
            self.selects_in_order(
                s,
                longer.bireachable.len() as int,
                longer.oneway.len() as int,
                tries.len() as int,
                longer.mixes[tries.len() as int],
                out,
            ),
    {
        let nb = draw.bireachable.len() as int;
        let no = draw.oneway.len() as int;
        let n = tries.len() as int;
        let mixed = choose|mixed: Seq<Item>|
            {
                &&& #[trigger] self.selects_in_order(s, nb, no, n, mixed, out)
                &&& may_shuffle(self.mix(s, nb, no, n), between, mixed, next)
            };
        let longer = draw.with_mix(mixed);
        self.lemma_draws_mix(s, draw, rng, between, mixed, next);
        assert(draw.begins(longer)) by {
            assert(longer.mixes.take(draw.mixes.len() as int) =~= draw.mixes);
        }
        self.lemma_has_tried_with_mix(world, s, draw, longer, tries);
        longer
    }

    proof fn lemma_tries_agree<W: Traversal>(
        self,
        world: &W,
        s: StateView<W::Trail>,
        draw: StepDraw,
        attempt_num: int,
        out_a: SelectItemsOutput,
        a: StateView<W::Trail>,
        out_b: SelectItemsOutput,
        b: StateView<W::Trail>,
    )
        requires
            self.steady(world),
            self.tries_as_drawn(world, s, draw, attempt_num, out_a, a),
            self.tries_as_drawn(world, s, draw, attempt_num, out_b, b),
        ensures
            a == b,
    {
        let places = draw.bireachable + draw.oneway;
        let before = self.with_selection(s, places, out_a);
        assert(before == self.with_selection(s, places, out_b));
        self.lemma_picks_up_agree(
            world,
            s.global,
            ready_items(before.locations),
            a.global,
            b.global,
        );
    }

    proof fn lemma_concludes_agree<W: Traversal>(
        self,
        world: &W,
        p: StateView<W::Trail>,
        a: StateView<W::Trail>,
        b: StateView<W::Trail>,
    )
        requires
            self.steady(world),
            self.concludes(world, p, a),
            self.concludes(world, p, b),
        ensures
            a == b,
    {
        if !self.complete(p.remaining) {
            self.lemma_updates_agree(world, p, a, b);
        }
    }

    proof fn lemma_attempts_agree<W: Traversal>(
        self,
        world: &W,
        s: StateView<W::Trail>,
        draw: StepDraw,
        attempt_num: int,
        a: StateView<W::Trail>,
        b: StateView<W::Trail>,
    )
        requires
            self.steady(world),
            self.attempts_as_drawn(world, s, draw, attempt_num, a),
            self.attempts_as_drawn(world, s, draw, attempt_num, b),
        ensures
            a == b,
    {
        let (out_a, p) = choose|out: SelectItemsOutput, p: StateView<W::Trail>|
            {
                &&& #[trigger] self.tries_as_drawn(world, s, draw, attempt_num, out, p)
                &&& self.concludes(world, p, a)
            };
        let (out_b, q) = choose|out: SelectItemsOutput, p: StateView<W::Trail>|
            {
                &&& #[trigger] self.tries_as_drawn(world, s, draw, attempt_num, out, p)
                &&& self.concludes(world, p, b)
            };
        self.lemma_tries_agree(world, s, draw, attempt_num, out_a, p, out_b, q);
        self.lemma_concludes_agree(world, p, a, b);
    }

    /// An attempt that is made to its end fails at most in telling a route, and only if it
    /// succeeds.
    proof fn lemma_attempt_or_failure<W: Traversal>(
        self,
        world: &W,
        s: StateView<W::Trail>,
        draw: StepDraw,
        attempt_num: int,
        t: StateView<W::Trail>,
        failure: Failure,
    )
        requires
            self.steady(world),
            self.attempts_as_drawn(world, s, draw, attempt_num, t),
            self.attempt_fails_as_drawn(world, s, draw, attempt_num, failure),
        ensures
            failure == Failure::RouteBlocked,
            succeeds(s, t),
            exists|i: int|
                {
                    &&& 0 <= i < s.locations.len()
                    &&& #[trigger] self.first_found(s, t, i)
                    &&& self.item_blocked(world, s, i)
                },
    {
        let (out, p) = choose|out: SelectItemsOutput, p: StateView<W::Trail>|
            {
                &&& #[trigger] self.tries_as_drawn(world, s, draw, attempt_num, out, p)
                &&& self.concludes(world, p, t)
            };
        let nb = draw.bireachable.len() as int;
        let no = draw.oneway.len() as int;
        let places = draw.bireachable + draw.oneway;
        match failure {
            Failure::StateReshaped => {
                let other = choose|other: SelectItemsOutput|
                    {
                        &&& #[trigger] self.selects_in_order(
                            s,
                            nb,
                            no,
                            attempt_num,
                            draw.mixes[attempt_num],
                            other,
                        )
                        &&& reshapes(
                            world,
                            self.game_data,
                            s.global,
                            ready_items(self.with_selection(s, places, other).locations),
                        )
                    };
                let before = self.with_selection(s, places, out);
                assert(before == self.with_selection(s, places, other));
                self.lemma_picks_up_not_reshapes(
                    world,
                    s.global,
                    ready_items(before.locations),
                    p.global,
                );
            },
            Failure::TraversalTooShort => {
                let (other, q) = choose|other: SelectItemsOutput, q: StateView<W::Trail>|
                    {
                        &&& #[trigger] self.tries_as_drawn(
                            world,
                            s,
                            draw,
                            attempt_num,
                            other,
                            q,
                        )
                        &&& !self.complete(q.remaining)
                        &&& self.falls_short(world, q.global)
                    };
                self.lemma_tries_agree(world, s, draw, attempt_num, out, p, other, q);
                self.lemma_updates_not_short(world, p, t);
            },
            Failure::RouteBlocked => {
                let (u, i) = choose|u: StateView<W::Trail>, i: int|
                    {
                        &&& self.attempts_as_drawn(world, s, draw, attempt_num, u)
                        &&& succeeds(s, u)
                        &&& 0 <= i < s.locations.len()
                        &&& #[trigger] self.first_found(s, u, i)
                        &&& self.item_blocked(world, s, i)
                    };
                self.lemma_attempts_agree(world, s, draw, attempt_num, t, u);
                assert(self.first_found(s, t, i));
            },
            _ => {},
        }
    }
}

impl<'a> Randomizer<'a> {
    proof fn lemma_attempt_failures_agree<W: Traversal>(
        self,
        world: &W,
        s: StateView<W::Trail>,
        draw: StepDraw,
        attempt_num: int,
        f: Failure,
        g: Failure,
    )
        requires
            self.steady(world),
            self.attempt_fails_as_drawn(world, s, draw, attempt_num, f),
            self.attempt_fails_as_drawn(world, s, draw, attempt_num, g),
        ensures
            f == g,
    {
        if f == Failure::RouteBlocked {
            let t = choose|t: StateView<W::Trail>|
                self.attempts_as_drawn(world, s, draw, attempt_num, t);
            self.lemma_attempt_or_failure(world, s, draw, attempt_num, t, g);
        } else if g == Failure::RouteBlocked {
            let t = choose|t: StateView<W::Trail>|
                self.attempts_as_drawn(world, s, draw, attempt_num, t);
            self.lemma_attempt_or_failure(world, s, draw, attempt_num, t, f);
        } else if f == Failure::TraversalTooShort && g == Failure::StateReshaped {
            self.lemma_short_not_reshaped(world, s, draw, attempt_num);
        } else if f == Failure::StateReshaped && g == Failure::TraversalTooShort {
            self.lemma_short_not_reshaped(world, s, draw, attempt_num);
        }
    }

    /// An attempt that comes to look at what can be reached has picked up its items.
    proof fn lemma_short_not_reshaped<W: Traversal>(
        self,
        world: &W,
        s: StateView<W::Trail>,
        draw: StepDraw,
        attempt_num: int,
    )
        requires
            self.steady(world),
            self.attempt_fails_as_drawn(
                world,
                s,
                draw,
                attempt_num,
                Failure::TraversalTooShort,
            ),
        ensures
            !self.attempt_fails_as_drawn(world, s, draw, attempt_num, Failure::StateReshaped),
    {
        let nb = draw.bireachable.len() as int;
        let no = draw.oneway.len() as int;
        let places = draw.bireachable + draw.oneway;
        let (out, p) = choose|out: SelectItemsOutput, p: StateView<W::Trail>|
            {
                &&& #[trigger] self.tries_as_drawn(world, s, draw, attempt_num, out, p)
                &&& !self.complete(p.remaining)
                &&& self.falls_short(world, p.global)
            };
        let before = self.with_selection(s, places, out);
        self.lemma_picks_up_not_reshapes(
            world,
            s.global,
            ready_items(before.locations),
            p.global,
        );
        assert forall|other: SelectItemsOutput| #[trigger]
            self.selects_in_order(
                s,
                nb,
                no,
                attempt_num,
                draw.mixes[attempt_num],
                other,
            ) implies !reshapes(
            world,
            self.game_data,
            s.global,
            ready_items(self.with_selection(s, places, other).locations),
        ) by {
            assert(before == self.with_selection(s, places, other));
        }
    }

    /// A step that is taken in the orders of a draw does not fail in them.
    pub proof fn lemma_step_or_failure<W: Traversal>(
        self,
        world: &W,
        s: StateView<W::Trail>,
        draw: StepDraw,
        settled: StateView<W::Trail>,
        tries: Seq<StateView<W::Trail>>,
        t: StateView<W::Trail>,
        details: SpoilerDetails,
        other: StateView<W::Trail>,
        failed: Seq<StateView<W::Trail>>,
        failure: Failure,
    )
        requires
            self.valid(),
            self.state_ok(s),
            self.steady(world),
            self.steps_as_drawn_by(world, s, draw, settled, tries, t, details),
        ensures
            !self.step_fails_as_drawn_by(world, s, draw, other, failed, failure),
    {
        self.lemma_settles(world, s, settled);
        if self.step_fails_as_drawn_by(world, s, draw, other, failed, failure) {
            self.lemma_settles_agree(world, s, settled, other);
            let a = failed.len() as int;
            if a < tries.len() {
                self.lemma_attempt_or_failure(world, settled, draw, a, tries[a], failure);
            } else if a > tries.len() {
                let n = tries.len() as int;
                self.lemma_attempts_agree(world, settled, draw, n, t, failed[n]);
            } else {
                self.lemma_attempt_or_failure(world, settled, draw, a, t, failure);
                let i = choose|i: int|
                    {
                        &&& 0 <= i < settled.locations.len()
                        &&& #[trigger] self.first_found(settled, t, i)
                        &&& self.item_blocked(world, settled, i)
                    };
                self.lemma_tells_items_not_blocked(
                    world,
                    settled,
                    t,
                    self.game_data.item_locations@.len(),
                    details.items@,
                    i,
                );
            }
        }
    }

    /// In the orders of a draw a step fails for one reason, after the same attempts.
    pub proof fn lemma_failures_agree<W: Traversal>(
        self,
        world: &W,
        s: StateView<W::Trail>,
        draw: StepDraw,
        settled: StateView<W::Trail>,
        tries: Seq<StateView<W::Trail>>,
        f: Failure,
        other: StateView<W::Trail>,
        failed: Seq<StateView<W::Trail>>,
        g: Failure,
    )
        requires
            self.steady(world),
            self.step_fails_as_drawn_by(world, s, draw, settled, tries, f),
            self.step_fails_as_drawn_by(world, s, draw, other, failed, g),
        ensures
            f == g,
            tries.len() == failed.len(),
    {
        self.lemma_settles_agree(world, s, settled, other);
        let a = tries.len() as int;
        let b = failed.len() as int;
        if a < b {
            self.lemma_attempt_or_failure(world, settled, draw, a, failed[a], f);
        } else if b < a {
            self.lemma_attempt_or_failure(world, settled, draw, b, tries[b], g);
        } else {
            self.lemma_attempt_failures_agree(world, settled, draw, a, f, g);
        }
    }

    /// In the orders of a draw a step leads to one state, after the same attempts, and its
    /// accounts read the same.
    pub proof fn lemma_steps_agree<W: Traversal>(
        self,
        world: &W,
        s: StateView<W::Trail>,
        draw: StepDraw,
        settled: StateView<W::Trail>,
        tries: Seq<StateView<W::Trail>>,
        a: StateView<W::Trail>,
        details_a: SpoilerDetails,
        other: StateView<W::Trail>,
        failed: Seq<StateView<W::Trail>>,
        b: StateView<W::Trail>,
        details_b: SpoilerDetails,
    )
        requires
            self.steady(world),
            self.steps_as_drawn_by(world, s, draw, settled, tries, a, details_a),
            self.steps_as_drawn_by(world, s, draw, other, failed, b, details_b),
        ensures
            a == b,
            tries.len() == failed.len(),
            same_step(details_a, details_b),
    {
        self.lemma_settles_agree(world, s, settled, other);
        let m = tries.len() as int;
        let n = failed.len() as int;
        if m < n {
            self.lemma_attempts_agree(world, settled, draw, m, a, failed[m]);
        } else if n < m {
            self.lemma_attempts_agree(world, settled, draw, n, b, tries[n]);
        } else {
            self.lemma_attempts_agree(world, settled, draw, n, a, b);
        }
        self.lemma_tells_items_agree(
            world,
            settled,
            a,
            self.game_data.item_locations@.len(),
            details_a.items@,
            details_b.items@,
        );
    }

    /// A step does not depend on the order of a mix that is drawn later.
    pub proof fn lemma_steps_with_mix<W: Traversal>(
        self,
        world: &W,
        s: StateView<W::Trail>,
        draw: StepDraw,
        longer: StepDraw,
        settled: StateView<W::Trail>,
        tries: Seq<StateView<W::Trail>>,
        t: StateView<W::Trail>,
        details: SpoilerDetails,
    )
        requires
            self.steps_as_drawn_by(world, s, draw, settled, tries, t, details),
            draw.begins(longer),
        ensures
            self.steps_as_drawn_by(world, s, longer, settled, tries, t, details),
    {
        self.lemma_has_tried_with_mix(world, settled, draw, longer, tries);
        self.lemma_attempts_with_mix(world, settled, draw, longer, tries.len() as int, t);
    }

    /// Nor does its failure.
    pub proof fn lemma_failure_with_mix<W: Traversal>(
        self,
        world: &W,
        s: StateView<W::Trail>,
        draw: StepDraw,
        longer: StepDraw,
        settled: StateView<W::Trail>,
        tries: Seq<StateView<W::Trail>>,
        failure: Failure,
    )
        requires
            self.step_fails_as_drawn_by(world, s, draw, settled, tries, failure),
            draw.begins(longer),
        ensures
            self.step_fails_as_drawn_by(world, s, longer, settled, tries, failure),
    {
        let n = tries.len() as int;
        let nb = draw.bireachable.len() as int;
        let no = draw.oneway.len() as int;
        self.lemma_has_tried_with_mix(world, settled, draw, longer, tries);
        assert(n < draw.mixes.len() ==> draw.mixes[n] == longer.mixes[n]);
        match failure {
            Failure::StateReshaped => {
                let out = choose|out: SelectItemsOutput|
                    {
                        &&& #[trigger] self.selects_in_order(
                            settled,
                            nb,
                            no,
                            n,
                            draw.mixes[n],
                            out,
                        )
                        &&& reshapes(
                            world,
                            self.game_data,
                            settled.global,
                            ready_items(
                                self.with_selection(
                                    settled,
                                    draw.bireachable + draw.oneway,
                                    out,
                                ).locations,
                            ),
                        )
                    };
                assert(self.selects_in_order(settled, nb, no, n, longer.mixes[n], out));
            },
            Failure::TraversalTooShort => {
                let (out, p) = choose|out: SelectItemsOutput, p: StateView<W::Trail>|
                    {
                        &&& #[trigger] self.tries_as_drawn(world, settled, draw, n, out, p)
                        &&& !self.complete(p.remaining)
                        &&& self.falls_short(world, p.global)
                    };
                assert(self.tries_as_drawn(world, settled, longer, n, out, p));
            },
            Failure::RouteBlocked => {
                let (t, i) = choose|t: StateView<W::Trail>, i: int|
                    {
                        &&& self.attempts_as_drawn(world, settled, draw, n, t)
                        &&& succeeds(settled, t)
                        &&& 0 <= i < settled.locations.len()
                        &&& #[trigger] self.first_found(settled, t, i)
                        &&& self.item_blocked(world, settled, i)
                    };
                self.lemma_attempts_with_mix(world, settled, draw, longer, n, t);
                assert(self.first_found(settled, t, i));
            },
            _ => {},
        }
    }

    /// If shuffling alike gives the same, then of two draws with generators in the same state
    /// one goes on from the other, and if they are equally long the generators end in the same
    /// state.
    pub proof fn lemma_draws_agree<T>(
        self,
        s: StateView<T>,
        rng: StdRng,
        a: StepDraw,
        next_a: StdRng,
        b: StepDraw,
        next_b: StdRng,
    )
        requires
            shuffles_alike::<Item>(),
            shuffles_alike::<ItemLocationId>(),
            self.draws(s, a, rng, next_a),
            self.draws(s, b, rng, next_b),
            a.mixes.len() <= b.mixes.len(),
        ensures
            a.begins(b),
            a.mixes.len() == b.mixes.len() ==> a == b && next_a == next_b,
    {
        let x = choose|rngs: Seq<StdRng>|
            {
                &&& #[trigger] self.draws_by(s, a, rngs)
                &&& rngs.first() == rng
                &&& rngs.last() == next_a
            };
        let y = choose|rngs: Seq<StdRng>|
            {
                &&& #[trigger] self.draws_by(s, b, rngs)
                &&& rngs.first() == rng
                &&& rngs.last() == next_b
            };
        assert forall|n: int| 0 <= n < a.mixes.len() implies a.mixes[n] == b.mixes[n] by {
            self.lemma_draws_by_agree(s, a, x, b, y, n + 1);
        }
        self.lemma_draws_by_agree(s, a, x, b, y, a.mixes.len() as int);
        assert(b.mixes.take(a.mixes.len() as int) =~= a.mixes);
        if a.mixes.len() == b.mixes.len() {
            assert(a.mixes =~= b.mixes);
        }
    }

    proof fn lemma_draws_by_agree<T>(
        self,
        s: StateView<T>,
        a: StepDraw,
        x: Seq<StdRng>,
        b: StepDraw,
        y: Seq<StdRng>,
        n: int,
    )
        requires
            shuffles_alike::<Item>(),
            shuffles_alike::<ItemLocationId>(),
            self.draws_by(s, a, x),
            self.draws_by(s, b, y),
            x[0] == y[0],
            0 <= n <= a.mixes.len() <= b.mixes.len(),
        ensures
            a.bireachable == b.bireachable,
            a.oneway == b.oneway,
            x[n + 2] == y[n + 2],
            n > 0 ==> a.mixes[n - 1] == b.mixes[n - 1],
        decreases n,
    {
        assert(x[1] == y[1]);
        if n > 0 {
            self.lemma_draws_by_agree(s, a, x, b, y, n - 1);
            let nb = a.bireachable.len() as int;
            let no = a.oneway.len() as int;
            let mix = self.mix(s, nb, no, n - 1);
            assert(may_shuffle(mix, x[n - 1 + 2], a.mixes[n - 1], x[n - 1 + 3]));
            assert(may_shuffle(mix, y[n - 1 + 2], b.mixes[n - 1], y[n - 1 + 3]));
        }
    }

    /// With a generator in the same state a step leads to one state, leaves the generator in
    /// one state, and its accounts read the same.
    pub proof fn lemma_steps_from_agree<W: Traversal>(
        self,
        world: &W,
        s: StateView<W::Trail>,
        rng: StdRng,
        a: StateView<W::Trail>,
        details_a: SpoilerDetails,
        next_a: StdRng,
        b: StateView<W::Trail>,
        details_b: SpoilerDetails,
        next_b: StdRng,
    )
        requires
            self.steady(world),
            shuffles_alike::<Item>(),
            shuffles_alike::<ItemLocationId>(),
            self.steps_from(world, s, rng, a, details_a, next_a),
            self.steps_from(world, s, rng, b, details_b, next_b),
        ensures
            a == b,
            next_a == next_b,
            same_step(details_a, details_b),
    {
        let (d, x, p) = choose|d: StepDraw, x: StateView<W::Trail>, p: Seq<StateView<W::Trail>>|
            #[trigger]
            self.steps_from_by(world, s, rng, d, x, p, a, details_a, next_a);
        let (e, y, q) = choose|e: StepDraw, y: StateView<W::Trail>, q: Seq<StateView<W::Trail>>|
            #[trigger]
            self.steps_from_by(world, s, rng, e, y, q, b, details_b, next_b);
        self.lemma_settles_agree(world, s, x, y);
        if d.mixes.len() <= e.mixes.len() {
            self.lemma_draws_agree(x, rng, d, next_a, e, next_b);
            self.lemma_steps_with_mix(world, s, d, e, x, p, a, details_a);
            self.lemma_steps_agree(world, s, e, x, p, a, details_a, y, q, b, details_b);
        } else {
            self.lemma_draws_agree(x, rng, e, next_b, d, next_a);
            self.lemma_steps_with_mix(world, s, e, d, y, q, b, details_b);
            self.lemma_steps_agree(world, s, d, x, p, a, details_a, y, q, b, details_b);
        }
    }

    /// With a generator in the same state a step that is taken does not fail.
    pub proof fn lemma_step_or_failure_from<W: Traversal>(
        self,
        world: &W,
        s: StateView<W::Trail>,
        rng: StdRng,
        t: StateView<W::Trail>,
        details: SpoilerDetails,
        next: StdRng,
        failure: Failure,
        end: StdRng,
    )
        requires
            self.valid(),
            self.state_ok(s),
            self.steady(world),
            shuffles_alike::<Item>(),
            shuffles_alike::<ItemLocationId>(),
            self.steps_from(world, s, rng, t, details, next),
        ensures
            !self.step_fails_from(world, s, rng, failure, end),
    {
        let (d, x, p) = choose|d: StepDraw, x: StateView<W::Trail>, p: Seq<StateView<W::Trail>>|
            #[trigger]
            self.steps_from_by(world, s, rng, d, x, p, t, details, next);
        assert forall|u: StateView<W::Trail>| !#[trigger] self.settling_fails(world, s, u) by {
            self.lemma_settles_not_fails(world, s, x, u);
        }
        assert forall|e: StepDraw, y: StateView<W::Trail>, q: Seq<StateView<W::Trail>>|
            !#[trigger] self.step_fails_from_by(world, s, rng, e, y, q, failure, end) by {
            if self.step_fails_from_by(world, s, rng, e, y, q, failure, end) {
                self.lemma_settles_agree(world, s, x, y);
                if d.mixes.len() <= e.mixes.len() {
                    self.lemma_draws_agree(x, rng, d, next, e, end);
                    self.lemma_steps_with_mix(world, s, d, e, x, p, t, details);
                    self.lemma_step_or_failure(world, s, e, x, p, t, details, y, q, failure);
                } else {
                    self.lemma_draws_agree(x, rng, e, end, d, next);
                    self.lemma_failure_with_mix(world, s, e, d, y, q, failure);
                    self.lemma_step_or_failure(world, s, d, x, p, t, details, y, q, failure);
                }
            }
        }
    }

    /// With a generator in the same state a step fails for one reason, and leaves the
    /// generator in one state.
    pub proof fn lemma_failures_from_agree<W: Traversal>(
        self,
        world: &W,
        s: StateView<W::Trail>,
        rng: StdRng,
        f: Failure,
        next_f: StdRng,
        g: Failure,
        next_g: StdRng,
    )
        requires
            self.steady(world),
            shuffles_alike::<Item>(),
            shuffles_alike::<ItemLocationId>(),
            self.step_fails_from(world, s, rng, f, next_f),
            self.step_fails_from(world, s, rng, g, next_g),
        ensures
            f == g,
            next_f == next_g,
    {
        let (d, x, p) = choose|d: StepDraw, x: StateView<W::Trail>, p: Seq<StateView<W::Trail>>|
            #[trigger]
            self.step_fails_from_by(world, s, rng, d, x, p, f, next_f);
        let (e, y, q) = choose|e: StepDraw, y: StateView<W::Trail>, q: Seq<StateView<W::Trail>>|
            #[trigger]
            self.step_fails_from_by(world, s, rng, e, y, q, g, next_g);
        if exists|u: StateView<W::Trail>| #[trigger] self.settling_fails(world, s, u) {
            let u = choose|u: StateView<W::Trail>| #[trigger] self.settling_fails(world, s, u);
            if self.step_fails_from_by(world, s, rng, d, x, p, f, next_f) {
                self.lemma_settles_not_fails(world, s, x, u);
            }
            if self.step_fails_from_by(world, s, rng, e, y, q, g, next_g) {
                self.lemma_settles_not_fails(world, s, y, u);
            }
        } else {
            self.lemma_settles_agree(world, s, x, y);
            if d.mixes.len() <= e.mixes.len() {
                self.lemma_draws_agree(x, rng, d, next_f, e, next_g);
                self.lemma_failure_with_mix(world, s, d, e, x, p, f);
                self.lemma_failures_agree(world, s, e, x, p, f, y, q, g);
            } else {
                self.lemma_draws_agree(x, rng, e, next_g, d, next_f);
                self.lemma_failure_with_mix(world, s, e, d, y, q, g);
                self.lemma_failures_agree(world, s, d, x, p, f, y, q, g);
            }
        }
    }
}

/// With a steady model the orders drawn determine a step: the state that it leads to, and how
/// its account reads.
pub proof fn law_draws_determine_a_step<W: Traversal>(
    randomizer: Randomizer,
    world: &W,
    s: StateView<W::Trail>,
    draw: StepDraw,
    a: StateView<W::Trail>,
    details_a: SpoilerDetails,
    b: StateView<W::Trail>,
    details_b: SpoilerDetails,
)
    requires
        randomizer.steady(world),
        randomizer.steps_as_drawn(world, s, draw, a, details_a),
        randomizer.steps_as_drawn(world, s, draw, b, details_b),
    ensures
        a == b,
        same_step(details_a, details_b),
{
    let (settled, tries) = choose|settled: StateView<W::Trail>, tries: Seq<StateView<W::Trail>>|
        #[trigger]
        randomizer.steps_as_drawn_by(world, s, draw, settled, tries, a, details_a);
    let (other, failed) = choose|other: StateView<W::Trail>, failed: Seq<StateView<W::Trail>>|
        #[trigger]
        randomizer.steps_as_drawn_by(world, s, draw, other, failed, b, details_b);
    randomizer.lemma_steps_agree(
        world,
        s,
        draw,
        settled,
        tries,
        a,
        details_a,
        other,
        failed,
        b,
        details_b,
    );
}

}
