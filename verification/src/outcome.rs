//! What comes of an attempt with a generator in a given state.
//!
//! With a steady model, and if shuffling alike gives the same, that state determines the
//! outcome and the state in which the generator is left.
use crate::draws::StepDraw;
use crate::game_data::ItemLocationId;
use crate::items::{all_items, Item};
use crate::laws::law_attempts_stay_on_track;
use crate::outside::{may_shuffle, shuffles_alike};
use crate::state::{
    Attempt, Failure, Progress, Randomizer, SelectItemsOutput, SpoilerDetails, StateView,
};
use crate::steady::{same_log, same_step};
use crate::step::succeeds;
use crate::traverse::Traversal;
use rand::rngs::StdRng;
use vstd::prelude::*;

verus! {

/// Two attempts went the same way: the same progress, and the same failure, or the same items
/// at the same locations with accounts that read the same.
pub open spec fn same_attempt(a: Attempt, b: Attempt) -> bool {
    &&& a.progress@ == b.progress@
    &&& match (a.outcome, b.outcome) {
        (Ok(x), Ok(y)) => {
            &&& x.map@ == y.map@
            &&& x.item_placement@ == y.item_placement@
            &&& same_log(x.spoiler_log.details@, y.spoiler_log.details@)
        },
        (Err(f), Err(g)) => f == g,
        _ => false,
    }
}

impl<'a> Randomizer<'a> {
    /// `s` is the state after the first look at the map, with a given order of precedence.
    pub open spec fn starts_as_drawn<W: Traversal>(
        self,
        world: &W,
        item_precedence: Seq<Item>,
        s: StateView<W::Trail>,
    ) -> bool {
        exists|weapon_mask: usize|
            {
                &&& #[trigger] self.may_start(world, item_precedence, weapon_mask)
                &&& self.updates(world, self.initial_state(item_precedence, weapon_mask), s)
            }
    }

    /// The first look at the map fails, with a given order of precedence.
    pub open spec fn start_fails_as_drawn<W: Traversal>(
        self,
        world: &W,
        item_precedence: Seq<Item>,
    ) -> bool {
        exists|weapon_mask: usize|
            {
                &&& #[trigger] self.may_start(world, item_precedence, weapon_mask)
                &&& self.falls_short(world, self.initial_global(weapon_mask))
            }
    }

    /// `s` is the state after the first look at the map. The order of precedence is drawn with
    /// a generator in the state `rng`, which leaves it in the state `next`.
    pub open spec fn starts_from<W: Traversal>(
        self,
        world: &W,
        rng: StdRng,
        s: StateView<W::Trail>,
        next: StdRng,
    ) -> bool {
        exists|item_precedence: Seq<Item>|
            {
                &&& #[trigger] may_shuffle(all_items(), rng, item_precedence, next)
                &&& self.starts_as_drawn(world, item_precedence, s)
            }
    }

    /// The first look at the map fails, once the order of precedence has been drawn.
    pub open spec fn start_fails_from<W: Traversal>(
        self,
        world: &W,
        rng: StdRng,
        next: StdRng,
    ) -> bool {
        exists|item_precedence: Seq<Item>|
            {
                &&& #[trigger] may_shuffle(all_items(), rng, item_precedence, next)
                &&& self.start_fails_as_drawn(world, item_precedence)
            }
    }

    /// A step with a generator in the state `rng` leads on to the next.
    pub open spec fn steps_on_from<W: Traversal>(
        self,
        world: &W,
        before: StateView<W::Trail>,
        rng: StdRng,
        after: StateView<W::Trail>,
        details: SpoilerDetails,
        next: StdRng,
    ) -> bool {
        &&& !before.done
        &&& after.step_num == before.step_num + 1
        &&& self.steps_from(
            world,
            before,
            rng,
            StateView { step_num: before.step_num, ..after },
            details,
            next,
        )
    }

    /// The states between the steps of an attempt with a generator in the state `rng`, with
    /// the accounts of the steps and the states of the generator between them.
    pub open spec fn runs_from<W: Traversal>(
        self,
        world: &W,
        rng: StdRng,
        states: Seq<StateView<W::Trail>>,
        details: Seq<SpoilerDetails>,
        rngs: Seq<StdRng>,
    ) -> bool {
        &&& states.len() == details.len() + 1
        &&& rngs.len() == states.len()
        &&& self.starts_from(world, rng, states[0], rngs[0])
        &&& self.any_bireachable(states[0])
        &&& forall|i: int|
            0 <= i < details.len() ==> self.steps_on_from(
                world,
                states[i],
                rngs[i],
                states[i + 1],
                #[trigger] details[i],
                rngs[i + 1],
            )
    }

    /// An attempt with a generator in the state `rng` ends with a failing step.
    pub open spec fn run_fails_from<W: Traversal>(
        self,
        world: &W,
        rng: StdRng,
        states: Seq<StateView<W::Trail>>,
        details: Seq<SpoilerDetails>,
        rngs: Seq<StdRng>,
        failure: Failure,
        next: StdRng,
    ) -> bool {
        &&& self.runs_from(world, rng, states, details, rngs)
        &&& !states.last().done
        &&& self.step_fails_from(world, states.last(), rngs.last(), failure, next)
    }

    /// What may come of an attempt with a generator in the state `rng`, which is left in the
    /// state `next`.
    pub open spec fn may_come_out_from<W: Traversal>(
        self,
        world: &W,
        rng: StdRng,
        attempt: Attempt,
        next: StdRng,
    ) -> bool {
        match attempt.outcome {
            Ok(randomization) => exists|states: Seq<StateView<W::Trail>>, rngs: Seq<StdRng>|
                {
                    &&& #[trigger] self.runs_from(
                        world,
                        rng,
                        states,
                        randomization.spoiler_log.details@,
                        rngs,
                    )
                    &&& rngs.last() == next
                    &&& self.produces(world, states, randomization)
                    &&& self.tells_progress(states, attempt.progress@)
                    &&& attempt.progress@.len() == states.len() - 1
                },
            Err(Failure::NoBireachableLocation) => {
                &&& exists|s: StateView<W::Trail>| #[trigger]
                    self.starts_from(world, rng, s, next) && !self.any_bireachable(s)
                &&& attempt.progress@.len() == 0
            },
            Err(failure) => {
                ||| failure == Failure::TraversalTooShort && self.start_fails_from(
                    world,
                    rng,
                    next,
                ) && attempt.progress@.len() == 0
                ||| exists|
                    states: Seq<StateView<W::Trail>>,
                    details: Seq<SpoilerDetails>,
                    rngs: Seq<StdRng>,
                |
                    {
                        &&& #[trigger] self.run_fails_from(
                            world,
                            rng,
                            states,
                            details,
                            rngs,
                            failure,
                            next,
                        )
                        &&& self.tells_progress(states, attempt.progress@)
                        &&& attempt.progress@.len() == states.len()
                    }
            },
        }
    }

    /// A step carries an attempt on.
    pub proof fn lemma_runs_from_push<W: Traversal>(
        self,
        world: &W,
        rng: StdRng,
        states: Seq<StateView<W::Trail>>,
        details: Seq<SpoilerDetails>,
        rngs: Seq<StdRng>,
        after: StateView<W::Trail>,
        step_details: SpoilerDetails,
        next: StdRng,
    )
        requires
            self.runs_from(world, rng, states, details, rngs),
            self.steps_on_from(world, states.last(), rngs.last(), after, step_details, next),
        ensures
            self.runs_from(
                world,
                rng,
                states.push(after),
                details.push(step_details),
                rngs.push(next),
            ),
    {
        let longer = states.push(after);
        let more = details.push(step_details);
        let later = rngs.push(next);
        assert(longer[0] == states[0]);
        assert(later[0] == rngs[0]);
        assert forall|i: int| 0 <= i < more.len() implies self.steps_on_from(
            world,
            longer[i],
            later[i],
            longer[i + 1],
            #[trigger] more[i],
            later[i + 1],
        ) by {
            if i < details.len() {
                assert(more[i] == details[i]);
                assert(longer[i] == states[i]);
                assert(longer[i + 1] == states[i + 1]);
                assert(later[i] == rngs[i]);
                assert(later[i + 1] == rngs[i + 1]);
            } else {
                assert(longer[i] == states.last());
                assert(later[i] == rngs.last());
            }
        }
    }

    proof fn lemma_drawn_attempts_are_attempts<W: Traversal>(
        self,
        world: &W,
        s: StateView<W::Trail>,
        draw: StepDraw,
        attempt_num: int,
        t: StateView<W::Trail>,
    )
        requires
            self.attempts_as_drawn(world, s, draw, attempt_num, t),
        ensures
            self.attempts(world, s, draw.bireachable, draw.oneway, attempt_num, t),
    {
        let (out, p) = choose|out: SelectItemsOutput, p: StateView<W::Trail>|
            {
                &&& #[trigger] self.tries_as_drawn(world, s, draw, attempt_num, out, p)
                &&& self.concludes(world, p, t)
            };
        assert(self.tries_items(world, s, draw.bireachable, draw.oneway, attempt_num, p));
    }

    proof fn lemma_steps_from_are_steps<W: Traversal>(
        self,
        world: &W,
        s: StateView<W::Trail>,
        rng: StdRng,
        t: StateView<W::Trail>,
        details: SpoilerDetails,
        next: StdRng,
    )
        requires
            self.steps_from(world, s, rng, t, details, next),
        ensures
            self.steps(world, s, t, details),
    {
        let (draw, settled, tries) = choose|
            draw: StepDraw,
            settled: StateView<W::Trail>,
            tries: Seq<StateView<W::Trail>>,
        | #[trigger]
            self.steps_from_by(world, s, rng, draw, settled, tries, t, details, next);
        assert forall|a: int| 0 <= a < tries.len() implies self.attempts(
            world,
            settled,
            draw.bireachable,
            draw.oneway,
            a,
            #[trigger] tries[a],
        ) && !succeeds(settled, tries[a]) by {
            self.lemma_drawn_attempts_are_attempts(world, settled, draw, a, tries[a]);
        }
        self.lemma_drawn_attempts_are_attempts(world, settled, draw, tries.len() as int, t);
        assert(self.steps_by(
            world,
            s,
            settled,
            draw.bireachable,
            draw.oneway,
            tries,
            t,
            details,
        ));
    }

    /// What runs with a generator in some state runs.
    pub proof fn lemma_runs_from_are_runs<W: Traversal>(
        self,
        world: &W,
        rng: StdRng,
        states: Seq<StateView<W::Trail>>,
        details: Seq<SpoilerDetails>,
        rngs: Seq<StdRng>,
    )
        requires
            self.runs_from(world, rng, states, details, rngs),
        ensures
            self.runs(world, states, details),
    {
        assert forall|i: int| 0 <= i < details.len() implies self.steps_on(
            world,
            states[i],
            states[i + 1],
            #[trigger] details[i],
        ) by {
            let before = states[i];
            let t = StateView { step_num: before.step_num, ..states[i + 1] };
            self.lemma_steps_from_are_steps(world, before, rngs[i], t, details[i], rngs[i + 1]);
        }
        let item_precedence = choose|item_precedence: Seq<Item>|
            {
                &&& #[trigger] may_shuffle(all_items(), rng, item_precedence, rngs[0])
                &&& self.starts_as_drawn(world, item_precedence, states[0])
            };
        let weapon_mask = choose|weapon_mask: usize|
            {
                &&& #[trigger] self.may_start(world, item_precedence, weapon_mask)
                &&& self.updates(
                    world,
                    self.initial_state(item_precedence, weapon_mask),
                    states[0],
                )
            };
        assert(self.may_start(world, item_precedence, weapon_mask));
    }

    proof fn lemma_starts_agree<W: Traversal>(
        self,
        world: &W,
        rng: StdRng,
        a: StateView<W::Trail>,
        next_a: StdRng,
        b: StateView<W::Trail>,
        next_b: StdRng,
    )
        requires
            self.steady(world),
            shuffles_alike::<Item>(),
            self.starts_from(world, rng, a, next_a),
            self.starts_from(world, rng, b, next_b),
        ensures
            a == b,
            next_a == next_b,
    {
        let p = choose|p: Seq<Item>|
            {
                &&& #[trigger] may_shuffle(all_items(), rng, p, next_a)
                &&& self.starts_as_drawn(world, p, a)
            };
        let q = choose|q: Seq<Item>|
            {
                &&& #[trigger] may_shuffle(all_items(), rng, q, next_b)
                &&& self.starts_as_drawn(world, q, b)
            };
        assert(p == q);
        let m = choose|m: usize|
            {
                &&& #[trigger] self.may_start(world, p, m)
                &&& self.updates(world, self.initial_state(p, m), a)
            };
        let n = choose|n: usize|
            {
                &&& #[trigger] self.may_start(world, q, n)
                &&& self.updates(world, self.initial_state(q, n), b)
            };
        assert(m == n);
        self.lemma_updates_agree(world, self.initial_state(p, m), a, b);
    }

    proof fn lemma_start_or_failure<W: Traversal>(
        self,
        world: &W,
        rng: StdRng,
        s: StateView<W::Trail>,
        next: StdRng,
        end: StdRng,
    )
        requires
            self.steady(world),
            shuffles_alike::<Item>(),
            self.starts_from(world, rng, s, next),
        ensures
            !self.start_fails_from(world, rng, end),
    {
        let p = choose|p: Seq<Item>|
            {
                &&& #[trigger] may_shuffle(all_items(), rng, p, next)
                &&& self.starts_as_drawn(world, p, s)
            };
        let m = choose|m: usize|
            {
                &&& #[trigger] self.may_start(world, p, m)
                &&& self.updates(world, self.initial_state(p, m), s)
            };
        let first = self.initial_state::<W::Trail>(p, m);
        self.lemma_updates_not_short(world, first, s);
        assert forall|q: Seq<Item>| #[trigger]
            may_shuffle(all_items(), rng, q, end) implies !self.start_fails_as_drawn(
            world,
            q,
        ) by {
            assert(p == q);
            assert forall|n: usize| #[trigger]
                self.may_start(world, q, n) implies !self.falls_short(
                world,
                self.initial_global(n),
            ) by {
                assert(m == n);
                assert(first.global == self.initial_global(n));
            }
        }
    }

    proof fn lemma_runs_agree<W: Traversal>(
        self,
        world: &W,
        rng: StdRng,
        x: Seq<StateView<W::Trail>>,
        details_x: Seq<SpoilerDetails>,
        rngs_x: Seq<StdRng>,
        y: Seq<StateView<W::Trail>>,
        details_y: Seq<SpoilerDetails>,
        rngs_y: Seq<StdRng>,
        n: int,
    )
        requires
            self.steady(world),
            shuffles_alike::<Item>(),
            shuffles_alike::<ItemLocationId>(),
            self.runs_from(world, rng, x, details_x, rngs_x),
            self.runs_from(world, rng, y, details_y, rngs_y),
            0 <= n < x.len(),
            n < y.len(),
        ensures
            x[n] == y[n],
            rngs_x[n] == rngs_y[n],
            n > 0 ==> same_step(details_x[n - 1], details_y[n - 1]),
        decreases n,
    {
        if n == 0 {
            self.lemma_starts_agree(world, rng, x[0], rngs_x[0], y[0], rngs_y[0]);
        } else {
            self.lemma_runs_agree(
                world,
                rng,
                x,
                details_x,
                rngs_x,
                y,
                details_y,
                rngs_y,
                n - 1,
            );
            let before = x[n - 1];
            let step_x = details_x[n - 1];
            let step_y = details_y[n - 1];
            assert(self.steps_on_from(
                world,
                before,
                rngs_x[n - 1],
                x[n - 1 + 1],
                step_x,
                rngs_x[n - 1 + 1],
            ));
            assert(self.steps_on_from(
                world,
                before,
                rngs_x[n - 1],
                y[n - 1 + 1],
                step_y,
                rngs_y[n - 1 + 1],
            ));
            let a = StateView { step_num: before.step_num, ..x[n] };
            let b = StateView { step_num: before.step_num, ..y[n] };
            self.lemma_steps_from_agree(
                world,
                before,
                rngs_x[n - 1],
                a,
                step_x,
                rngs_x[n],
                b,
                step_y,
                rngs_y[n],
            );
            assert(x[n] == (StateView { step_num: x[n].step_num, ..a }));
            assert(y[n] == (StateView { step_num: y[n].step_num, ..b }));
        }
    }

    /// A run that has come to its end, done or by a failing step, goes no further.
    proof fn lemma_ended_run_is_longest<W: Traversal>(
        self,
        world: &W,
        rng: StdRng,
        x: Seq<StateView<W::Trail>>,
        details_x: Seq<SpoilerDetails>,
        rngs_x: Seq<StdRng>,
        failure: Failure,
        next: StdRng,
        y: Seq<StateView<W::Trail>>,
        details_y: Seq<SpoilerDetails>,
        rngs_y: Seq<StdRng>,
    )
        requires
            self.valid(),
            self.steady(world),
            shuffles_alike::<Item>(),
            shuffles_alike::<ItemLocationId>(),
            self.runs_from(world, rng, x, details_x, rngs_x),
            x.last().done || self.run_fails_from(
                world,
                rng,
                x,
                details_x,
                rngs_x,
                failure,
                next,
            ),
            self.runs_from(world, rng, y, details_y, rngs_y),
        ensures
            y.len() <= x.len(),
    {
        if x.len() < y.len() {
            let n = x.len() - 1;
            self.lemma_runs_agree(
                world,
                rng,
                x,
                details_x,
                rngs_x,
                y,
                details_y,
                rngs_y,
                n,
            );
            assert(self.steps_on_from(
                world,
                y[n],
                rngs_y[n],
                y[n + 1],
                details_y[n],
                rngs_y[n + 1],
            ));
            if !x.last().done {
                self.lemma_runs_from_are_runs(world, rng, x, details_x, rngs_x);
                law_attempts_stay_on_track(self, world, x, details_x, n);
                let t = StateView { step_num: y[n].step_num, ..y[n + 1] };
                self.lemma_step_or_failure_from(
                    world,
                    y[n],
                    rngs_y[n],
                    t,
                    details_y[n],
                    rngs_y[n + 1],
                    failure,
                    next,
                );
            }
        }
    }

    proof fn lemma_ended_runs_agree<W: Traversal>(
        self,
        world: &W,
        rng: StdRng,
        x: Seq<StateView<W::Trail>>,
        details_x: Seq<SpoilerDetails>,
        rngs_x: Seq<StdRng>,
        f: Failure,
        next_f: StdRng,
        y: Seq<StateView<W::Trail>>,
        details_y: Seq<SpoilerDetails>,
        rngs_y: Seq<StdRng>,
        g: Failure,
        next_g: StdRng,
    )
        requires
            self.valid(),
            self.steady(world),
            shuffles_alike::<Item>(),
            shuffles_alike::<ItemLocationId>(),
            self.runs_from(world, rng, x, details_x, rngs_x),
            x.last().done || self.run_fails_from(world, rng, x, details_x, rngs_x, f, next_f),
            self.runs_from(world, rng, y, details_y, rngs_y),
            y.last().done || self.run_fails_from(world, rng, y, details_y, rngs_y, g, next_g),
        ensures
            x == y,
            same_log(details_x, details_y),
            rngs_x.last() == rngs_y.last(),
            !x.last().done ==> f == g && next_f == next_g,
    {
        self.lemma_ended_run_is_longest(
            world,
            rng,
            x,
            details_x,
            rngs_x,
            f,
            next_f,
            y,
            details_y,
            rngs_y,
        );
        self.lemma_ended_run_is_longest(
            world,
            rng,
            y,
            details_y,
            rngs_y,
            g,
            next_g,
            x,
            details_x,
            rngs_x,
        );
        assert forall|n: int| 0 <= n < x.len() implies x[n] == y[n] by {
            self.lemma_runs_agree(
                world,
                rng,
                x,
                details_x,
                rngs_x,
                y,
                details_y,
                rngs_y,
                n,
            );
        }
        assert(x =~= y);
        assert forall|i: int| 0 <= i < details_x.len() implies same_step(
            #[trigger] details_x[i],
            #[trigger] details_y[i],
        ) by {
            self.lemma_runs_agree(
                world,
                rng,
                x,
                details_x,
                rngs_x,
                y,
                details_y,
                rngs_y,
                i + 1,
            );
        }
        self.lemma_runs_agree(
            world,
            rng,
            x,
            details_x,
            rngs_x,
            y,
            details_y,
            rngs_y,
            x.len() - 1,
        );
        if !x.last().done {
            self.lemma_failures_from_agree(
                world,
                x.last(),
                rngs_x.last(),
                f,
                next_f,
                g,
                next_g,
            );
        }
    }

    /// The progress told of equal states is equal.
    proof fn lemma_progress_agrees<T>(
        self,
        states: Seq<StateView<T>>,
        a: Seq<Progress>,
        b: Seq<Progress>,
    )
        requires
            self.tells_progress(states, a),
            self.tells_progress(states, b),
            a.len() == b.len(),
        ensures
            a == b,
    {
        assert forall|i: int| 0 <= i < a.len() implies a[i] == b[i] by {
            assert(a[i] == b[i]);
        }
        assert(a =~= b);
    }

    /// The states of an attempt that got beyond the first look at the map, with the accounts
    /// of its steps.
    spec fn went_by<W: Traversal>(
        self,
        world: &W,
        rng: StdRng,
        attempt: Attempt,
        next: StdRng,
        states: Seq<StateView<W::Trail>>,
        details: Seq<SpoilerDetails>,
        rngs: Seq<StdRng>,
    ) -> bool {
        &&& self.runs_from(world, rng, states, details, rngs)
        &&& self.tells_progress(states, attempt.progress@)
        &&& match attempt.outcome {
            Ok(randomization) => {
                &&& details == randomization.spoiler_log.details@
                &&& self.produces(world, states, randomization)
                &&& attempt.progress@.len() == states.len() - 1
                &&& rngs.last() == next
            },
            Err(failure) => {
                &&& self.run_fails_from(world, rng, states, details, rngs, failure, next)
                &&& attempt.progress@.len() == states.len()
            },
        }
    }

    /// The attempt ended with the first look at the map.
    spec fn ended_at_start<W: Traversal>(
        self,
        world: &W,
        rng: StdRng,
        attempt: Attempt,
        next: StdRng,
    ) -> bool {
        &&& attempt.progress@.len() == 0
        &&& match attempt.outcome {
            Err(Failure::NoBireachableLocation) => exists|s: StateView<W::Trail>| #[trigger]
                self.starts_from(world, rng, s, next) && !self.any_bireachable(s),
            Err(Failure::TraversalTooShort) => self.start_fails_from(world, rng, next),
            _ => false,
        }
    }

    proof fn lemma_attempt_kinds<W: Traversal>(
        self,
        world: &W,
        rng: StdRng,
        attempt: Attempt,
        next: StdRng,
    )
        requires
            self.may_come_out_from(world, rng, attempt, next),
        ensures
            self.ended_at_start(world, rng, attempt, next) || exists|
                states: Seq<StateView<W::Trail>>,
                details: Seq<SpoilerDetails>,
                rngs: Seq<StdRng>,
            | #[trigger]
                self.went_by(world, rng, attempt, next, states, details, rngs),
    {
        match attempt.outcome {
            Ok(randomization) => {
                let details = randomization.spoiler_log.details@;
                let (states, rngs) = choose|
                    states: Seq<StateView<W::Trail>>,
                    rngs: Seq<StdRng>,
                |
                    {
                        &&& #[trigger] self.runs_from(world, rng, states, details, rngs)
                        &&& rngs.last() == next
                        &&& self.produces(world, states, randomization)
                        &&& self.tells_progress(states, attempt.progress@)
                        &&& attempt.progress@.len() == states.len() - 1
                    };
                assert(self.went_by(world, rng, attempt, next, states, details, rngs));
            },
            Err(failure) => {
                if !self.ended_at_start(world, rng, attempt, next) {
                    let (states, details, rngs) = choose|
                        states: Seq<StateView<W::Trail>>,
                        details: Seq<SpoilerDetails>,
                        rngs: Seq<StdRng>,
                    |
                        {
                            &&& #[trigger] self.run_fails_from(
                                world,
                                rng,
                                states,
                                details,
                                rngs,
                                failure,
                                next,
                            )
                            &&& self.tells_progress(states, attempt.progress@)
                            &&& attempt.progress@.len() == states.len()
                        };
                    assert(self.went_by(world, rng, attempt, next, states, details, rngs));
                }
            },
        }
    }

    /// An attempt that ended with the first look at the map has no steps.
    proof fn lemma_start_excludes_steps<W: Traversal>(
        self,
        world: &W,
        rng: StdRng,
        attempt: Attempt,
        next: StdRng,
        states: Seq<StateView<W::Trail>>,
        details: Seq<SpoilerDetails>,
        rngs: Seq<StdRng>,
    )
        requires
            self.steady(world),
            shuffles_alike::<Item>(),
            self.ended_at_start(world, rng, attempt, next),
        ensures
            !self.runs_from(world, rng, states, details, rngs),
    {
        if self.runs_from(world, rng, states, details, rngs) {
            self.lemma_start_or_failure(world, rng, states[0], rngs[0], next);
            let s = choose|s: StateView<W::Trail>| #[trigger]
                self.starts_from(world, rng, s, next) && !self.any_bireachable(s);
            if attempt.outcome->Err_0 == Failure::NoBireachableLocation {
                self.lemma_starts_agree(world, rng, s, next, states[0], rngs[0]);
            }
        }
    }

    /// Attempts that both end with the first look at the map end there for one reason.
    proof fn lemma_ended_starts_agree<W: Traversal>(
        self,
        world: &W,
        rng: StdRng,
        a: Attempt,
        next_a: StdRng,
        b: Attempt,
        next_b: StdRng,
    )
        requires
            self.steady(world),
            shuffles_alike::<Item>(),
            self.ended_at_start(world, rng, a, next_a),
            self.ended_at_start(world, rng, b, next_b),
        ensures
            same_attempt(a, b),
            next_a == next_b,
    {
        assert(a.progress@ =~= b.progress@);
        let s = choose|s: StateView<W::Trail>| #[trigger]
            self.starts_from(world, rng, s, next_a) && !self.any_bireachable(s);
        let t = choose|t: StateView<W::Trail>| #[trigger]
            self.starts_from(world, rng, t, next_b) && !self.any_bireachable(t);
        if a.outcome->Err_0 == Failure::NoBireachableLocation {
            self.lemma_start_or_failure(world, rng, s, next_a, next_b);
            self.lemma_starts_agree(world, rng, s, next_a, t, next_b);
        } else if b.outcome->Err_0 == Failure::NoBireachableLocation {
            self.lemma_start_or_failure(world, rng, t, next_b, next_a);
        }
    }
}

/// With a steady model, and if shuffling alike gives the same, two attempts with generators in
/// the same state go the same way, and leave the generators in the same state.
pub proof fn law_generator_determines_the_outcome<W: Traversal>(
    randomizer: Randomizer,
    world: &W,
    rng: StdRng,
    a: Attempt,
    next_a: StdRng,
    b: Attempt,
    next_b: StdRng,
)
    requires
        randomizer.valid(),
        randomizer.steady(world),
        shuffles_alike::<Item>(),
        shuffles_alike::<ItemLocationId>(),
        randomizer.may_come_out_from(world, rng, a, next_a),
        randomizer.may_come_out_from(world, rng, b, next_b),
    ensures
        same_attempt(a, b),
        next_a == next_b,
{
    randomizer.lemma_attempt_kinds(world, rng, a, next_a);
    randomizer.lemma_attempt_kinds(world, rng, b, next_b);
    let (x, details_x, rngs_x) = choose|
        states: Seq<StateView<W::Trail>>,
        details: Seq<SpoilerDetails>,
        rngs: Seq<StdRng>,
    | #[trigger]
        randomizer.went_by(world, rng, a, next_a, states, details, rngs);
    let (y, details_y, rngs_y) = choose|
        states: Seq<StateView<W::Trail>>,
        details: Seq<SpoilerDetails>,
        rngs: Seq<StdRng>,
    | #[trigger]
        randomizer.went_by(world, rng, b, next_b, states, details, rngs);
    if randomizer.ended_at_start(world, rng, a, next_a) {
        randomizer.lemma_start_excludes_steps(
            world,
            rng,
            a,
            next_a,
            y,
            details_y,
            rngs_y,
        );
        randomizer.lemma_ended_starts_agree(world, rng, a, next_a, b, next_b);
    } else if randomizer.ended_at_start(world, rng, b, next_b) {
        randomizer.lemma_start_excludes_steps(
            world,
            rng,
            b,
            next_b,
            x,
            details_x,
            rngs_x,
        );
    } else {
        randomizer.lemma_ended_runs_agree(
            world,
            rng,
            x,
            details_x,
            rngs_x,
            a.outcome->Err_0,
            next_a,
            y,
            details_y,
            rngs_y,
            b.outcome->Err_0,
            next_b,
        );
        randomizer.lemma_progress_agrees(x, a.progress@, b.progress@);
    }
}

}
