//! Solving a spot: iterations, and how far the strategies still are from
//! being unexploitable.

use crate::cfr::Solver;
use crate::game::Dealt;
use crate::num;
use crate::num::{Num, Single};
use crate::session::SolvePlan;
use crate::terminal;
use crate::terminal::compatible_reach;
use vstd::prelude::*;

verus! {

/// Values weighted hand by hand.
pub open spec fn weighed<S: Single>(weights: Seq<S>, vals: Seq<S>) -> Seq<S::Wide> {
    Seq::new(weights.len(), |i: int| weights[i].widened_spec().times_spec(vals[i].widened_spec()))
}

/// Met reach weighted hand by hand.
pub open spec fn met<S: Single>(weights: Seq<S>, reach: Seq<S::Wide>) -> Seq<S::Wide> {
    Seq::new(weights.len(), |i: int| weights[i].widened_spec().times_spec(reach[i]))
}

fn weigh<S: Single>(weights: &Vec<S>, vals: &Vec<S>) -> (r: S::Wide)
    requires
        vals@.len() == weights@.len(),
    ensures
        r == num::total_of(weighed(weights@, vals@)),
{
    let ghost terms = weighed(weights@, vals@);
    let mut acc = S::Wide::decimal(0, 0);
    let mut i: usize = 0;
    assert(terms.take(0) =~= Seq::<S::Wide>::empty());
    while i < weights.len()
        invariant
            i <= weights@.len() == vals@.len(),
            terms == weighed(weights@, vals@),
            acc == num::total_of(terms.take(i as int)),
        decreases weights@.len() - i,
    {
        assert(terms.take(i + 1).drop_last() =~= terms.take(i as int));
        acc = acc.plus(weights[i].widened().times(vals[i].widened()));
        i = i + 1;
    }
    assert(terms.take(terms.len() as int) =~= terms);
    acc
}

fn weigh_met<S: Single>(weights: &Vec<S>, reach: &Vec<S::Wide>) -> (r: S::Wide)
    requires
        reach@.len() == weights@.len(),
    ensures
        r == num::total_of(met(weights@, reach@)),
{
    let ghost terms = met(weights@, reach@);
    let mut acc = S::Wide::decimal(0, 0);
    let mut i: usize = 0;
    assert(terms.take(0) =~= Seq::<S::Wide>::empty());
    while i < weights.len()
        invariant
            i <= weights@.len() == reach@.len(),
            terms == met(weights@, reach@),
            acc == num::total_of(terms.take(i as int)),
        decreases weights@.len() - i,
    {
        assert(terms.take(i + 1).drop_last() =~= terms.take(i as int));
        acc = acc.plus(weights[i].widened().times(reach[i]));
        i = i + 1;
    }
    assert(terms.take(terms.len() as int) =~= terms);
    acc
}

impl<S: Single> Solver<S> {
    /// What player `p` wins on average over all deals, playing on as it does,
    /// or as well as the locks allow.
    pub open spec fn winnings(&self, best: bool, p: int) -> S::Wide {
        let o = 1 - p;
        num::total_of(
            weighed(
                self.spot.weights[p]@,
                self.worth(best, 0, p, self.spot.weights[o]@, Seq::empty()),
            ),
        ).over_spec(
            num::total_of(
                met(
                    self.spot.weights[p]@,
                    terminal::met_reach(
                        self.spot.hands[p]@,
                        self.spot.hands[o]@,
                        self.spot.weights[o]@,
                        self.spot.same_combo[p]@,
                    ),
                ),
            ),
        )
    }

    /// How much the two players would gain on average, each by its best
    /// response to the other; in chips.
    pub open spec fn exploited(&self) -> S::Wide {
        self.winnings(true, 0).minus_spec(self.winnings(false, 0)).plus_spec(
            self.winnings(true, 1).minus_spec(self.winnings(false, 1)),
        ).over_spec(S::Wide::decimal_spec(2, 0))
    }

    fn gain(&self, p: usize) -> (r: S::Wide)
        requires
            self.wf(),
            p < 2,
        ensures
            r == self.winnings(true, p as int).minus_spec(self.winnings(false, p as int)),
    {
        proof {
            self.lemma_root();
            self.lemma_hands(0);
            self.lemma_hands(1);
        }
        let o: usize = 1 - p;
        let none = Dealt::default();
        let reach = compatible_reach(
            self.spot.hands[p].as_slice(),
            self.spot.hands[o].as_slice(),
            self.spot.weights[o].as_slice(),
            self.spot.same_combo[p].as_slice(),
        );
        let all = weigh_met(&self.spot.weights[p], &reach);
        let best = self.traverse_br(0, p, &self.spot.weights[o], none);
        let usual = self.traverse_avg(0, p, &self.spot.weights[o], none);
        let top = weigh(&self.spot.weights[p], &best).over(all);
        let now = weigh(&self.spot.weights[p], &usual).over(all);
        top.minus(now)
    }

    /// How exploitable the two strategies are together, in chips: a true best
    /// response is played both ways.
    pub fn exploitability(&self) -> (r: S::Wide)
        requires
            self.wf(),
        ensures
            r == self.exploited(),
    {
        self.gain(0).plus(self.gain(1)).over(S::Wide::decimal(2, 0))
    }

    /// Whether a solver is another one made ready for an iteration: its locks
    /// hold on the runouts that mirror the locked ones too.
    pub open spec fn readied(&self, other: &Self) -> bool {
        &&& self.wf()
        &&& self.spot == other.spot
        &&& self.iteration == other.iteration
        &&& self.lock_labels == other.lock_labels
        &&& self.use_isomorphism == other.use_isomorphism
        &&& self.held() == if other.locks@.len() > 0 {
            other.settled()
        } else {
            other.held()
        }
    }

    /// Whether a solver is another one an iteration further.
    pub open spec fn follows(&self, ready: Self) -> bool {
        &&& self.spot == ready.spot
        &&& self.iteration == ready.iteration + 1
        &&& self.locks == ready.locks
        &&& self.lock_labels == ready.lock_labels
        &&& self.use_isomorphism == ready.use_isomorphism
        &&& self.sym_dirty
        &&& self.tables() == (Solver {
            iteration: (ready.iteration + 1) as u32,
            sym_dirty: true,
            ..ready
        }).played_through(ready.tables())
    }

    /// Whether a plan calls for no more iterations of a solver.
    pub open spec fn done_by(&self, plan: SolvePlan<S::Wide>) -> bool {
        plan.due(self.iteration) && plan.reached(self.iteration, self.exploited())
    }

    /// Whether a solver is another one `n` iterations further, the plan having
    /// called for every one of them after the first.
    pub open spec fn iterated_to(&self, start: Self, n: nat, plan: SolvePlan<S::Wide>) -> bool
        decreases n,
    {
        if n == 0 {
            *self == start
        } else {
            exists|mid: Solver<S>, ready: Solver<S>|
                {
                    &&& mid.iterated_to(start, (n - 1) as nat, plan)
                    &&& n > 1 ==> !mid.done_by(plan)
                    &&& #[trigger] ready.readied(&mid)
                    &&& #[trigger] self.follows(ready)
                }
        }
    }

    /// One iteration: each player in turn learns from a walk of the whole
    /// game.
    pub fn iterate(&mut self)
        requires
            old(self).wf(),
            old(self).iteration < u32::MAX,
        ensures
            final(self).wf(),
            final(self).spot == old(self).spot,
            final(self).iteration == old(self).iteration + 1,
            final(self).lock_labels == old(self).lock_labels,
            final(self).use_isomorphism == old(self).use_isomorphism,
            exists|ready: Solver<S>|
                #[trigger] ready.readied(old(self)) && final(self).follows(ready),
    {
        if self.locks.len() > 0 {
            self.ensure_symmetric();
        }
        let ghost ready = *self;
        assert(ready.readied(old(self)));
        self.self_play();
        assert(self.follows(ready));
    }

    /// Solves until the exploitability is at most `target` percent of the
    /// pot, measured every twenty iterations, or `max_iterations` are made.
    /// Returns the iteration and the exploitability reached: the first that
    /// was due and met either end.
    pub fn solve_quiet(&mut self, max_iterations: u32, target: S::Wide) -> (r: (u32, S::Wide))
        requires
            old(self).wf(),
            old(self).iteration < u32::MAX,
        ensures
            final(self).wf(),
            final(self).spot == old(self).spot,
            final(self).lock_labels == old(self).lock_labels,
            final(self).use_isomorphism == old(self).use_isomorphism,
            r.0 == final(self).iteration,
            r.0 > old(self).iteration,
            ({
                let plan = SolvePlan {
                    max_iterations,
                    target_exploit_pct: target,
                    check_every: 20,
                    base: 0,
                    pot: old(self).spot.tree.config.starting_pot,
                };
                &&& r.1 == plan.percent(final(self).exploited())
                &&& final(self).done_by(plan)
                &&& final(self).iterated_to(
                    *old(self),
                    (r.0 - old(self).iteration) as nat,
                    plan,
                )
            }),
    {
        let plan = SolvePlan {
            max_iterations,
            target_exploit_pct: target,
            check_every: 20,
            base: 0,
            pot: self.spot.tree.config.starting_pot,
        };
        loop
            invariant
                self.wf(),
                self.spot == old(self).spot,
                self.lock_labels == old(self).lock_labels,
                self.use_isomorphism == old(self).use_isomorphism,
                old(self).iteration <= self.iteration < u32::MAX,
                plan == (SolvePlan {
                    max_iterations,
                    target_exploit_pct: target,
                    check_every: 20,
                    base: 0,
                    pot: old(self).spot.tree.config.starting_pot,
                }),
                self.iterated_to(
                    *old(self),
                    (self.iteration - old(self).iteration) as nat,
                    plan,
                ),
                self.iteration > old(self).iteration ==> !self.done_by(plan),
            decreases u32::MAX - self.iteration,
        {
            let ghost mid = *self;
            self.iterate();
            proof {
                let ready = choose|ready: Solver<S>|
                    #[trigger] ready.readied(&mid) && self.follows(ready);
                assert(ready.readied(&mid) && self.follows(ready));
                assert(mid.iterated_to(
                    *old(self),
                    (mid.iteration - old(self).iteration) as nat,
                    plan,
                ));
            }
            if plan.is_due(self.iteration) {
                let (pct, over) = plan.judge(self.iteration, self.exploitability());
                if over {
                    return (self.iteration, pct);
                }
            }
        }
    }
}

} // verus!
