//! Walking a preflop game: self-play, best responses and expectations.

use crate::classes;
use crate::classes::{class_prob, NUM_CLASSES};
use crate::discount::Discount;
use crate::num;
use crate::num::{Num, Single};
use crate::preflop_build;
use crate::preflop_solver;
use crate::preflop_solver::PreflopSolver;
use crate::preflop_tree::{Knot, KIND_ACTION};
use crate::preflop_values;
use crate::preflop_values::terminal_value;
use crate::strategy;
use crate::strategy::{copied, mix, pass_action, peak, pool};
use vstd::prelude::*;

verus! {

/// Seat `p`'s gains, class by class, weighted by how likely the class is.
pub open spec fn gain_terms<S: Single>(vals: Seq<S>) -> Seq<S::Wide> {
    Seq::new(
        169,
        |h: int| classes::class_chance::<S>(h).widened_spec().times_spec(vals[h].widened_spec()),
    )
}

/// What a seat gains over all its hands.
pub open spec fn gain<S: Single>(vals: Seq<S>) -> S::Wide {
    num::total_of(gain_terms(vals))
}

/// How much more one set of values is than another.
pub open spec fn margins<S: Num>(more: Seq<S>, less: Seq<S>) -> Seq<S> {
    Seq::new(169, |h: int| more[h].minus_spec(less[h]))
}

fn gain_of<S: Single>(vals: &Vec<S>) -> (r: S::Wide)
    requires
        vals@.len() == 169,
    ensures
        r == gain(vals@),
{
    let ghost terms = gain_terms(vals@);
    let mut acc = S::Wide::decimal(0, 0);
    let mut h: usize = 0;
    assert(terms.take(0) =~= Seq::<S::Wide>::empty());
    while h < NUM_CLASSES
        invariant
            h <= 169,
            vals@.len() == 169,
            terms == gain_terms(vals@),
            acc == num::total_of(terms.take(h as int)),
        decreases 169 - h,
    {
        assert(terms.take(h + 1).drop_last() =~= terms.take(h as int));
        let chance: S = class_prob(h);
        acc = acc.plus(chance.widened().times(vals[h].widened()));
        h = h + 1;
    }
    assert(terms.take(169) =~= terms);
    acc
}

fn margins_of<S: Num>(more: &Vec<S>, less: &Vec<S>) -> (r: Vec<S>)
    requires
        more@.len() == 169,
        less@.len() == 169,
    ensures
        r@ == margins(more@, less@),
{
    let mut out: Vec<S> = Vec::new();
    let mut h: usize = 0;
    while h < NUM_CLASSES
        invariant
            h <= 169,
            more@.len() == 169,
            less@.len() == 169,
            out@ == margins(more@, less@).take(h as int),
        decreases 169 - h,
    {
        out.push(more[h].minus(less[h]));
        assert(out@ =~= margins(more@, less@).take(h + 1));
        h = h + 1;
    }
    assert(out@ =~= margins(more@, less@));
    out
}

impl<S: Single> PreflopSolver<S> {
    /// What seat `p` expects below a node by its class, where all play on
    /// average as solved, or where it plays its best response.
    fn appraise(&self, node: usize, p: usize, best: bool, reaches: &mut Vec<Vec<S>>) -> (r: Vec<S>)
        requires
            self.wf(),
            node < self.nodes@.len(),
            p < self.n,
            preflop_values::ranged(strategy::lines(old(reaches)@), self.n as int),
        ensures
            r@ == self.field().worth(
                self.strat_sum@,
                node as int,
                p as int,
                best,
                strategy::lines(old(reaches)@),
            ),
            r@.len() == 169,
            strategy::lines(final(reaches)@) == strategy::lines(old(reaches)@),
        decreases self.nodes@.len() - node,
    {
        let ghost f = self.field();
        let ghost was = strategy::lines(reaches@);
        proof {
            self.lemma_node(node as int);
        }
        if self.nodes[node].kind != KIND_ACTION {
            return terminal_value(&self.cfg, &self.eq, &self.nodes[node], p, reaches);
        }
        let ghost nd = f.tree.nodes[node as int];
        let actor: usize = self.nodes[node].actor as usize;
        let na: usize = self.nodes[node].actions.len();
        let start: usize = self.nodes[node].child_start as usize;
        let sigma = self.average_strategy(node);
        assert(was[actor as int].len() == 169);
        let saved = copied(reaches[actor].as_slice());
        let mut vals: Vec<Vec<S>> = Vec::new();
        let mut a: usize = 0;
        let slots: usize = self.children.len();
        while a < na
            invariant
                self.wf(),
                f == self.field(),
                node < self.nodes@.len(),
                nd == f.tree.nodes[node as int],
                self.nodes@[node as int]@ == nd,
                nd.kind == KIND_ACTION,
                preflop_build::knot_sound(self.n as int, f.tree, node as int),
                p < self.n,
                actor == nd.actor,
                actor < self.n,
                na == nd.actions.len(),
                start == nd.child_start,
                slots == self.children@.len(),
                a <= na,
                sigma@ == f.plays(self.strat_sum@, node as int),
                sigma@.len() == na * 169,
                saved@ == was[actor as int],
                saved@.len() == 169,
                preflop_values::ranged(was, self.n as int),
                reaches@.len() == self.n,
                strategy::lines(reaches@).update(actor as int, saved@) =~= was,
                vals@.len() == a,
                forall|x: int| 0 <= x < a ==> (#[trigger] vals@[x])@.len() == 169,
                strategy::lines(vals@) == f.worth_below(
                    self.strat_sum@,
                    node as int,
                    p as int,
                    best,
                    was,
                    a as nat,
                ),
            decreases na - a,
        {
            let next = pass_action(saved.as_slice(), sigma.as_slice(), na, a);
            assert(next@.len() == 169);
            reaches.set(actor, next);
            let ghost passed = preflop_solver::acted(was, actor as int, sigma@, a as int);
            assert(strategy::lines(reaches@) =~= passed);
            assert(preflop_values::ranged(passed, self.n as int));
            assert(node < f.tree.children[nd.child_start + a] < f.tree.nodes.len());
            let child: usize = self.children[start + a] as usize;
            let v = self.appraise(child, p, best, reaches);
            assert(strategy::lines(reaches@) =~= passed);
            let ghost before = strategy::lines(vals@);
            vals.push(v);
            assert(strategy::lines(vals@) =~= before.push(v@));
            assert(strategy::lines(reaches@).update(actor as int, saved@) =~= was) by {
                assert(strategy::lines(reaches@) == passed);
            }
            proof {
                assert(f.child(node as int, (a + 1) - 1) == child);
                assert(f.worth_below(
                    self.strat_sum@,
                    node as int,
                    p as int,
                    best,
                    was,
                    (a + 1) as nat,
                ) == before.push(v@));
            }
            a = a + 1;
        }
        reaches.set(actor, saved);
        assert(strategy::lines(reaches@) =~= was);
        if actor != p {
            pool(&vals, NUM_CLASSES)
        } else if best {
            peak(&vals, NUM_CLASSES)
        } else {
            mix(&sigma, &vals, NUM_CLASSES)
        }
    }

    fn learn(
        &mut self,
        off: usize,
        sigma: &Vec<S>,
        vals: &Vec<Vec<S>>,
        out: &Vec<S>,
        reach: &Vec<S>,
        Ghost(nd): Ghost<Knot<S>>,
    )
        requires
            old(self).wf(),
            nd.data_off == off,
            nd.actions.len() == vals@.len(),
            off + vals@.len() * 169 <= old(self).arena_len,
            sigma@.len() == vals@.len() * 169,
            out@.len() == 169,
            reach@.len() == 169,
            forall|x: int| 0 <= x < vals@.len() ==> (#[trigger] vals@[x])@.len() == 169,
        ensures
            final(self).wf(),
            final(self).field() == old(self).field(),
            final(self).iteration == old(self).iteration,
            final(self).arenas() == old(self).field().learnt(
                old(self).arenas(),
                nd,
                sigma@,
                strategy::lines(vals@),
                out@,
                reach@,
                preflop_build::cells(vals@.len()),
            ),
    {
        let count: usize = sigma.len();
        let ghost f = self.field();
        let ghost start = self.arenas();
        let ghost rows = strategy::lines(vals@);
        let mut k: usize = 0;
        assert(self.arenas().regrets =~= f.learnt(
            start,
            nd,
            sigma@,
            rows,
            out@,
            reach@,
            0,
        ).regrets);
        assert(self.arenas().strat =~= f.learnt(start, nd, sigma@, rows, out@, reach@, 0).strat);
        while k < count
            invariant
                k <= count == vals@.len() * 169,
                count == sigma@.len(),
                self.wf(),
                f == self.field(),
                self.iteration == old(self).iteration,
                start.regrets.len() == self.arena_len,
                start.strat.len() == self.arena_len,
                nd.data_off == off,
                off + count <= self.arena_len,
                out@.len() == 169,
                reach@.len() == 169,
                rows == strategy::lines(vals@),
                forall|x: int| 0 <= x < vals@.len() ==> (#[trigger] vals@[x])@.len() == 169,
                self.arenas() == f.learnt(start, nd, sigma@, rows, out@, reach@, k as int),
            decreases count - k,
        {
            let a: usize = k / 169;
            let h: usize = k % 169;
            let j: usize = off + k;
            assert(rows[a as int] == vals@[a as int]@);
            let ghost was = self.arenas();
            assert(was.regrets[j as int] == start.regrets[j as int]);
            assert(was.strat[j as int] == start.strat[j as int]);
            let regret = self.regrets[j].plus(vals[a][h].minus(out[h]));
            self.regrets.set(j, regret);
            let sum = self.strat_sum[j].plus(reach[h].times(sigma[k]));
            self.strat_sum.set(j, sum);
            proof {
                let want = f.learnt(start, nd, sigma@, rows, out@, reach@, k + 1);
                assert forall|x: int| 0 <= x < want.regrets.len() implies self.arenas().regrets[x]
                    == want.regrets[x] by {
                    if x != j {
                        assert(self.arenas().regrets[x] == was.regrets[x]);
                    }
                }
                assert forall|x: int| 0 <= x < want.strat.len() implies self.arenas().strat[x]
                    == want.strat[x] by {
                    if x != j {
                        assert(self.arenas().strat[x] == was.strat[x]);
                    }
                }
                assert(self.arenas().regrets =~= want.regrets);
                assert(self.arenas().strat =~= want.strat);
            }
            k = k + 1;
        }
    }

    /// One walk of self-play below a node for seat `p`, which learns from it.
    fn traverse(&mut self, node: usize, p: usize, reaches: &mut Vec<Vec<S>>) -> (r: Vec<S>)
        requires
            old(self).wf(),
            node < old(self).nodes@.len(),
            p < old(self).n,
            preflop_values::ranged(strategy::lines(old(reaches)@), old(self).n as int),
        ensures
            final(self).wf(),
            final(self).field() == old(self).field(),
            final(self).iteration == old(self).iteration,
            (r@, final(self).arenas()) == old(self).field().trained(
                old(self).arenas(),
                node as int,
                p as int,
                strategy::lines(old(reaches)@),
            ),
            r@.len() == 169,
            strategy::lines(final(reaches)@) == strategy::lines(old(reaches)@),
        decreases old(self).nodes@.len() - node,
    {
        let ghost f = self.field();
        let ghost ar = self.arenas();
        let ghost was = strategy::lines(reaches@);
        proof {
            self.lemma_node(node as int);
            assert(f.tree.nodes.len() == self.nodes@.len());
        }
        if self.nodes[node].kind != KIND_ACTION {
            return terminal_value(&self.cfg, &self.eq, &self.nodes[node], p, reaches);
        }
        let ghost nd = f.tree.nodes[node as int];
        let actor: usize = self.nodes[node].actor as usize;
        let na: usize = self.nodes[node].actions.len();
        let start: usize = self.nodes[node].child_start as usize;
        let off: usize = self.nodes[node].data_off;
        let frozen = self.seat_frozen[actor];
        let (sigma, learns) = match self.forced_strategy(node) {
            Some(sigma) => (sigma, false),
            None => if frozen {
                (self.solved_strategy(node), false)
            } else {
                (self.current_strategy(node), true)
            },
        };
        assert(was[actor as int].len() == 169);
        let saved = copied(reaches[actor].as_slice());
        let mut vals: Vec<Vec<S>> = Vec::new();
        let mut a: usize = 0;
        let slots: usize = self.children.len();
        while a < na
            invariant
                self.wf(),
                f == self.field(),
                self.iteration == old(self).iteration,
                f.tree.nodes.len() == old(self).nodes@.len(),
                f.tree.nodes.len() == self.nodes@.len(),
                node < f.tree.nodes.len(),
                nd == f.tree.nodes[node as int],
                nd.kind == KIND_ACTION,
                preflop_build::knot_sound(self.n as int, f.tree, node as int),
                p < self.n,
                actor == nd.actor,
                actor < self.n,
                na == nd.actions.len(),
                start == nd.child_start,
                slots == f.tree.children.len(),
                a <= na,
                sigma@ == f.tries(ar, node as int),
                learns == f.learns(node as int),
                sigma@.len() == na * 169,
                saved@ == was[actor as int],
                saved@.len() == 169,
                preflop_values::ranged(was, self.n as int),
                reaches@.len() == self.n,
                strategy::lines(reaches@).update(actor as int, saved@) =~= was,
                vals@.len() == a,
                forall|x: int| 0 <= x < a ==> (#[trigger] vals@[x])@.len() == 169,
                (strategy::lines(vals@), self.arenas()) == f.trained_below(
                    ar,
                    node as int,
                    p as int,
                    was,
                    sigma@,
                    a as nat,
                ),
            decreases na - a,
        {
            let next = pass_action(saved.as_slice(), sigma.as_slice(), na, a);
            assert(next@.len() == 169);
            reaches.set(actor, next);
            let ghost passed = preflop_solver::acted(was, actor as int, sigma@, a as int);
            assert(strategy::lines(reaches@) =~= passed);
            assert(preflop_values::ranged(passed, self.n as int));
            assert(node < f.tree.children[nd.child_start + a] < f.tree.nodes.len());
            let child: usize = self.children[start + a] as usize;
            let v = self.traverse(child, p, reaches);
            assert(strategy::lines(reaches@) =~= passed);
            let ghost before = strategy::lines(vals@);
            vals.push(v);
            assert(strategy::lines(vals@) =~= before.push(v@));
            assert(strategy::lines(reaches@).update(actor as int, saved@) =~= was) by {
                assert(strategy::lines(reaches@) == passed);
            }
            proof {
                assert(f.child(node as int, (a + 1) - 1) == child);
                assert(f.trained_below(
                    ar,
                    node as int,
                    p as int,
                    was,
                    sigma@,
                    (a + 1) as nat,
                ) == (before.push(v@), self.arenas()));
            }
            a = a + 1;
        }
        reaches.set(actor, saved);
        assert(strategy::lines(reaches@) =~= was);
        if actor != p {
            return pool(&vals, NUM_CLASSES);
        }
        let out = mix(&sigma, &vals, NUM_CLASSES);
        if !learns {
            return out;
        }
        self.learn(off, &sigma, &vals, &out, &reaches[p], Ghost(nd));
        out
    }

    /// One iteration: every seat in turn learns from a walk of the whole
    /// game, and what was learnt before counts for less.
    pub fn iterate(&mut self)
        requires
            old(self).wf(),
            old(self).iteration < u32::MAX,
        ensures
            final(self).wf(),
            final(self).field() == old(self).field(),
            final(self).iteration == old(self).iteration + 1,
            final(self).arenas() == old(self).field().iterated(
                old(self).arenas(),
                final(self).iteration,
            ),
    {
        self.iteration = self.iteration + 1;
        let ghost f = self.field();
        let ghost ar = self.arenas();
        let mut p: usize = 0;
        while p < self.n
            invariant
                p <= self.n,
                self.n == old(self).n,
                self.wf(),
                self.iteration == old(self).iteration + 1,
                f == self.field(),
                f == old(self).field(),
                ar == old(self).arenas(),
                self.arenas() == f.played_through(ar, p as int),
            decreases self.n - p,
        {
            if !self.seat_frozen[p] {
                let mut reaches = self.root_reaches();
                let _ = self.traverse(0, p, &mut reaches);
            }
            p = p + 1;
        }
        self.discount();
    }

    fn discount(&mut self)
        requires
            old(self).wf(),
        ensures
            final(self).wf(),
            final(self).field() == old(self).field(),
            final(self).iteration == old(self).iteration,
            final(self).arenas() == old(self).field().discounted(
                old(self).arenas(),
                old(self).iteration,
                old(self).nodes@.len() as int,
            ),
    {
        let weights: Discount<S> = Discount::after(self.iteration);
        let ghost f = self.field();
        let ghost ar = self.arenas();
        let mut k: usize = 0;
        while k < self.nodes.len()
            invariant
                k <= self.nodes@.len(),
                self.wf(),
                f == self.field(),
                f == old(self).field(),
                ar == old(self).arenas(),
                self.nodes@.len() == old(self).nodes@.len(),
                self.iteration == old(self).iteration,
                weights.of(self.iteration),
                self.arenas() == f.discounted(ar, self.iteration, k as int),
            decreases self.nodes@.len() - k,
        {
            proof {
                self.lemma_node(k as int);
            }
            if self.nodes[k].kind == KIND_ACTION {
                let frozen = self.seat_frozen[self.nodes[k].actor as usize];
                if !frozen && self.forced_strategy(k).is_none() {
                    let off: usize = self.nodes[k].data_off;
                    let end: usize = off + self.nodes[k].actions.len() * 169;
                    self.fade(&weights, off, end);
                }
            }
            k = k + 1;
        }
    }

    fn fade(&mut self, weights: &Discount<S>, from: usize, to: usize)
        requires
            old(self).wf(),
            weights.of(old(self).iteration),
            from <= to <= old(self).arena_len,
        ensures
            final(self).wf(),
            final(self).field() == old(self).field(),
            final(self).nodes@ == old(self).nodes@,
            final(self).iteration == old(self).iteration,
            final(self).arenas() == preflop_solver::faded(
                old(self).arenas(),
                old(self).iteration,
                from as int,
                to as int,
            ),
    {
        let ghost was = self.arenas();
        let ghost t = self.iteration;
        let mut j: usize = from;
        assert(self.arenas().regrets =~= preflop_solver::faded(was, t, from as int, from as int).regrets);
        assert(self.arenas().strat =~= preflop_solver::faded(was, t, from as int, from as int).strat);
        while j < to
            invariant
                from <= j <= to <= self.arena_len,
                self.wf(),
                self.field() == old(self).field(),
                self.nodes@ == old(self).nodes@,
                self.iteration == t,
                t == old(self).iteration,
                was == old(self).arenas(),
                was.regrets.len() == self.arena_len,
                was.strat.len() == self.arena_len,
                weights.of(t),
                self.arenas() == preflop_solver::faded(was, t, from as int, j as int),
            decreases to - j,
        {
            let ghost before = self.arenas();
            assert(before.regrets[j as int] == was.regrets[j as int]);
            assert(before.strat[j as int] == was.strat[j as int]);
            let r = weights.wear(self.regrets[j], Ghost(t));
            self.regrets.set(j, r);
            let s = self.strat_sum[j].times(weights.sum);
            self.strat_sum.set(j, s);
            proof {
                let want = preflop_solver::faded(was, t, from as int, j + 1);
                assert forall|x: int| 0 <= x < want.regrets.len() implies self.arenas().regrets[x]
                    == want.regrets[x] by {
                    if x != j {
                        assert(self.arenas().regrets[x] == before.regrets[x]);
                    }
                }
                assert forall|x: int| 0 <= x < want.strat.len() implies self.arenas().strat[x]
                    == want.strat[x] by {
                    if x != j {
                        assert(self.arenas().strat[x] == before.strat[x]);
                    }
                }
                assert(self.arenas().regrets =~= want.regrets);
                assert(self.arenas().strat =~= want.strat);
            }
            j = j + 1;
        }
    }

    /// What seat `p` expects at the root, by its class.
    pub open spec fn expected(&self, p: int, best: bool) -> Seq<S> {
        self.field().worth(
            self.strat_sum@,
            0,
            p,
            best,
            preflop_solver::at_root::<S>(self.n as int),
        )
    }

    /// What seat `p` would gain by its best response.
    pub open spec fn gap(&self, p: int) -> S::Wide {
        gain(margins(self.expected(p, true), self.expected(p, false)))
    }

    /// What seat `p` expects under the average strategies.
    pub open spec fn value(&self, p: int) -> S::Wide {
        gain(self.expected(p, false))
    }

    /// How much each seat would gain by its best response to the others'
    /// average strategies, in big blinds.
    pub fn br_gaps(&self) -> (r: Vec<S::Wide>)
        requires
            self.wf(),
        ensures
            r@ == Seq::new(self.n as nat, |p: int| self.gap(p)),
    {
        let mut out: Vec<S::Wide> = Vec::new();
        let mut p: usize = 0;
        while p < self.n
            invariant
                p <= self.n,
                self.wf(),
                out@ == Seq::new(p as nat, |q: int| self.gap(q)),
            decreases self.n - p,
        {
            let mut reaches = self.root_reaches();
            let best = self.appraise(0, p, true, &mut reaches);
            let usual = self.appraise(0, p, false, &mut reaches);
            out.push(gain_of(&margins_of(&best, &usual)));
            assert(out@ =~= Seq::new((p + 1) as nat, |q: int| self.gap(q)));
            p = p + 1;
        }
        out
    }

    /// What each seat expects under the average strategies, in big blinds.
    pub fn evs(&self) -> (r: Vec<S::Wide>)
        requires
            self.wf(),
        ensures
            r@ == Seq::new(self.n as nat, |p: int| self.value(p)),
    {
        let mut out: Vec<S::Wide> = Vec::new();
        let mut p: usize = 0;
        while p < self.n
            invariant
                p <= self.n,
                self.wf(),
                out@ == Seq::new(p as nat, |q: int| self.value(q)),
            decreases self.n - p,
        {
            let mut reaches = self.root_reaches();
            let usual = self.appraise(0, p, false, &mut reaches);
            out.push(gain_of(&usual));
            assert(out@ =~= Seq::new((p + 1) as nat, |q: int| self.value(q)));
            p = p + 1;
        }
        out
    }
}

} // verus!
