//! Solving by self-play: discounted regret minimization with alternating
//! updates.

use crate::cards;
use crate::cards::{card_mask, Card};
use crate::cfr;
use crate::cfr::{pass_card, Solver};
use crate::discount;
use crate::discount::Discount;
use crate::game::Dealt;
use crate::num::{Num, Single};
use crate::store;
use crate::store::{Ledger, Store};
use crate::strategy;
use crate::strategy::{copied, filled, mix, normalize, pass_action, pool, positives};
use crate::tree::{KIND_ACTION, KIND_CHANCE, KIND_TERM_FOLD, KIND_TERM_SHOWDOWN, SENTINEL};
use crate::tree_laws;
use vstd::prelude::*;

verus! {

/// What of a solver changes by solving.
pub ghost struct Tables<S> {
    pub regrets: Seq<Ledger<S>>,
    pub strat: Seq<Ledger<S>>,
}

/// A decision's regrets after it has been learnt from: what each action would
/// have gained over the mixture, and discounted.
pub open spec fn regrets_learnt<S: Single>(
    old: Seq<S>,
    vals: Seq<Seq<S>>,
    out: Seq<S>,
    nh: int,
    t: u32,
) -> Seq<S> {
    Seq::new(
        old.len(),
        |j: int| discount::worn(old[j].plus_spec(vals[j / nh][j % nh].minus_spec(out[j % nh])), t),
    )
}

/// A decision's strategy sums after it has been learnt from: what was played,
/// by reach, and discounted.
pub open spec fn sums_learnt<S: Single>(
    old: Seq<S>,
    sigma: Seq<S>,
    own: Seq<S>,
    nh: int,
    t: u32,
) -> Seq<S> {
    Seq::new(
        old.len(),
        |j: int|
            old[j].plus_spec(own[j % nh].times_spec(sigma[j])).times_spec(
                discount::sum_keep::<S>(t),
            ),
    )
}

impl<S: Single> Solver<S> {
    pub open spec fn tables(&self) -> Tables<S> {
        Tables {
            regrets: seq![self.regrets[0]@, self.regrets[1]@],
            strat: seq![self.strat[0]@, self.strat[1]@],
        }
    }

    /// Whether two solvers differ in their tables alone.
    pub open spec fn kin(&self, other: &Self) -> bool {
        &&& self.spot == other.spot
        &&& self.iteration == other.iteration
        &&& self.locks == other.locks
        &&& self.lock_labels == other.lock_labels
        &&& self.use_isomorphism == other.use_isomorphism
        &&& self.sym_dirty == other.sym_dirty
    }

    /// What self-play plays at a decision: the lock, where there is one, else
    /// what the regrets call for.
    pub open spec fn tried(&self, t: Tables<S>, idx: int) -> Seq<S> {
        let n = self.node(idx);
        let p = n.player as int;
        if self.locks@.contains_key(idx as u32) {
            self.locks@[idx as u32]@
        } else {
            strategy::normalized(
                strategy::positive_part(
                    t.regrets[p].block(idx, n.data_offset as int, self.block_len(idx)),
                ),
                n.num_children as int,
                self.nh(p),
            )
        }
    }

    /// The tables after a decision of player `p` has been learnt from.
    pub open spec fn taught(
        &self,
        t: Tables<S>,
        idx: int,
        sigma: Seq<S>,
        vals: Seq<Seq<S>>,
        out: Seq<S>,
        own: Seq<S>,
    ) -> Tables<S> {
        let n = self.node(idx);
        let p = n.player as int;
        let at = n.data_offset as int;
        let len = self.block_len(idx);
        Tables {
            regrets: t.regrets.update(
                p,
                t.regrets[p].wrote(
                    idx,
                    at,
                    regrets_learnt(
                        t.regrets[p].block(idx, at, len),
                        vals,
                        out,
                        self.nh(p),
                        self.iteration,
                    ),
                ),
            ),
            strat: t.strat.update(
                p,
                t.strat[p].wrote(
                    idx,
                    at,
                    sums_learnt(
                        t.strat[p].block(idx, at, len),
                        sigma,
                        own,
                        self.nh(p),
                        self.iteration,
                    ),
                ),
            ),
        }
    }

    /// One walk of self-play below a node for player `p`, who arrives with
    /// reach `own` and the opponent with `reach`: what the hands are worth,
    /// and the tables after the player has learnt from it.
    pub open spec fn trained(
        &self,
        t: Tables<S>,
        idx: int,
        p: int,
        own: Seq<S>,
        reach: Seq<S>,
        dealt: Seq<Card>,
    ) -> (Seq<S>, Tables<S>)
        decreases self.spot.tree.nodes@.len() - idx, 256nat,
    {
        let n = self.node(idx);
        if idx < 0 || idx >= self.spot.tree.nodes@.len() {
            (self.zeros(p), t)
        } else if n.kind == KIND_CHANCE {
            self.trained_dealt(t, idx, p, own, reach, dealt, 52)
        } else if n.kind != KIND_ACTION {
            (self.worth(false, idx, p, reach, dealt), t)
        } else {
            let sigma = self.tried(t, idx);
            let (vals, after) = self.trained_each(
                t,
                idx,
                p,
                own,
                reach,
                dealt,
                sigma,
                n.num_children as nat,
            );
            if n.player != p {
                (strategy::pooled(vals, self.nh(p)), after)
            } else {
                let out = strategy::mixed(sigma, vals, self.nh(p));
                if self.locks@.contains_key(idx as u32) {
                    (out, after)
                } else {
                    (out, self.taught(after, idx, sigma, vals, out, own))
                }
            }
        }
    }

    /// The same below a child of a node.
    pub open spec fn trained_below(
        &self,
        t: Tables<S>,
        idx: int,
        s: int,
        p: int,
        own: Seq<S>,
        reach: Seq<S>,
        dealt: Seq<Card>,
    ) -> (Seq<S>, Tables<S>)
        decreases self.spot.tree.nodes@.len() - idx, 0nat,
    {
        let c = self.child(idx, s);
        if idx < c < self.spot.tree.nodes@.len() && idx >= 0 {
            self.trained(t, c, p, own, reach, dealt)
        } else {
            (self.zeros(p), t)
        }
    }

    /// The same below each of the first `k` actions, in turn.
    pub open spec fn trained_each(
        &self,
        t: Tables<S>,
        idx: int,
        p: int,
        own: Seq<S>,
        reach: Seq<S>,
        dealt: Seq<Card>,
        sigma: Seq<S>,
        k: nat,
    ) -> (Seq<Seq<S>>, Tables<S>)
        decreases self.spot.tree.nodes@.len() - idx, k,
    {
        if k == 0 {
            (Seq::empty(), t)
        } else {
            let (before, mid) = self.trained_each(
                t,
                idx,
                p,
                own,
                reach,
                dealt,
                sigma,
                (k - 1) as nat,
            );
            let mine = self.node(idx).player == p;
            let (v, after) = self.trained_below(
                mid,
                idx,
                k - 1,
                p,
                if mine {
                    strategy::reach_through(own, sigma, k - 1)
                } else {
                    own
                },
                if mine {
                    reach
                } else {
                    strategy::reach_through(reach, sigma, k - 1)
                },
                dealt,
            );
            (before.push(v), after)
        }
    }

    /// The same over the first `k` cards, averaged.
    pub open spec fn trained_dealt(
        &self,
        t: Tables<S>,
        idx: int,
        p: int,
        own: Seq<S>,
        reach: Seq<S>,
        dealt: Seq<Card>,
        k: nat,
    ) -> (Seq<S>, Tables<S>)
        decreases self.spot.tree.nodes@.len() - idx, k,
    {
        if k == 0 {
            (self.zeros(p), t)
        } else {
            let (sum, mid) = self.trained_dealt(t, idx, p, own, reach, dealt, (k - 1) as nat);
            let c = k - 1;
            if self.comes(idx, dealt, c) {
                let (v, after) = self.trained_below(
                    mid,
                    idx,
                    c,
                    p,
                    cfr::reach_past(self.spot.hands[p]@, own, c),
                    cfr::reach_past(self.spot.hands[1 - p]@, reach, c),
                    dealt.push(c as u8),
                );
                let left = S::decimal_spec((46 - self.node(idx).street) as i64, 0);
                (
                    Seq::new(
                        sum.len(),
                        |i: int|
                            if cfr::holds(self.spot.hands[p]@[i], c) {
                                sum[i]
                            } else {
                                sum[i].plus_spec(v[i].over_spec(left))
                            },
                    ),
                    after,
                )
            } else {
                (sum, mid)
            }
        }
    }

    /// The tables after both players have learnt from the whole game, player
    /// 0 first.
    pub open spec fn played_through(&self, t: Tables<S>) -> Tables<S> {
        let first = self.trained(
            t,
            0,
            0,
            self.spot.weights[0]@,
            self.spot.weights[1]@,
            Seq::empty(),
        ).1;
        self.trained(
            first,
            0,
            1,
            self.spot.weights[1]@,
            self.spot.weights[0]@,
            Seq::empty(),
        ).1
    }
}

fn learnt_regrets<S: Single>(
    old: &Vec<S>,
    vals: &Vec<Vec<S>>,
    out: &Vec<S>,
    weights: &Discount<S>,
    Ghost(t): Ghost<u32>,
) -> (r: Vec<S>)
    requires
        weights.of(t),
        out@.len() > 0 || old@.len() == 0,
        old@.len() == vals@.len() * out@.len(),
        forall|a: int| 0 <= a < vals@.len() ==> (#[trigger] vals@[a])@.len() == out@.len(),
    ensures
        r@ == regrets_learnt(old@, strategy::lines(vals@), out@, out@.len() as int, t),
{
    let nh: usize = out.len();
    let ghost want = regrets_learnt(old@, strategy::lines(vals@), out@, nh as int, t);
    let mut r: Vec<S> = Vec::new();
    let mut j: usize = 0;
    while j < old.len()
        invariant
            j <= old@.len(),
            nh == out@.len(),
            out@.len() > 0 || old@.len() == 0,
            old@.len() == vals@.len() * nh,
            forall|a: int| 0 <= a < vals@.len() ==> (#[trigger] vals@[a])@.len() == nh,
            weights.of(t),
            want == regrets_learnt(old@, strategy::lines(vals@), out@, nh as int, t),
            r@ == want.take(j as int),
        decreases old@.len() - j,
    {
        proof {
            strategy::lemma_place(vals@.len() as int, nh as int, j as int);
        }
        let a: usize = j / nh;
        let i: usize = j % nh;
        assert(strategy::lines(vals@)[a as int] == vals@[a as int]@);
        r.push(weights.wear(old[j].plus(vals[a][i].minus(out[i])), Ghost(t)));
        assert(r@ =~= want.take(j + 1));
        j = j + 1;
    }
    assert(r@ =~= want);
    r
}

fn learnt_sums<S: Single>(
    old: &Vec<S>,
    sigma: &Vec<S>,
    own: &Vec<S>,
    na: usize,
    weights: &Discount<S>,
    Ghost(t): Ghost<u32>,
) -> (r: Vec<S>)
    requires
        weights.of(t),
        own@.len() > 0 || old@.len() == 0,
        old@.len() == na * own@.len(),
        sigma@.len() == old@.len(),
    ensures
        r@ == sums_learnt(old@, sigma@, own@, own@.len() as int, t),
{
    let nh: usize = own.len();
    let ghost want = sums_learnt(old@, sigma@, own@, nh as int, t);
    let mut r: Vec<S> = Vec::new();
    let mut j: usize = 0;
    while j < old.len()
        invariant
            j <= old@.len(),
            nh == own@.len(),
            own@.len() > 0 || old@.len() == 0,
            old@.len() == na * nh,
            sigma@.len() == old@.len(),
            weights.of(t),
            want == sums_learnt(old@, sigma@, own@, nh as int, t),
            r@ == want.take(j as int),
        decreases old@.len() - j,
    {
        proof {
            strategy::lemma_place(na as int, nh as int, j as int);
        }
        let i: usize = j % nh;
        r.push(old[j].plus(own[i].times(sigma[j])).times(weights.sum));
        assert(r@ =~= want.take(j + 1));
        j = j + 1;
    }
    assert(r@ =~= want);
    r
}

/// A solver is in order where it differs from one that is only in what its
/// tables hold.
pub proof fn lemma_wf<S: Single>(s: Solver<S>, other: Solver<S>)
    requires
        other.wf(),
        s.spot == other.spot,
        s.locks == other.locks,
        s.regrets[0].same_shape(&other.regrets[0]),
        s.regrets[1].same_shape(&other.regrets[1]),
        s.strat[0].same_shape(&other.strat[0]),
        s.strat[1].same_shape(&other.strat[1]),
    ensures
        s.wf(),
{
    assert forall|k: u32| s.locks@.contains_key(k) implies #[trigger] s.lock_fits(k) by {
        assert(other.lock_fits(k));
    }
}

fn learn_block<S: Single>(
    regrets: &mut Store<S>,
    strat: &mut Store<S>,
    node_idx: u32,
    at: u64,
    na: usize,
    sigma: &Vec<S>,
    vals: &Vec<Vec<S>>,
    out: &Vec<S>,
    own: &Vec<S>,
    weights: &Discount<S>,
    Ghost(t): Ghost<u32>,
)
    requires
        weights.of(t),
        vals@.len() == na,
        sigma@.len() == na * out@.len(),
        own@.len() == out@.len(),
        forall|a: int| 0 <= a < vals@.len() ==> (#[trigger] vals@[a])@.len() == out@.len(),
        at + na * out@.len() <= old(regrets).entries(),
        at + na * out@.len() <= old(strat).entries(),
        na * out@.len() <= 331500,
        old(regrets).has_node(node_idx as int),
        old(strat).has_node(node_idx as int),
    ensures
        final(regrets).same_shape(old(regrets)),
        final(strat).same_shape(old(strat)),
        ({
            let nh = out@.len() as int;
            let len = na * nh;
            &&& final(regrets)@ == old(regrets)@.wrote(
                node_idx as int,
                at as int,
                regrets_learnt(
                    old(regrets)@.block(node_idx as int, at as int, len),
                    strategy::lines(vals@),
                    out@,
                    nh,
                    t,
                ),
            )
            &&& final(strat)@ == old(strat)@.wrote(
                node_idx as int,
                at as int,
                sums_learnt(
                    old(strat)@.block(node_idx as int, at as int, len),
                    sigma@,
                    own@,
                    nh,
                    t,
                ),
            )
        }),
{
    let count: usize = sigma.len();
    let held = regrets.read_f32(node_idx, at, count);
    assert(held@ == regrets@.block(node_idx as int, at as int, count as int));
    assert(held@.len() == count);
    proof {
        if out@.len() == 0 {
            assert(na * out@.len() == 0) by (nonlinear_arith)
                requires
                    out@.len() == 0,
            ;
        }
    }
    let next = learnt_regrets(&held, vals, out, weights, Ghost(t));
    let ghost before = *regrets;
    regrets.write_f32(node_idx, at, next.as_slice());
    let sums = strat.read_f32(node_idx, at, count);
    assert(sums@ == strat@.block(node_idx as int, at as int, count as int));
    assert(sums@.len() == count);
    let more = learnt_sums(&sums, sigma, own, na, weights, Ghost(t));
    let ghost prior = *strat;
    strat.write_f32(node_idx, at, more.as_slice());
    proof {
        store::lemma_ledger(before, *regrets, node_idx as int, at as int, next@);
        store::lemma_ledger(prior, *strat, node_idx as int, at as int, more@);
    }
}

impl<S: Single> Solver<S> {
    /// What self-play plays at a decision.
    #[verifier::rlimit(50)]
    #[verifier::spinoff_prover]
    fn current_strategy(&self, node_idx: u32) -> (r: Vec<S>)
        requires
            self.wf(),
            self.decides(node_idx as int),
        ensures
            r@ == self.tried(self.tables(), node_idx as int),
            r@.len() == self.block_len(node_idx as int),
    {
        proof {
            self.lemma_decision(node_idx as int);
            if self.locks@.contains_key(node_idx) {
                assert(self.lock_fits(node_idx));
            }
        }
        match self.locks.get(&node_idx) {
            Some(sigma) => copied(sigma.as_slice()),
            None => {
                let n = &self.spot.tree.nodes[node_idx as usize];
                let p: usize = n.player as usize;
                let na: usize = n.num_children as usize;
                let nh: usize = self.spot.hands[p].len();
                assert(cfr::fitted(
                    self.regrets[p as int],
                    self.spot.tree.data_size[p as int] as int,
                    self.spot.tree.nodes@.len() as int,
                ));
                let held = self.regrets[p].read_f32(node_idx, n.data_offset, na * nh);
                assert(held@ == self.tables().regrets[p as int].block(
                    node_idx as int,
                    n.data_offset as int,
                    self.block_len(node_idx as int),
                ));
                let good = positives(held.as_slice());
                assert(good@.len() == na * nh);
                normalize(good.as_slice(), na, nh)
            },
        }
    }

    /// Learns from a decision.
    fn learn(
        &mut self,
        node_idx: u32,
        sigma: &Vec<S>,
        vals: &Vec<Vec<S>>,
        out: &Vec<S>,
        own: &Vec<S>,
        weights: &Discount<S>,
    )
        requires
            old(self).wf(),
            old(self).decides(node_idx as int),
            weights.of(old(self).iteration),
            vals@.len() == old(self).node(node_idx as int).num_children,
            sigma@.len() == old(self).block_len(node_idx as int),
            out@.len() == old(self).nh(old(self).node(node_idx as int).player as int),
            own@.len() == out@.len(),
            forall|a: int| 0 <= a < vals@.len() ==> (#[trigger] vals@[a])@.len() == out@.len(),
        ensures
            final(self).wf(),
            final(self).kin(old(self)),
            final(self).tables() == old(self).taught(
                old(self).tables(),
                node_idx as int,
                sigma@,
                strategy::lines(vals@),
                out@,
                own@,
            ),
    {
        proof {
            self.lemma_decision(node_idx as int);
        }
        let p: usize = self.spot.tree.nodes[node_idx as usize].player as usize;
        let at: u64 = self.spot.tree.nodes[node_idx as usize].data_offset;
        let na: usize = self.spot.tree.nodes[node_idx as usize].num_children as usize;
        let ghost was = self.tables();
        let ghost t = self.iteration;
        assert(self.block_len(node_idx as int) == na * out@.len());
        if p == 0 {
            learn_block(
                &mut self.regrets[0],
                &mut self.strat[0],
                node_idx,
                at,
                na,
                sigma,
                vals,
                out,
                own,
                weights,
                Ghost(t),
            );
        } else {
            learn_block(
                &mut self.regrets[1],
                &mut self.strat[1],
                node_idx,
                at,
                na,
                sigma,
                vals,
                out,
                own,
                weights,
                Ghost(t),
            );
        }
        proof {
            let want = old(self).taught(
                was,
                node_idx as int,
                sigma@,
                strategy::lines(vals@),
                out@,
                own@,
            );
            assert(self.tables().regrets =~= want.regrets);
            assert(self.tables().strat =~= want.strat);
            lemma_wf(*self, *old(self));
        }
    }

    fn train(
        &mut self,
        node_idx: u32,
        p: usize,
        own: &Vec<S>,
        reach: &Vec<S>,
        dealt: Dealt,
        weights: &Discount<S>,
        Ghost(base): Ghost<Solver<S>>,
    ) -> (r: Vec<S>)
        requires
            old(self).wf(),
            old(self).kin(&base),
            weights.of(base.iteration),
            p < 2,
            own@.len() == base.nh(p as int),
            reach@.len() == base.nh(1 - p),
            dealt.wf(),
            base.dealt_to(node_idx as int, dealt.list()),
        ensures
            final(self).wf(),
            final(self).kin(&base),
            (r@, final(self).tables()) == base.trained(
                old(self).tables(),
                node_idx as int,
                p as int,
                own@,
                reach@,
                dealt.list(),
            ),
            r@.len() == base.nh(p as int),
        decreases base.spot.tree.nodes@.len() - node_idx, 1nat,
    {
        let kind: u8 = self.spot.tree.nodes[node_idx as usize].kind;
        if kind == KIND_CHANCE {
            self.train_chance(node_idx, p, own, reach, dealt, weights, Ghost(base))
        } else if kind == KIND_ACTION {
            self.train_decision(node_idx, p, own, reach, dealt, weights, Ghost(base))
        } else {
            proof {
                assert(tree_laws::node_sound(
                    self.spot.tree.arena(),
                    self.spot.board_mask,
                    node_idx as int,
                ));
                lemma_terminal(*self, base, node_idx as int, p as int, reach@, dealt.list());
            }
            self.traverse_avg(node_idx, p, reach, dealt)
        }
    }

    fn train_decision(
        &mut self,
        node_idx: u32,
        p: usize,
        own: &Vec<S>,
        reach: &Vec<S>,
        dealt: Dealt,
        weights: &Discount<S>,
        Ghost(base): Ghost<Solver<S>>,
    ) -> (r: Vec<S>)
        requires
            old(self).wf(),
            old(self).kin(&base),
            weights.of(base.iteration),
            p < 2,
            own@.len() == base.nh(p as int),
            reach@.len() == base.nh(1 - p),
            dealt.wf(),
            base.dealt_to(node_idx as int, dealt.list()),
            base.decides(node_idx as int),
        ensures
            final(self).wf(),
            final(self).kin(&base),
            (r@, final(self).tables()) == base.trained(
                old(self).tables(),
                node_idx as int,
                p as int,
                own@,
                reach@,
                dealt.list(),
            ),
            r@.len() == base.nh(p as int),
        decreases base.spot.tree.nodes@.len() - node_idx, 0nat,
    {
        proof {
            self.lemma_decision(node_idx as int);
        }
        let ghost start = self.tables();
        let n = &self.spot.tree.nodes[node_idx as usize];
        let na: usize = n.num_children as usize;
        let cs: usize = n.children_start as usize;
        let mine: bool = n.player as usize == p;
        let nh: usize = self.spot.hands[p].len();
        let slots: usize = self.spot.tree.children.len();
        let locked: bool = self.locks.contains_key(&node_idx);
        let sigma = self.current_strategy(node_idx);
        let ghost idx = node_idx as int;
        assert(sigma@ == base.tried(start, idx));
        let mut vals: Vec<Vec<S>> = Vec::new();
        let mut a: usize = 0;
        while a < na
            invariant
                a <= na,
                self.wf(),
                self.kin(&base),
                weights.of(base.iteration),
                p < 2,
                own@.len() == base.nh(p as int),
                reach@.len() == base.nh(1 - p),
                dealt.wf(),
                base.dealt_to(idx, dealt.list()),
                base.decides(idx),
                idx == node_idx,
                na == base.node(idx).num_children,
                cs == base.node(idx).children_start,
                cs + na <= base.spot.tree.children@.len() == slots,
                mine == (base.node(idx).player == p),
                base.node(idx).player < 2,
                nh == base.nh(p as int),
                sigma@ == base.tried(start, idx),
                sigma@.len() == base.block_len(idx),
                vals@.len() == a,
                forall|x: int| 0 <= x < a ==> (#[trigger] vals@[x])@.len() == nh,
                (strategy::lines(vals@), self.tables()) == base.trained_each(
                    start,
                    idx,
                    p as int,
                    own@,
                    reach@,
                    dealt.list(),
                    sigma@,
                    a as nat,
                ),
            decreases na - a,
        {
            proof {
                self.lemma_decision(idx);
            }
            let child: u32 = self.spot.tree.children[cs + a];
            assert(child == base.child(idx, a as int));
            assert(idx < self.child(idx, a as int) < self.spot.tree.nodes@.len());
            let ghost mid = self.tables();
            let ghost own_next = if mine {
                strategy::reach_through(own@, sigma@, a as int)
            } else {
                own@
            };
            let ghost reach_next = if mine {
                reach@
            } else {
                strategy::reach_through(reach@, sigma@, a as int)
            };
            let v = if mine {
                let next = pass_action(own.as_slice(), sigma.as_slice(), na, a);
                self.train(child, p, &next, reach, dealt, weights, Ghost(base))
            } else {
                let next = pass_action(reach.as_slice(), sigma.as_slice(), na, a);
                self.train(child, p, own, &next, dealt, weights, Ghost(base))
            };
            assert((v@, self.tables()) == base.trained_below(
                mid,
                idx,
                a as int,
                p as int,
                own_next,
                reach_next,
                dealt.list(),
            ));
            let ghost before = strategy::lines(vals@);
            vals.push(v);
            assert(strategy::lines(vals@) =~= before.push(v@));
            assert((strategy::lines(vals@), self.tables()) == base.trained_each(
                start,
                idx,
                p as int,
                own@,
                reach@,
                dealt.list(),
                sigma@,
                (a + 1) as nat,
            ));
            a = a + 1;
        }
        if !mine {
            return pool(&vals, nh);
        }
        let out = mix(&sigma, &vals, nh);
        if !locked {
            self.learn(node_idx, &sigma, &vals, &out, own, weights);
        }
        out
    }

    fn train_chance(
        &mut self,
        node_idx: u32,
        p: usize,
        own: &Vec<S>,
        reach: &Vec<S>,
        dealt: Dealt,
        weights: &Discount<S>,
        Ghost(base): Ghost<Solver<S>>,
    ) -> (r: Vec<S>)
        requires
            old(self).wf(),
            old(self).kin(&base),
            weights.of(base.iteration),
            p < 2,
            own@.len() == base.nh(p as int),
            reach@.len() == base.nh(1 - p),
            dealt.wf(),
            base.dealt_to(node_idx as int, dealt.list()),
            base.node(node_idx as int).kind == KIND_CHANCE,
        ensures
            final(self).wf(),
            final(self).kin(&base),
            (r@, final(self).tables()) == base.trained(
                old(self).tables(),
                node_idx as int,
                p as int,
                own@,
                reach@,
                dealt.list(),
            ),
            r@.len() == base.nh(p as int),
        decreases base.spot.tree.nodes@.len() - node_idx, 0nat,
    {
        proof {
            self.lemma_chance(node_idx as int);
        }
        let ghost start = self.tables();
        let ghost idx = node_idx as int;
        let street: u8 = self.spot.tree.nodes[node_idx as usize].street;
        let cs: usize = self.spot.tree.nodes[node_idx as usize].children_start as usize;
        let slots: usize = self.spot.tree.children.len();
        let left = S::decimal(46 - street as i64, 0);
        let mut out = filled(self.spot.hands[p].len(), S::decimal(0, 0));
        let mut c: u8 = 0;
        while c < 52
            invariant
                c <= 52,
                self.wf(),
                self.kin(&base),
                weights.of(base.iteration),
                p < 2,
                own@.len() == base.nh(p as int),
                reach@.len() == base.nh(1 - p),
                dealt.wf(),
                idx == node_idx,
                base.dealt_to(idx, dealt.list()),
                base.node(idx).kind == KIND_CHANCE,
                street == base.node(idx).street,
                cs == base.node(idx).children_start,
                cs + 52 <= base.spot.tree.children@.len() == slots,
                left == S::decimal_spec((46 - base.node(idx).street) as i64, 0),
                out@.len() == base.nh(p as int),
                (out@, self.tables()) == base.trained_dealt(
                    start,
                    idx,
                    p as int,
                    own@,
                    reach@,
                    dealt.list(),
                    c as nat,
                ),
            decreases 52 - c,
        {
            let child: u32 = self.spot.tree.children[cs + c as usize];
            assert(child == base.child(idx, c as int));
            if child != SENTINEL && !dealt.contains(c) {
                proof {
                    self.lemma_deal(idx, dealt.list(), c as int);
                }
                let ghost before = out@;
                let ghost mid = self.tables();
                let mine = pass_card(&self.spot.hands[p], own, c);
                let past = pass_card(&self.spot.hands[1 - p], reach, c);
                let v = self.train(child, p, &mine, &past, dealt.push(c), weights, Ghost(base));
                assert((v@, self.tables()) == base.trained_below(
                    mid,
                    idx,
                    c as int,
                    p as int,
                    mine@,
                    past@,
                    dealt.list().push(c),
                ));
                let cm: u64 = card_mask(c);
                let mut i: usize = 0;
                while i < out.len()
                    invariant
                        i <= out@.len() == before.len() == v@.len() == self.spot.hands[p as int]@.len(),
                        c < 52,
                        p < 2,
                        cm == cards::mask_spec(c),
                        forall|m: int|
                            0 <= m < out@.len() ==> #[trigger] out@[m] == if m < i && !cfr::holds(
                                self.spot.hands[p as int]@[m],
                                c as int,
                            ) {
                                before[m].plus_spec(v@[m].over_spec(left))
                            } else {
                                before[m]
                            },
                    decreases out@.len() - i,
                {
                    if self.spot.hands[p][i].mask & cm == 0 {
                        let x = out[i].plus(v[i].over(left));
                        out.set(i, x);
                    }
                    i = i + 1;
                }
                assert(out@ =~= base.trained_dealt(
                    start,
                    idx,
                    p as int,
                    own@,
                    reach@,
                    dealt.list(),
                    (c + 1) as nat,
                ).0);
            }
            c = c + 1;
        }
        out
    }

    /// Each player in turn learns from a walk of the whole game.
    pub(crate) fn self_play(&mut self)
        requires
            old(self).wf(),
            old(self).iteration < u32::MAX,
        ensures
            final(self).wf(),
            final(self).spot == old(self).spot,
            final(self).locks == old(self).locks,
            final(self).lock_labels == old(self).lock_labels,
            final(self).use_isomorphism == old(self).use_isomorphism,
            final(self).sym_dirty,
            final(self).iteration == old(self).iteration + 1,
            final(self).tables() == (Solver {
                iteration: (old(self).iteration + 1) as u32,
                sym_dirty: true,
                ..*old(self)
            }).played_through(old(self).tables()),
    {
        self.iteration = self.iteration + 1;
        self.sym_dirty = true;
        let ghost base = *self;
        proof {
            lemma_wf(*self, *old(self));
        }
        let weights: Discount<S> = Discount::after(self.iteration);
        proof {
            self.lemma_root();
            self.lemma_hands(0);
            self.lemma_hands(1);
        }
        let oop = copied(self.spot.weights[0].as_slice());
        let ip = copied(self.spot.weights[1].as_slice());
        let none = Dealt::default();
        assert(none.list() =~= Seq::<Card>::empty());
        let _ = self.train(0, 0, &oop, &ip, none, &weights, Ghost(base));
        let _ = self.train(0, 1, &ip, &oop, none, &weights, Ghost(base));
    }
}

proof fn lemma_terminal<S: Single>(
    s: Solver<S>,
    base: Solver<S>,
    idx: int,
    p: int,
    reach: Seq<S>,
    dealt: Seq<Card>,
)
    requires
        s.kin(&base),
        0 <= idx < base.spot.tree.nodes@.len(),
        base.node(idx).kind == KIND_TERM_FOLD || base.node(idx).kind == KIND_TERM_SHOWDOWN,
    ensures
        s.worth(false, idx, p, reach, dealt) == base.worth(false, idx, p, reach, dealt),
{
}

} // verus!
