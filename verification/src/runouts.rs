//! Per-card strategy, equity and value overview at a chance node.

use crate::cards;
use crate::cards::{card_to_string, Card};
use crate::cfr::{pass_card, Solver};
use crate::exploit;
use crate::inspect;
use crate::num::{Num, Single};
use crate::path;
use crate::path::{PathStep, Place, QueryError, Walk};
use crate::strategy;
use crate::strategy::filled;
use crate::tree::{KIND_ACTION, KIND_CHANCE, SENTINEL};
use crate::view::ActionView;
use vstd::prelude::*;

verus! {

#[derive(Debug, Clone)]
pub struct RunoutRow<S> {
    pub card: String,
    /// Action frequencies at the action node following this card (empty for
    /// all-in runouts with no further action).
    pub freqs: Vec<S>,
    /// Average equity for [OOP, IP] on this runout.
    pub eq: [Option<S>; 2],
    /// Reach-weighted average EV for [OOP, IP] (pot-share convention), so
    /// the report can rank runouts by EV and derive EQR = EV / (pot x EQ).
    pub ev: [Option<S>; 2],
}

#[derive(Debug, Clone)]
pub struct RunoutsReport<S: Single> {
    pub actions: Vec<ActionView<S::Wide>>,
    pub player: Option<u8>,
    /// Pot at the runout nodes (same for every card), for EQR.
    pub pot: S::Wide,
    pub rows: Vec<RunoutRow<S>>,
}

/// The reach of the first `n` hands.
pub open spec fn reach_total<S: Single>(reach: Seq<S>, n: int) -> S::Wide
    decreases n,
{
    if n <= 0 {
        S::Wide::decimal_spec(0, 0)
    } else {
        reach_total(reach, n - 1).plus_spec(reach[n - 1].widened_spec())
    }
}

/// How much reach of the first `n` hands takes action `a`.
pub open spec fn reach_taking<S: Single>(
    reach: Seq<S>,
    sigma: Seq<S>,
    nh: int,
    a: int,
    n: int,
) -> S::Wide
    decreases n,
{
    if n <= 0 {
        S::Wide::decimal_spec(0, 0)
    } else {
        reach_taking(reach, sigma, nh, a, n - 1).plus_spec(
            reach[n - 1].widened_spec().times_spec(
                sigma[strategy::cell(nh, a, n - 1)].widened_spec(),
            ),
        )
    }
}

/// How often a range takes action `a`.
pub open spec fn frequency<S: Single>(reach: Seq<S>, sigma: Seq<S>, a: int) -> S {
    let nh = reach.len() as int;
    let all = reach_total(reach, nh);
    if S::Wide::decimal_spec(1, 12).below_spec(all) {
        S::narrowed_spec(reach_taking(reach, sigma, nh, a, nh).over_spec(all))
    } else {
        S::decimal_spec(0, 0)
    }
}

/// [`frequency`] of each action, computed.
pub fn action_frequencies<S: Single>(reach: &[S], sigma: &[S], na: usize) -> (r: Vec<S>)
    requires
        sigma@.len() == na * reach@.len(),
    ensures
        r@ == Seq::new(na as nat, |a: int| frequency(reach@, sigma@, a)),
{
    let nh: usize = reach.len();
    let zero = S::Wide::decimal(0, 0);
    let mut sums = filled(na, zero);
    let mut all = zero;
    let size: usize = sigma.len();
    let mut i: usize = 0;
    while i < nh
        invariant
            i <= nh == reach@.len(),
            sigma@.len() == na * nh == size,
            all == reach_total(reach@, i as int),
            sums@.len() == na,
            forall|a: int|
                0 <= a < na ==> #[trigger] sums@[a] == reach_taking(
                    reach@,
                    sigma@,
                    nh as int,
                    a,
                    i as int,
                ),
        decreases nh - i,
    {
        let r = reach[i].widened();
        all = all.plus(r);
        let mut a: usize = 0;
        while a < na
            invariant
                a <= na,
                i < nh == reach@.len(),
                r == reach@[i as int].widened_spec(),
                sigma@.len() == na * nh == size,
                sums@.len() == na,
                forall|x: int|
                    0 <= x < na ==> #[trigger] sums@[x] == if x < a {
                        reach_taking(reach@, sigma@, nh as int, x, i + 1)
                    } else {
                        reach_taking(reach@, sigma@, nh as int, x, i as int)
                    },
            decreases na - a,
        {
            proof {
                strategy::lemma_cell(na as int, nh as int, a as int, i as int);
            }
            let x = sums[a].plus(r.times(sigma[a * nh + i].widened()));
            sums.set(a, x);
            a = a + 1;
        }
        i = i + 1;
    }
    let least = S::Wide::decimal(1, 12);
    let mut out: Vec<S> = Vec::new();
    let mut a: usize = 0;
    while a < na
        invariant
            a <= na == sums@.len(),
            nh == reach@.len(),
            all == reach_total(reach@, nh as int),
            least == S::Wide::decimal_spec(1, 12),
            forall|x: int|
                0 <= x < na ==> #[trigger] sums@[x] == reach_taking(
                    reach@,
                    sigma@,
                    nh as int,
                    x,
                    nh as int,
                ),
            out@ == Seq::new(a as nat, |x: int| frequency(reach@, sigma@, x)),
        decreases na - a,
    {
        if least.below(all) {
            out.push(S::narrowed(sums[a].over(all)));
        } else {
            out.push(S::decimal(0, 0));
        }
        assert(out@ =~= Seq::new((a + 1) as nat, |x: int| frequency(reach@, sigma@, x)));
        a = a + 1;
    }
    out
}

/// Weighted equity and weight, summed over the first `n` hands with an equity.
pub open spec fn equity_sums<S: Single>(
    eq: Seq<Option<S>>,
    reach: Seq<S>,
    valid: Seq<S::Wide>,
    n: int,
) -> (S::Wide, S::Wide)
    decreases n,
{
    if n <= 0 {
        (S::Wide::decimal_spec(0, 0), S::Wide::decimal_spec(0, 0))
    } else {
        let (x, d) = equity_sums(eq, reach, valid, n - 1);
        match eq[n - 1] {
            None => (x, d),
            Some(e) => {
                let w = reach[n - 1].widened_spec().times_spec(valid[n - 1]);
                (x.plus_spec(w.times_spec(e.widened_spec())), d.plus_spec(w))
            },
        }
    }
}

/// Weighted value and weight, summed over the first `n` hands that arrive and
/// meet enough reach.
pub open spec fn value_sums<S: Single>(
    cfv: Seq<S>,
    reach: Seq<S>,
    valid: Seq<S::Wide>,
    put: S::Wide,
    n: int,
) -> (S::Wide, S::Wide)
    decreases n,
{
    if n <= 0 {
        (S::Wide::decimal_spec(0, 0), S::Wide::decimal_spec(0, 0))
    } else {
        let (x, d) = value_sums(cfv, reach, valid, put, n - 1);
        let i = n - 1;
        if inspect::counts(valid[i]) && S::decimal_spec(0, 0).below_spec(reach[i]) {
            let w = reach[i].widened_spec().times_spec(valid[i]);
            (
                x.plus_spec(w.times_spec(inspect::chips(cfv[i], valid[i], put))),
                d.plus_spec(w),
            )
        } else {
            (x, d)
        }
    }
}

fn average<S: Single>(sum: S::Wide, w: S::Wide) -> (r: Option<S>)
    ensures
        r == exploit::averaged::<S>(sum, w),
{
    if S::Wide::decimal(1, 12).below(w) {
        Some(S::narrowed(sum.over(w)))
    } else {
        None
    }
}

/// Whether a number is neither above nor below zero.
pub open spec fn vanishes<W: Num>(x: W) -> bool {
    x.at_most_spec(W::decimal_spec(0, 0)) && W::decimal_spec(0, 0).at_most_spec(x)
}

impl<S: Single> Solver<S> {
    /// Player `p`'s average equity at a place.
    pub open spec fn average_equity(&self, at: Place<S>, p: int) -> Option<S> {
        let valid = self.met(p, at.reach(1 - p));
        let (x, d) = equity_sums(
            self.equities(p, at.reach(1 - p), at.dealt),
            at.reach(p),
            valid,
            self.nh(p),
        );
        exploit::averaged(x, d)
    }

    /// Player `p`'s average expected value at a place.
    pub open spec fn average_value(&self, at: Place<S>, p: int) -> Option<S> {
        let valid = self.met(p, at.reach(1 - p));
        let (x, d) = value_sums(
            self.worth(false, at.idx, p, at.reach(1 - p), at.dealt),
            at.reach(p),
            valid,
            self.node(at.idx).put[p],
            self.nh(p),
        );
        exploit::averaged(x, d)
    }

    /// The row of a card that comes at a place.
    pub open spec fn row_shown(&self, at: Place<S>, c: Card, row: RunoutRow<S>) -> bool {
        let next = self.dealt_place(at, c);
        let n = self.node(next.idx);
        let p = n.player as int;
        &&& row.card@ == cards::card_text(c as int)
        &&& row.freqs@ == if n.kind == KIND_ACTION {
            Seq::new(
                n.num_children as nat,
                |a: int| frequency(next.reach(p), self.played(next.idx), a),
            )
        } else {
            Seq::empty()
        }
        &&& row.eq[0] == self.average_equity(next, 0)
        &&& row.eq[1] == self.average_equity(next, 1)
        &&& row.ev[0] == self.average_value(next, 0)
        &&& row.ev[1] == self.average_value(next, 1)
    }

    /// The cards from `c` on that can come, from the highest down.
    pub open spec fn coming_down(&self, at: Place<S>, c: int) -> Seq<Card>
        decreases 52 - c,
    {
        if c >= 52 {
            Seq::empty()
        } else if self.comes(at.idx, at.dealt, c) {
            self.coming_down(at, c + 1).push(c as u8)
        } else {
            self.coming_down(at, c + 1)
        }
    }

    /// The last decision that a card from `c` on leads to, from the highest
    /// card down, acts for this player.
    pub open spec fn runout_player(&self, at: Place<S>, c: int) -> Option<u8>
        decreases 52 - c,
    {
        if c >= 52 {
            None
        } else if self.comes(at.idx, at.dealt, c) && self.decides(self.child(at.idx, c)) {
            Some(self.node(self.child(at.idx, c)).player)
        } else {
            self.runout_player(at, c + 1)
        }
    }

    /// The first decision that a card from `c` on leads to, from the highest
    /// card down.
    pub open spec fn runout_decision(&self, at: Place<S>, c: int) -> Option<int>
        decreases 52 - c,
    {
        if c >= 52 {
            None
        } else {
            match self.runout_decision(at, c + 1) {
                Some(idx) => Some(idx),
                None => if self.comes(at.idx, at.dealt, c) && self.decides(
                    self.child(at.idx, c),
                ) {
                    Some(self.child(at.idx, c))
                } else {
                    None
                },
            }
        }
    }

    /// The first pot that does not vanish, from the highest card down to `c`.
    pub open spec fn runout_pot(&self, at: Place<S>, c: int) -> S::Wide
        decreases 52 - c,
    {
        if c >= 52 {
            S::Wide::decimal_spec(0, 0)
        } else {
            let pot = self.runout_pot(at, c + 1);
            if self.comes(at.idx, at.dealt, c) && vanishes(pot) {
                self.pot_at(self.child(at.idx, c))
            } else {
                pot
            }
        }
    }

    /// The report of the cards from `c` on.
    pub open spec fn runouts_shown(
        &self,
        at: Place<S>,
        c: int,
        actions: Seq<ActionView<S::Wide>>,
        player: Option<u8>,
        pot: S::Wide,
        rows: Seq<RunoutRow<S>>,
    ) -> bool {
        let list = self.coming_down(at, c);
        &&& match self.runout_decision(at, c) {
            Some(idx) => self.decides(idx) && self.actions_shown(idx, actions),
            None => actions.len() == 0,
        }
        &&& player == self.runout_player(at, c)
        &&& pot == self.runout_pot(at, c)
        &&& rows.len() == list.len()
        &&& forall|r: int| 0 <= r < rows.len() ==> self.row_shown(at, list[r], #[trigger] rows[r])
    }

    fn player_averages(&self, walk: &Walk<S>, p: usize) -> (r: (Option<S>, Option<S>))
        requires
            self.wf(),
            p < 2,
            self.standing(walk.place()),
            walk.dealt.wf(),
        ensures
            r.0 == self.average_equity(walk.place(), p as int),
            r.1 == self.average_value(walk.place(), p as int),
    {
        let ghost at = walk.place();
        let nh: usize = self.spot.hands[p].len();
        let reach_o = &walk.reach[1 - p];
        let reach = &walk.reach[p];
        assert(reach_o@ == at.reach(1 - p as int));
        assert(reach@ == at.reach(p as int));
        let valid = self.valid_opp_sum(p, reach_o);
        let eq = self.equity(p, reach_o, walk.dealt);
        let cfv = self.traverse_avg(walk.node_idx, p, reach_o, walk.dealt);
        let put = self.spot.tree.nodes[walk.node_idx as usize].put[p];
        let zero = S::Wide::decimal(0, 0);
        let least = S::Wide::decimal(1, 9);
        let nothing = S::decimal(0, 0);
        let mut eq_sum = zero;
        let mut eq_w = zero;
        let mut ev_sum = zero;
        let mut ev_w = zero;
        let mut i: usize = 0;
        while i < nh
            invariant
                i <= nh == eq@.len() == valid@.len() == reach@.len() == cfv@.len(),
                least == S::Wide::decimal_spec(1, 9),
                nothing == S::decimal_spec(0, 0),
                (eq_sum, eq_w) == equity_sums(eq@, reach@, valid@, i as int),
                (ev_sum, ev_w) == value_sums(cfv@, reach@, valid@, put, i as int),
            decreases nh - i,
        {
            let w = reach[i].widened().times(valid[i]);
            match eq[i] {
                Some(e) => {
                    eq_sum = eq_sum.plus(w.times(e.widened()));
                    eq_w = eq_w.plus(w);
                },
                None => {},
            }
            if least.below(valid[i]) && nothing.below(reach[i]) {
                let ev = cfv[i].widened().over(valid[i]).plus(put);
                ev_sum = ev_sum.plus(w.times(ev));
                ev_w = ev_w.plus(w);
            }
            i = i + 1;
        }
        (average(eq_sum, eq_w), average(ev_sum, ev_w))
    }

    fn runout_row(&self, walk: &Walk<S>, c: Card, child_idx: u32) -> (r: RunoutRow<S>)
        requires
            self.wf(),
            self.standing(walk.place()),
            walk.dealt.wf(),
            self.node(walk.node_idx as int).kind == KIND_CHANCE,
            c < 52,
            self.comes(walk.node_idx as int, walk.dealt.list(), c as int),
            child_idx == self.child(walk.node_idx as int, c as int),
        ensures
            self.row_shown(walk.place(), c, r),
    {
        let ghost at = walk.place();
        proof {
            self.lemma_deal(at.idx, at.dealt, c as int);
        }
        let next = Walk {
            node_idx: child_idx,
            reach: [
                pass_card(&self.spot.hands[0], &walk.reach[0], c),
                pass_card(&self.spot.hands[1], &walk.reach[1], c),
            ],
            dealt: walk.dealt.push(c),
        };
        let ghost place = next.place();
        assert(place == self.dealt_place(at, c));
        let child = &self.spot.tree.nodes[child_idx as usize];
        let mut freqs: Vec<S> = Vec::new();
        if child.kind == KIND_ACTION {
            proof {
                self.lemma_decision(child_idx as int);
            }
            let p: usize = child.player as usize;
            let sigma = self.average_strategy(child_idx);
            assert(next.reach[p as int]@ == place.reach(p as int));
            freqs = action_frequencies(
                next.reach[p].as_slice(),
                sigma.as_slice(),
                child.num_children as usize,
            );
        }
        let (eq0, ev0) = self.player_averages(&next, 0);
        let (eq1, ev1) = self.player_averages(&next, 1);
        RunoutRow { card: card_to_string(c), freqs, eq: [eq0, eq1], ev: [ev0, ev1] }
    }

    /// Per-card strategy/equity overview at a chance node.
    pub fn runouts(&self, path: &[PathStep]) -> (r: Result<RunoutsReport<S>, QueryError>)
        requires
            self.wf(),
        ensures
            match self.walked(path::steps(path@)) {
                Err(e) => r is Err && r->Err_0.fault() == e,
                Ok(at) => if self.node(at.idx).kind != KIND_CHANCE {
                    r is Err && r->Err_0.fault() is NotAChance
                } else {
                    r is Ok && self.runouts_shown(
                        at,
                        0,
                        r->Ok_0.actions@,
                        r->Ok_0.player,
                        r->Ok_0.pot,
                        r->Ok_0.rows@,
                    )
                },
            },
    {
        let walk = match self.walk_path(path) {
            Ok(walk) => walk,
            Err(e) => return Err(e),
        };
        let ghost at = walk.place();
        let n = &self.spot.tree.nodes[walk.node_idx as usize];
        if n.kind != KIND_CHANCE {
            return Err(QueryError::NotAChance);
        }
        proof {
            self.lemma_chance(walk.node_idx as int);
        }
        let cs: usize = n.children_start as usize;
        let slots: usize = self.spot.tree.children.len();
        let zero = S::Wide::decimal(0, 0);
        let mut actions: Vec<ActionView<S::Wide>> = Vec::new();
        let mut player: Option<u8> = None;
        let mut rows: Vec<RunoutRow<S>> = Vec::new();
        let mut pot = zero;
        let mut c: u8 = 52;
        while c > 0
            invariant
                c <= 52,
                self.wf(),
                at == walk.place(),
                self.standing(at),
                walk.dealt.wf(),
                *n == self.node(at.idx),
                n.kind == KIND_CHANCE,
                cs == n.children_start,
                cs + 52 <= self.spot.tree.children@.len() == slots,
                zero == S::Wide::decimal_spec(0, 0),
                self.runouts_shown(at, c as int, actions@, player, pot, rows@),
            decreases c,
        {
            c = c - 1;
            let child_idx: u32 = self.spot.tree.children[cs + c as usize];
            assert(child_idx == self.child(at.idx, c as int));
            if child_idx != SENTINEL && !walk.dealt.contains(c) {
                proof {
                    self.lemma_deal(at.idx, at.dealt, c as int);
                }
                let ghost list = self.coming_down(at, c + 1);
                let ghost before = rows@;
                let child = &self.spot.tree.nodes[child_idx as usize];
                if child.kind == KIND_ACTION {
                    proof {
                        self.lemma_decision(child_idx as int);
                        if self.runout_decision(at, c + 1) is Some {
                            self.lemma_decision(self.runout_decision(at, c + 1)->Some_0);
                        }
                    }
                    player = Some(child.player);
                    if actions.len() == 0 {
                        actions = self.action_views(child_idx);
                    }
                }
                if pot.at_most(zero) && zero.at_most(pot) {
                    pot = child.put[0].plus(child.put[1]);
                }
                rows.push(self.runout_row(&walk, c, child_idx));
                assert(self.coming_down(at, c as int) == list.push(c));
                assert forall|r: int| 0 <= r < rows@.len() implies self.row_shown(
                    at,
                    self.coming_down(at, c as int)[r],
                    #[trigger] rows@[r],
                ) by {
                    if r < before.len() {
                        assert(self.row_shown(at, list[r], before[r]));
                    }
                }
            }
        }
        Ok(RunoutsReport { actions, player, pot, rows })
    }
}

} // verus!
