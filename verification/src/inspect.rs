//! The full view of a node: both players' hands with their reach, equity,
//! strategy and expected values.

use crate::canonical;
use crate::cards;
use crate::cards::{card_to_string, combo_to_string, Card};
use crate::cfr::Solver;
use crate::game::Dealt;
use crate::num::{Num, Single};
use crate::path;
use crate::path::{PathStep, Place, QueryError, QueryFault, Step, Walk};
use crate::strategy;
use crate::tree::{KIND_ACTION, KIND_CHANCE, SENTINEL};
use crate::view;
use crate::view::{node_type_name, ActionView, HistoryStep};
use vstd::prelude::*;

verus! {

#[derive(Debug, Clone)]
pub struct HandView<S> {
    pub combo: String,
    pub c1: u8,
    pub c2: u8,
    /// Range weight at the root.
    pub weight: S,
    /// Reach probability product (range weight x strategy path).
    pub reach: S,
    /// Card-removal-adjusted opponent reach mass (the per-hand EV normalizer).
    /// Range-average EVs must weight by reach x valid, or the invariant
    /// EV_OOP + EV_IP = pot breaks.
    pub valid: S,
    /// Equity vs opponent reach range.
    pub eq: Option<S>,
    /// EV in pot-share convention (chips owned of final pot, incl. future bets).
    pub ev: Option<S>,
    /// Acting player only: average strategy per action.
    pub strategy: Option<Vec<S>>,
    /// Acting player only: EV per action.
    pub evs: Option<Vec<Option<S>>>,
}

#[derive(Debug, Clone)]
pub struct PlayerView<S> {
    pub hands: Vec<HandView<S>>,
}

#[derive(Debug, Clone)]
pub struct NodeView<S: Single> {
    pub node_type: String,
    pub street: u8,
    pub board: Vec<String>,
    pub pot: S::Wide,
    pub put: [S::Wide; 2],
    pub player: Option<u8>,
    pub actions: Vec<ActionView<S::Wide>>,
    /// Chance nodes: cards that can come next.
    pub available_cards: Option<Vec<String>>,
    pub players: [PlayerView<S>; 2],
    pub locked: bool,
    /// One entry per node along the path, plus the current node (chosen=None).
    pub history: Vec<HistoryStep<S::Wide>>,
}

/// Whether a hand meets enough reach to have expected values.
pub open spec fn counts<W: Num>(valid: W) -> bool {
    W::decimal_spec(1, 9).below_spec(valid)
}

/// A counterfactual value as chips: per unit of met reach, and with the
/// player's own contribution back.
pub open spec fn chips<S: Single>(cfv: S, valid: S::Wide, put: S::Wide) -> S::Wide {
    cfv.widened_spec().over_spec(valid).plus_spec(put)
}

/// The expected value of a hand, if it has one.
pub open spec fn ev_of<S: Single>(cfv: S, valid: S::Wide, put: S::Wide) -> Option<S> {
    if counts(valid) {
        Some(S::narrowed_spec(chips(cfv, valid, put)))
    } else {
        None
    }
}

/// [`ev_of`], computed.
pub fn hand_ev<S: Single>(cfv: S, valid: S::Wide, put: S::Wide) -> (r: Option<S>)
    ensures
        r == ev_of(cfv, valid, put),
{
    if S::Wide::decimal(1, 9).below(valid) {
        Some(S::narrowed(cfv.widened().over(valid).plus(put)))
    } else {
        None
    }
}

/// What playing the first `k` actions as they are played earns a hand.
pub open spec fn mixed_ev<S: Single>(
    sigma: Seq<S>,
    nh: int,
    i: int,
    cfvs: Seq<Seq<S>>,
    valid: S::Wide,
    put: S::Wide,
    k: int,
) -> S::Wide
    decreases k,
{
    if k <= 0 {
        S::Wide::decimal_spec(0, 0)
    } else {
        mixed_ev(sigma, nh, i, cfvs, valid, put, k - 1).plus_spec(
            sigma[strategy::cell(nh, k - 1, i)].widened_spec().times_spec(
                chips(cfvs[k - 1][i], valid, put),
            ),
        )
    }
}

impl<S: Single> Solver<S> {
    /// What player `p`'s hands are worth after each action of a decision.
    pub open spec fn action_worths(&self, best: bool, at: Place<S>, p: int) -> Seq<Seq<S>> {
        Seq::new(
            self.node(at.idx).num_children as nat,
            |a: int| self.worth(best, self.child(at.idx, a), p, at.reach(1 - p), at.dealt),
        )
    }

    /// Whether player `p` is to act.
    pub open spec fn acts(&self, idx: int, p: int) -> bool {
        self.node(idx).kind == KIND_ACTION && self.node(idx).player == p
    }

    /// The view of player `p`'s hand `i` at a place.
    pub open spec fn hand_shown(&self, at: Place<S>, p: int, i: int, v: HandView<S>) -> bool {
        let h = self.spot.hands[p]@[i];
        let n = self.node(at.idx);
        let reach_o = at.reach(1 - p);
        let valid = self.met(p, reach_o)[i];
        &&& v.combo@ == cards::card_text(h.c1 as int) + cards::card_text(h.c2 as int)
        &&& v.c1 == h.c1
        &&& v.c2 == h.c2
        &&& v.weight == h.weight
        &&& v.reach == at.reach(p)[i]
        &&& v.valid == S::narrowed_spec(valid)
        &&& v.eq == self.equities(p, reach_o, at.dealt)[i]
        &&& if self.acts(at.idx, p) {
            let sigma = self.played(at.idx);
            let cfvs = self.action_worths(false, at, p);
            let na = n.num_children as int;
            &&& v.ev == if counts(valid) {
                Some(
                    S::narrowed_spec(
                        mixed_ev(sigma, self.nh(p), i, cfvs, valid, n.put[p], na),
                    ),
                )
            } else {
                None
            }
            &&& v.strategy is Some
            &&& v.strategy->Some_0@ == strategy::column(sigma, na, self.nh(p), i)
            &&& v.evs is Some
            &&& v.evs->Some_0@ == Seq::new(na as nat, |a: int| ev_of(cfvs[a][i], valid, n.put[p]))
        } else {
            let cfv = self.worth(false, at.idx, p, reach_o, at.dealt);
            &&& v.ev == ev_of(cfv[i], valid, n.put[p])
            &&& v.strategy is None
            &&& v.evs is None
        }
    }

    /// The view of all of player `p`'s hands at a place.
    pub open spec fn player_shown(&self, at: Place<S>, p: int, v: PlayerView<S>) -> bool {
        &&& v.hands@.len() == self.nh(p)
        &&& forall|i: int| 0 <= i < v.hands@.len() ==> self.hand_shown(at, p, i, #[trigger] v.hands@[i])
    }

    /// The cards among the first `n` that can come.
    pub open spec fn coming(&self, idx: int, dealt: Seq<Card>, n: int) -> Seq<Card>
        decreases n,
    {
        if n <= 0 {
            Seq::empty()
        } else if self.comes(idx, dealt, n - 1) {
            self.coming(idx, dealt, n - 1).push((n - 1) as u8)
        } else {
            self.coming(idx, dealt, n - 1)
        }
    }

    /// Whether the decision that a path leads to is locked. The lock lives on
    /// the branch that is visited.
    pub open spec fn lock_shown(&self, way: Seq<Step>) -> bool {
        let idx = match self.walked(self.visited(way)) {
            Ok(at) => at.idx,
            Err(_) => self.walked(way)->Ok_0.idx,
        };
        self.locks@.contains_key(idx as u32)
    }

    /// The view of the node that a path leads to.
    pub open spec fn node_shown(&self, way: Seq<Step>, v: NodeView<S>) -> bool {
        let at = self.walked(way)->Ok_0;
        let n = self.node(at.idx);
        &&& v.node_type@ == view::node_text(n.kind)
        &&& v.street == n.street
        &&& view::says(v.board@, view::card_texts(self.spot.board@ + at.dealt))
        &&& v.pot == self.pot_at(at.idx)
        &&& v.put == n.put
        &&& v.player == if n.kind == KIND_ACTION {
            Some(n.player)
        } else {
            None
        }
        &&& self.actions_shown(at.idx, v.actions@)
        &&& if n.kind == KIND_CHANCE {
            &&& v.available_cards is Some
            &&& view::says(
                v.available_cards->Some_0@,
                view::card_texts(self.coming(at.idx, at.dealt, 52)),
            )
        } else {
            v.available_cards is None
        }
        &&& self.player_shown(at, 0, v.players[0])
        &&& self.player_shown(at, 1, v.players[1])
        &&& v.locked == self.lock_shown(way)
        &&& self.history_shown(way, v.history@)
    }

    /// A path that arrives deals as many cards as it says.
    pub proof fn lemma_walk_deals(&self, way: Seq<Step>)
        requires
            self.wf(),
            self.walked(way) is Ok,
        ensures
            canonical::deals(way) == self.walked(way)->Ok_0.dealt.len(),
            self.dealable(way),
        decreases way.len(),
    {
        self.lemma_walked(way);
        let at = self.walked(way)->Ok_0;
        self.lemma_streets(at.idx);
        if way.len() > 0 {
            self.lemma_walk_deals(way.drop_last());
        }
    }

    /// At most two cards are dealt above a node.
    pub proof fn lemma_streets(&self, idx: int)
        requires
            self.wf(),
            0 <= idx < self.spot.tree.nodes@.len(),
        ensures
            crate::tree_laws::street_reached(self.node(idx)) <= 2,
    {
        assert(crate::tree_laws::node_sound(self.spot.tree.arena(), self.spot.board_mask, idx));
    }

    fn board_names(&self, dealt: &Dealt) -> (r: Vec<String>)
        requires
            self.wf(),
            dealt.wf(),
            crate::game::all_cards(dealt.list()),
        ensures
            view::says(r@, view::card_texts(self.spot.board@ + dealt.list())),
    {
        let mut out: Vec<String> = Vec::new();
        let ghost all = self.spot.board@ + dealt.list();
        let mut i: usize = 0;
        while i < self.spot.board.len()
            invariant
                i <= self.spot.board@.len(),
                self.wf(),
                all == self.spot.board@ + dealt.list(),
                out@.len() == i,
                forall|k: int|
                    0 <= k < i ==> (#[trigger] out@[k])@ == cards::card_text(all[k] as int),
            decreases self.spot.board@.len() - i,
        {
            out.push(card_to_string(self.spot.board[i]));
            i = i + 1;
        }
        let mut j: usize = 0;
        let n: usize = dealt.len as usize;
        while j < n
            invariant
                j <= n == dealt.list().len(),
                dealt.wf(),
                crate::game::all_cards(dealt.list()),
                all == self.spot.board@ + dealt.list(),
                out@.len() == self.spot.board@.len() + j,
                forall|k: int|
                    0 <= k < out@.len() ==> (#[trigger] out@[k])@ == cards::card_text(
                        all[k] as int,
                    ),
            decreases n - j,
        {
            let c: Card = dealt.cards[j];
            assert(c == dealt.list()[j as int]);
            out.push(card_to_string(c));
            j = j + 1;
        }
        out
    }

    fn cards_coming(&self, node_idx: u32, dealt: &Dealt) -> (r: Vec<String>)
        requires
            self.wf(),
            node_idx < self.spot.tree.nodes@.len(),
            self.node(node_idx as int).kind == KIND_CHANCE,
            dealt.wf(),
        ensures
            view::says(
                r@,
                view::card_texts(self.coming(node_idx as int, dealt.list(), 52)),
            ),
    {
        let n = &self.spot.tree.nodes[node_idx as usize];
        proof {
            self.lemma_chance(node_idx as int);
        }
        let cs: usize = n.children_start as usize;
        let slots: usize = self.spot.tree.children.len();
        let mut out: Vec<String> = Vec::new();
        let mut c: u8 = 0;
        while c < 52
            invariant
                c <= 52,
                dealt.wf(),
                *n == self.node(node_idx as int),
                cs == n.children_start,
                cs + 52 <= self.spot.tree.children@.len() == slots,
                view::says(
                    out@,
                    view::card_texts(self.coming(node_idx as int, dealt.list(), c as int)),
                ),
            decreases 52 - c,
        {
            let child: u32 = self.spot.tree.children[cs + c as usize];
            assert(child == self.child(node_idx as int, c as int));
            if child != SENTINEL && !dealt.contains(c) {
                let ghost before = out@;
                out.push(card_to_string(c));
                let ghost texts = view::card_texts(
                    self.coming(node_idx as int, dealt.list(), c as int),
                );
                let ghost next = view::card_texts(
                    self.coming(node_idx as int, dealt.list(), c + 1),
                );
                assert(next =~= texts.push(cards::card_text(c as int)));
                assert forall|i: int| 0 <= i < out@.len() implies (#[trigger] out@[i])@
                    == next[i] by {
                    if i < before.len() {
                        assert(before[i]@ == texts[i]);
                    }
                }
            }
            c = c + 1;
        }
        out
    }

    fn view_player(&self, walk: &Walk<S>, p: usize) -> (r: PlayerView<S>)
        requires
            self.wf(),
            p < 2,
            self.standing(walk.place()),
            walk.dealt.wf(),
        ensures
            self.player_shown(walk.place(), p as int, r),
    {
        let ghost at = walk.place();
        let node_idx: u32 = walk.node_idx;
        let n = &self.spot.tree.nodes[node_idx as usize];
        let nh: usize = self.spot.hands[p].len();
        let reach_o = &walk.reach[1 - p];
        assert(reach_o@ == at.reach(1 - p as int));
        let valid = self.valid_opp_sum(p, reach_o);
        let eq = self.equity(p, reach_o, walk.dealt);
        let put = n.put[p];
        let mut hands: Vec<HandView<S>> = Vec::new();
        proof {
            self.lemma_hands(p as int);
        }
        if n.kind == KIND_ACTION && n.player as usize == p {
            proof {
                self.lemma_decision(node_idx as int);
            }
            let na: usize = n.num_children as usize;
            let sigma = self.average_strategy(node_idx);
            let cfvs = self.traverse_actions(false, walk, p);
            let ghost worths = self.action_worths(false, at, p as int);
            let size: usize = sigma.len();
            let mut i: usize = 0;
            while i < nh
                invariant
                    i <= nh == self.nh(p as int),
                    p < 2,
                    self.wf(),
                    at == walk.place(),
                    self.standing(at),
                    *n == self.node(at.idx),
                    self.acts(at.idx, p as int),
                    na == n.num_children,
                    put == n.put[p as int],
                    sigma@ == self.played(at.idx),
                    sigma@.len() == na * nh == size,
                    worths == self.action_worths(false, at, p as int),
                    cfvs@.len() == na,
                    forall|a: int|
                        0 <= a < na ==> (#[trigger] cfvs@[a])@ == worths[a] && cfvs@[a]@.len()
                            == nh,
                    valid@ == self.met(p as int, at.reach(1 - p as int)),
                    valid@.len() == nh,
                    eq@ == self.equities(p as int, at.reach(1 - p as int), at.dealt),
                    eq@.len() == nh,
                    walk.reach[p as int]@ == at.reach(p as int),
                    at.reach(p as int).len() == nh,
                    crate::terminal::cards_real(self.spot.hands[p as int]@),
                    hands@.len() == i,
                    forall|x: int|
                        0 <= x < i ==> self.hand_shown(at, p as int, x, #[trigger] hands@[x]),
                decreases nh - i,
            {
                let h = self.spot.hands[p][i];
                let v = valid[i];
                let mut strat: Vec<S> = Vec::new();
                let mut evs: Vec<Option<S>> = Vec::new();
                let mut sum = S::Wide::decimal(0, 0);
                let mut a: usize = 0;
                while a < na
                    invariant
                        a <= na,
                        i < nh,
                        sigma@.len() == na * nh == size,
                        v == valid@[i as int],
                        cfvs@.len() == na,
                        worths.len() == na,
                        forall|x: int|
                            0 <= x < na ==> (#[trigger] cfvs@[x])@ == worths[x] && cfvs@[x]@.len()
                                == nh,
                        strat@ == strategy::column(
                            sigma@,
                            na as int,
                            nh as int,
                            i as int,
                        ).take(a as int),
                        evs@ == Seq::new(a as nat, |x: int| ev_of(worths[x][i as int], v, put)),
                        sum == mixed_ev(
                            sigma@,
                            nh as int,
                            i as int,
                            worths,
                            v,
                            put,
                            a as int,
                        ),
                    decreases na - a,
                {
                    proof {
                        strategy::lemma_cell(na as int, nh as int, a as int, i as int);
                    }
                    let s = sigma[a * nh + i];
                    let cfv = cfvs[a][i];
                    strat.push(s);
                    evs.push(hand_ev(cfv, v, put));
                    sum = sum.plus(s.widened().times(cfv.widened().over(v).plus(put)));
                    assert(strat@ =~= strategy::column(
                        sigma@,
                        na as int,
                        nh as int,
                        i as int,
                    ).take(a + 1));
                    assert(evs@ =~= Seq::new(
                        (a + 1) as nat,
                        |x: int| ev_of(worths[x][i as int], v, put),
                    ));
                    a = a + 1;
                }
                assert(strat@ =~= strategy::column(sigma@, na as int, nh as int, i as int));
                let ev = if S::Wide::decimal(1, 9).below(v) {
                    Some(S::narrowed(sum))
                } else {
                    None
                };
                let view = HandView {
                    combo: combo_to_string(h.c1, h.c2),
                    c1: h.c1,
                    c2: h.c2,
                    weight: h.weight,
                    reach: walk.reach[p][i],
                    valid: S::narrowed(v),
                    eq: eq[i],
                    ev,
                    strategy: Some(strat),
                    evs: Some(evs),
                };
                assert(self.hand_shown(at, p as int, i as int, view));
                hands.push(view);
                i = i + 1;
            }
        } else {
            let cfv = self.traverse_avg(node_idx, p, reach_o, walk.dealt);
            let mut i: usize = 0;
            while i < nh
                invariant
                    i <= nh == self.nh(p as int),
                    p < 2,
                    self.wf(),
                    at == walk.place(),
                    self.standing(at),
                    *n == self.node(at.idx),
                    !self.acts(at.idx, p as int),
                    put == n.put[p as int],
                    cfv@ == self.worth(
                        false,
                        at.idx,
                        p as int,
                        at.reach(1 - p as int),
                        at.dealt,
                    ),
                    cfv@.len() == nh,
                    valid@ == self.met(p as int, at.reach(1 - p as int)),
                    valid@.len() == nh,
                    eq@ == self.equities(p as int, at.reach(1 - p as int), at.dealt),
                    eq@.len() == nh,
                    walk.reach[p as int]@ == at.reach(p as int),
                    at.reach(p as int).len() == nh,
                    crate::terminal::cards_real(self.spot.hands[p as int]@),
                    hands@.len() == i,
                    forall|x: int|
                        0 <= x < i ==> self.hand_shown(at, p as int, x, #[trigger] hands@[x]),
                decreases nh - i,
            {
                let h = self.spot.hands[p][i];
                let view = HandView {
                    combo: combo_to_string(h.c1, h.c2),
                    c1: h.c1,
                    c2: h.c2,
                    weight: h.weight,
                    reach: walk.reach[p][i],
                    valid: S::narrowed(valid[i]),
                    eq: eq[i],
                    ev: hand_ev(cfv[i], valid[i], put),
                    strategy: None,
                    evs: None,
                };
                assert(self.hand_shown(at, p as int, i as int, view));
                hands.push(view);
                i = i + 1;
            }
        }
        PlayerView { hands }
    }

    /// What player `p`'s hands are worth after each action of a decision.
    pub(crate) fn traverse_actions(&self, best: bool, walk: &Walk<S>, p: usize) -> (r: Vec<Vec<S>>)
        requires
            self.wf(),
            p < 2,
            self.standing(walk.place()),
            walk.dealt.wf(),
            self.decides(walk.node_idx as int),
        ensures
            r@.len() == self.node(walk.node_idx as int).num_children,
            forall|a: int|
                0 <= a < r@.len() ==> (#[trigger] r@[a])@ == self.action_worths(
                    best,
                    walk.place(),
                    p as int,
                )[a] && r@[a]@.len() == self.nh(p as int),
    {
        let ghost at = walk.place();
        let n = &self.spot.tree.nodes[walk.node_idx as usize];
        proof {
            self.lemma_decision(walk.node_idx as int);
        }
        let na: usize = n.num_children as usize;
        let cs: usize = n.children_start as usize;
        let slots: usize = self.spot.tree.children.len();
        let reach_o = &walk.reach[1 - p];
        assert(reach_o@ == at.reach(1 - p as int));
        let mut out: Vec<Vec<S>> = Vec::new();
        let mut a: usize = 0;
        while a < na
            invariant
                a <= na,
                p < 2,
                self.wf(),
                at == walk.place(),
                self.standing(at),
                walk.dealt.wf(),
                self.decides(at.idx),
                *n == self.node(at.idx),
                na == n.num_children,
                cs == n.children_start,
                cs + na <= self.spot.tree.children@.len() == slots,
                reach_o@ == at.reach(1 - p as int),
                reach_o@.len() == self.nh(1 - p as int),
                out@.len() == a,
                forall|x: int|
                    0 <= x < a ==> (#[trigger] out@[x])@ == self.action_worths(
                        best,
                        at,
                        p as int,
                    )[x] && out@[x]@.len() == self.nh(p as int),
            decreases na - a,
        {
            proof {
                self.lemma_decision(at.idx);
            }
            let child: u32 = self.spot.tree.children[cs + a];
            assert(child == self.child(at.idx, a as int));
            let v = if best {
                self.traverse_br(child, p, reach_o, walk.dealt)
            } else {
                self.traverse_avg(child, p, reach_o, walk.dealt)
            };
            out.push(v);
            a = a + 1;
        }
        out
    }

    /// The view of the node that a path leads to.
    pub fn node_view(&self, path: &[PathStep]) -> (r: Result<NodeView<S>, QueryError>)
        requires
            self.wf(),
        ensures
            match r {
                Ok(v) => self.walked(path::steps(path@)) is Ok && self.node_shown(
                    path::steps(path@),
                    v,
                ),
                Err(e) => self.walked(path::steps(path@)) == Err::<Place<S>, QueryFault>(
                    e.fault(),
                ),
            },
    {
        let walk = match self.walk_path(path) {
            Ok(walk) => walk,
            Err(e) => return Err(e),
        };
        proof {
            self.lemma_walk_deals(path::steps(path@));
        }
        let n = &self.spot.tree.nodes[walk.node_idx as usize];
        let node_type = node_type_name(n.kind);
        let board = self.board_names(&walk.dealt);
        let pot = n.put[0].plus(n.put[1]);
        let actions = self.action_views(walk.node_idx);
        let available_cards = if n.kind == KIND_CHANCE {
            Some(self.cards_coming(walk.node_idx, &walk.dealt))
        } else {
            None
        };
        let players = [self.view_player(&walk, 0), self.view_player(&walk, 1)];
        let canon = self.canonical_path(path);
        let lock_idx: u32 = match self.walk_path(canon.as_slice()) {
            Ok(w) => w.node_idx,
            Err(_) => walk.node_idx,
        };
        let locked: bool = self.locks.contains_key(&lock_idx);
        let history = self.build_history(path);
        let player = if n.kind == KIND_ACTION {
            Some(n.player)
        } else {
            None
        };
        Ok(
            NodeView {
                node_type,
                street: n.street,
                board,
                pot,
                put: n.put,
                player,
                actions,
                available_cards,
                players,
                locked,
                history,
            },
        )
    }
}

} // verus!
