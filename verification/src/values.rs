//! Values and equities of a solver's hands, computed.

use crate::cards;
use crate::cards::{card_mask, Card, NUM_COMBOS};
use crate::cfr;
use crate::cfr::{pass_card, Solver};
use crate::game;
use crate::game::{Dealt, HandInfo};
use crate::num;
use crate::num::{larger, Num, Single};
use crate::sort::Ranked;
use crate::strategy;
use crate::strategy::{add_to, filled, pass_action};
use crate::terminal;
use crate::terminal::{fold_cfv, showdown_cfv, sweep_buckets};
use crate::tree::{KIND_CHANCE, KIND_TERM_FOLD, KIND_TERM_SHOWDOWN, SENTINEL};
use crate::tree_laws;
use vstd::prelude::*;

verus! {

/// Every entry of a strength list numbers one of the hands.
proof fn lemma_ranked_below<S>(
    hands: Seq<HandInfo<S>>,
    board: Seq<Card>,
    extra: Seq<Card>,
    n: int,
)
    requires
        0 <= n <= hands.len() <= NUM_COMBOS,
    ensures
        terminal::ranks_below(game::ranked(hands, board, extra, n), n as nat),
    decreases n,
{
    if n > 0 {
        lemma_ranked_below(hands, board, extra, n - 1);
        let rest = game::ranked(hands, board, extra, n - 1);
        let all = game::ranked(hands, board, extra, n);
        assert forall|k: int| 0 <= k < all.len() implies (#[trigger] all[k]).1 < n by {
            if k < rest.len() {
                assert(all[k] == rest[k]);
            }
        }
    }
}

proof fn lemma_strengths_below<S>(
    v: Seq<Ranked>,
    hands: Seq<HandInfo<S>>,
    board: Seq<Card>,
    extra: Seq<Card>,
)
    requires
        hands.len() <= NUM_COMBOS,
        game::strength_list(v, hands, board, extra),
    ensures
        terminal::ranks_below(v, hands.len()),
{
    let all = game::ranked(hands, board, extra, hands.len() as int);
    lemma_ranked_below(hands, board, extra, hands.len() as int);
    broadcast use vstd::seq_lib::group_to_multiset_ensures;

    assert forall|k: int| 0 <= k < v.len() implies (#[trigger] v[k]).1 < hands.len() by {
        assert(v.contains(v[k]));
        assert(v.to_multiset().count(v[k]) > 0);
        assert(all.to_multiset().count(v[k]) > 0);
        assert(all.contains(v[k]));
    }
}

impl<S: Single> Solver<S> {
    /// The river table has the runout of a full board.
    pub proof fn lemma_strengths(&self, p: int, reach: Seq<S>, dealt: Seq<Card>)
        requires
            self.wf(),
            0 <= p < 2,
            reach.len() == self.nh(1 - p),
            dealt.len() == 2 - self.spot.tree.root_street,
            game::all_cards(dealt),
            dealt.no_duplicates(),
            forall|i: int|
                0 <= i < dealt.len() ==> !cards::in_mask(
                    self.spot.board_mask,
                    (#[trigger] dealt[i]) as int,
                ),
        ensures
            0 <= cfr::river_key(self.spot.tree.root_street, dealt) < self.spot.river.slots().len(),
            self.spot.river.slots()[cfr::river_key(self.spot.tree.root_street, dealt)] is Some,
            self.face_off(p, reach, dealt).wf(),
    {
        let root = self.spot.tree.root_street;
        let k = cfr::river_key(root, dealt);
        let table = self.spot.river;
        assert(table.street() == root);
        if root == 0 {
            assert(dealt[0] != dealt[1]);
            let lo = if dealt[0] < dealt[1] {
                dealt[0] as int
            } else {
                dealt[1] as int
            };
            let hi = if dealt[0] < dealt[1] {
                dealt[1] as int
            } else {
                dealt[0] as int
            };
            assert(k == lo * 52 + hi);
            assert(k / 52 == lo && k % 52 == hi);
        }
        assert(game::runout_comes(root, self.spot.board_mask, k));
        match table.slots()[k] {
            Some(eval) => {
                let extra = game::runout_at(root, k);
                assert(game::evaluates(eval, self.spot.hands, self.spot.board@, extra));
                lemma_strengths_below(
                    eval.sorted[0]@,
                    self.spot.hands[0]@,
                    self.spot.board@,
                    extra,
                );
                lemma_strengths_below(
                    eval.sorted[1]@,
                    self.spot.hands[1]@,
                    self.spot.board@,
                    extra,
                );
                self.lemma_hands(p);
                self.lemma_hands(1 - p);
            },
            None => {},
        }
    }

    /// Hands are real, and the cross index stays inside the opponent's list.
    pub proof fn lemma_hands(&self, p: int)
        requires
            self.wf(),
            0 <= p < 2,
        ensures
            terminal::cards_real(self.spot.hands[p]@),
            terminal::indexes_below(self.spot.same_combo[p]@, self.spot.hands[1 - p]@.len()),
            self.spot.same_combo[p]@.len() == self.spot.hands[p]@.len(),
            0 < self.nh(p) <= NUM_COMBOS,
    {
        let hands = self.spot.hands[p]@;
        assert(game::listed(hands, NUM_COMBOS as int));
        assert(game::cross_indexed(
            self.spot.same_combo[p]@,
            hands,
            self.spot.hands[1 - p]@,
        ));
    }

    /// Counterfactual values of `p`'s hands from a node on, both players going
    /// on as they play.
    pub fn traverse_avg(&self, node_idx: u32, p: usize, reach_o: &Vec<S>, dealt: Dealt) -> (r: Vec<
        S,
    >)
        requires
            self.wf(),
            p < 2,
            reach_o@.len() == self.nh(1 - p),
            dealt.wf(),
            self.dealt_to(node_idx as int, dealt.list()),
        ensures
            r@ == self.worth(false, node_idx as int, p as int, reach_o@, dealt.list()),
            r@.len() == self.nh(p as int),
    {
        self.traverse(false, node_idx, p, reach_o, dealt)
    }

    /// Counterfactual values of `p`'s hands from a node on, `p` going on with
    /// a best response; at locked nodes `p` cannot deviate.
    pub fn traverse_br(&self, node_idx: u32, p: usize, reach_o: &Vec<S>, dealt: Dealt) -> (r: Vec<
        S,
    >)
        requires
            self.wf(),
            p < 2,
            reach_o@.len() == self.nh(1 - p),
            dealt.wf(),
            self.dealt_to(node_idx as int, dealt.list()),
        ensures
            r@ == self.worth(true, node_idx as int, p as int, reach_o@, dealt.list()),
            r@.len() == self.nh(p as int),
    {
        self.traverse(true, node_idx, p, reach_o, dealt)
    }

    fn traverse(&self, best: bool, node_idx: u32, p: usize, reach_o: &Vec<S>, dealt: Dealt) -> (r:
        Vec<S>)
        requires
            self.wf(),
            p < 2,
            reach_o@.len() == self.nh(1 - p),
            dealt.wf(),
            self.dealt_to(node_idx as int, dealt.list()),
        ensures
            r@ == self.worth(best, node_idx as int, p as int, reach_o@, dealt.list()),
            r@.len() == self.nh(p as int),
        decreases self.spot.tree.nodes@.len() - node_idx, 1nat,
    {
        let n = &self.spot.tree.nodes[node_idx as usize];
        proof {
            self.lemma_hands(p as int);
            self.lemma_hands(1 - p as int);
            assert(tree_laws::node_sound(
                self.spot.tree.arena(),
                self.spot.board_mask,
                node_idx as int,
            ));
            assert(tree_laws::node_sound(self.spot.tree.arena(), self.spot.board_mask, 0));
        }
        if n.kind == KIND_TERM_FOLD {
            let amount = S::narrowed(
                if n.player as usize == p {
                    n.t_lose
                } else {
                    n.t_win
                },
            );
            let mut out = filled(self.spot.hands[p].len(), S::decimal(0, 0));
            fold_cfv(
                self.spot.hands[p].as_slice(),
                self.spot.hands[1 - p].as_slice(),
                reach_o.as_slice(),
                self.spot.same_combo[p].as_slice(),
                amount,
                out.as_mut_slice(),
            );
            assert(out@ =~= self.worth(best, node_idx as int, p as int, reach_o@, dealt.list()));
            out
        } else if n.kind == KIND_TERM_SHOWDOWN {
            proof {
                self.lemma_strengths(p as int, reach_o@, dealt.list());
            }
            let mut out = filled(self.spot.hands[p].len(), S::decimal(0, 0));
            let eval = self.spot.river.get(&dealt);
            assert(*eval == self.strengths(dealt.list()));
            showdown_cfv(
                eval,
                p,
                self.spot.hands[p].as_slice(),
                self.spot.hands[1 - p].as_slice(),
                reach_o.as_slice(),
                self.spot.same_combo[p].as_slice(),
                S::narrowed(n.t_win),
                S::narrowed(n.t_lose),
                S::narrowed(n.t_tie),
                out.as_mut_slice(),
            );
            out
        } else if n.kind == KIND_CHANCE {
            self.traverse_chance(best, node_idx, p, reach_o, dealt)
        } else if n.player as usize != p {
            self.traverse_facing(best, node_idx, p, reach_o, dealt)
        } else {
            self.traverse_own(best, node_idx, p, reach_o, dealt)
        }
    }

    fn traverse_chance(&self, best: bool, node_idx: u32, p: usize, reach_o: &Vec<S>, dealt: Dealt)
        -> (r: Vec<S>)
        requires
            self.wf(),
            p < 2,
            reach_o@.len() == self.nh(1 - p),
            dealt.wf(),
            self.dealt_to(node_idx as int, dealt.list()),
            self.node(node_idx as int).kind == KIND_CHANCE,
        ensures
            r@ == self.worth_dealt(best, node_idx as int, p as int, reach_o@, dealt.list(), 52),
            r@.len() == self.nh(p as int),
        decreases self.spot.tree.nodes@.len() - node_idx, 0nat,
    {
        let n = &self.spot.tree.nodes[node_idx as usize];
        proof {
            self.lemma_chance(node_idx as int);
        }
        let cs: usize = n.children_start as usize;
        let slots: usize = self.spot.tree.children.len();
        let left = S::decimal(46 - n.street as i64, 0);
        let mut out = filled(self.spot.hands[p].len(), S::decimal(0, 0));
        let mut c: u8 = 0;
        while c < 52
            invariant
                c <= 52,
                self.wf(),
                p < 2,
                reach_o@.len() == self.nh(1 - p),
                dealt.wf(),
                self.dealt_to(node_idx as int, dealt.list()),
                *n == self.node(node_idx as int),
                n.kind == KIND_CHANCE,
                cs == n.children_start,
                cs + 52 <= self.spot.tree.children@.len() == slots,
                left == S::decimal_spec((46 - n.street) as i64, 0),
                out@.len() == self.nh(p as int),
                out@ == self.worth_dealt(
                    best,
                    node_idx as int,
                    p as int,
                    reach_o@,
                    dealt.list(),
                    c as nat,
                ),
            decreases 52 - c,
        {
            let child: u32 = self.spot.tree.children[cs + c as usize];
            assert(child == self.child(node_idx as int, c as int));
            if child != SENTINEL && !dealt.contains(c) {
                proof {
                    self.lemma_deal(node_idx as int, dealt.list(), c as int);
                }
                let ghost before = out@;
                let past = pass_card(&self.spot.hands[1 - p], reach_o, c);
                let v = self.traverse(best, child, p, &past, dealt.push(c));
                assert(v@ == self.worth_below(
                    best,
                    node_idx as int,
                    c as int,
                    p as int,
                    cfr::reach_past(self.spot.hands[1 - p]@, reach_o@, c as int),
                    dealt.list().push(c),
                ));
                let cm: u64 = card_mask(c);
                let mut i: usize = 0;
                while i < out.len()
                    invariant
                        i <= out@.len() == before.len() == v@.len() == self.spot.hands[p as int]@.len(),
                        c < 52,
                        p < 2,
                        cm == cards::mask_spec(c),
                        forall|m: int|
                            0 <= m < out@.len() ==> #[trigger] out@[m] == if m < i && !cfr::holds(
                                self.spot.hands[p as int]@[m],
                                c as int,
                            ) {
                                before[m].plus_spec(v@[m].over_spec(left))
                            } else {
                                before[m]
                            },
                    decreases out@.len() - i,
                {
                    if self.spot.hands[p][i].mask & cm == 0 {
                        let x = out[i].plus(v[i].over(left));
                        out.set(i, x);
                    }
                    i = i + 1;
                }
                assert(out@ =~= self.worth_dealt(
                    best,
                    node_idx as int,
                    p as int,
                    reach_o@,
                    dealt.list(),
                    (c + 1) as nat,
                ));
            }
            c = c + 1;
        }
        out
    }

    fn traverse_facing(&self, best: bool, node_idx: u32, p: usize, reach_o: &Vec<S>, dealt: Dealt)
        -> (r: Vec<S>)
        requires
            self.wf(),
            p < 2,
            reach_o@.len() == self.nh(1 - p),
            dealt.wf(),
            self.dealt_to(node_idx as int, dealt.list()),
            self.decides(node_idx as int),
            self.node(node_idx as int).player != p,
        ensures
            r@ == self.worth_facing(
                best,
                node_idx as int,
                p as int,
                reach_o@,
                dealt.list(),
                self.node(node_idx as int).num_children as nat,
            ),
            r@.len() == self.nh(p as int),
        decreases self.spot.tree.nodes@.len() - node_idx, 0nat,
    {
        let n = &self.spot.tree.nodes[node_idx as usize];
        proof {
            self.lemma_decision(node_idx as int);
        }
        let na: usize = n.num_children as usize;
        let cs: usize = n.children_start as usize;
        let slots: usize = self.spot.tree.children.len();
        let sigma = self.average_strategy(node_idx);
        let mut out = filled(self.spot.hands[p].len(), S::decimal(0, 0));
        let mut a: usize = 0;
        while a < na
            invariant
                a <= na,
                self.wf(),
                p < 2,
                reach_o@.len() == self.nh(1 - p),
                dealt.wf(),
                self.dealt_to(node_idx as int, dealt.list()),
                self.decides(node_idx as int),
                *n == self.node(node_idx as int),
                n.player == 1 - p,
                na == n.num_children,
                cs == n.children_start,
                cs + na <= self.spot.tree.children@.len() == slots,
                sigma@ == self.played(node_idx as int),
                sigma@.len() == na * reach_o@.len(),
                out@.len() == self.nh(p as int),
                out@ == self.worth_facing(
                    best,
                    node_idx as int,
                    p as int,
                    reach_o@,
                    dealt.list(),
                    a as nat,
                ),
            decreases na - a,
        {
            proof {
                self.lemma_decision(node_idx as int);
            }
            let child: u32 = self.spot.tree.children[cs + a];
            assert(child == self.child(node_idx as int, a as int));
            let next = pass_action(reach_o.as_slice(), sigma.as_slice(), na, a);
            let v = self.traverse(best, child, p, &next, dealt);
            assert(v@ == self.worth_below(
                best,
                node_idx as int,
                a as int,
                p as int,
                strategy::reach_through(reach_o@, self.played(node_idx as int), a as int),
                dealt.list(),
            ));
            add_to(&mut out, v.as_slice());
            a = a + 1;
        }
        out
    }

    fn traverse_own(&self, best: bool, node_idx: u32, p: usize, reach_o: &Vec<S>, dealt: Dealt)
        -> (r: Vec<S>)
        requires
            self.wf(),
            p < 2,
            reach_o@.len() == self.nh(1 - p),
            dealt.wf(),
            self.dealt_to(node_idx as int, dealt.list()),
            self.decides(node_idx as int),
            self.node(node_idx as int).player == p,
        ensures
            r@ == self.worth(best, node_idx as int, p as int, reach_o@, dealt.list()),
            r@.len() == self.nh(p as int),
        decreases self.spot.tree.nodes@.len() - node_idx, 0nat,
    {
        let n = &self.spot.tree.nodes[node_idx as usize];
        proof {
            self.lemma_decision(node_idx as int);
        }
        let na: usize = n.num_children as usize;
        let nh: usize = self.spot.hands[p].len();
        let cs: usize = n.children_start as usize;
        let slots: usize = self.spot.tree.children.len();
        let choose_best: bool = best && !self.locks.contains_key(&node_idx);
        let sigma = self.average_strategy(node_idx);
        let mut out = filled(nh, S::decimal(0, 0));
        let mut a: usize = 0;
        while a < na
            invariant
                a <= na,
                self.wf(),
                p < 2,
                reach_o@.len() == self.nh(1 - p),
                dealt.wf(),
                self.dealt_to(node_idx as int, dealt.list()),
                self.decides(node_idx as int),
                *n == self.node(node_idx as int),
                n.player == p,
                na == n.num_children,
                nh == self.nh(p as int),
                cs == n.children_start,
                cs + na <= self.spot.tree.children@.len() == slots,
                sigma@ == self.played(node_idx as int),
                sigma@.len() == na * nh,
                choose_best == (best && !self.locks@.contains_key(node_idx)),
                out@.len() == nh,
                out@ == if choose_best {
                    self.worth_choosing(
                        best,
                        node_idx as int,
                        p as int,
                        reach_o@,
                        dealt.list(),
                        a as nat,
                    )
                } else {
                    self.worth_mixing(
                        best,
                        node_idx as int,
                        p as int,
                        reach_o@,
                        dealt.list(),
                        a as nat,
                    )
                },
            decreases na - a,
        {
            proof {
                self.lemma_decision(node_idx as int);
            }
            let child: u32 = self.spot.tree.children[cs + a];
            assert(child == self.child(node_idx as int, a as int));
            let v = self.traverse(best, child, p, reach_o, dealt);
            assert(v@ == self.worth_below(
                best,
                node_idx as int,
                a as int,
                p as int,
                reach_o@,
                dealt.list(),
            ));
            let ghost before = out@;
            if choose_best {
                if a == 0 {
                    out = v;
                } else {
                    let mut i: usize = 0;
                    while i < nh
                        invariant
                            i <= nh == out@.len() == before.len() == v@.len(),
                            forall|m: int|
                                0 <= m < nh ==> #[trigger] out@[m] == if m < i {
                                    num::larger_of(before[m], v@[m])
                                } else {
                                    before[m]
                                },
                        decreases nh - i,
                    {
                        let x = larger(out[i], v[i]);
                        out.set(i, x);
                        i = i + 1;
                    }
                    assert(out@ =~= self.worth_choosing(
                        best,
                        node_idx as int,
                        p as int,
                        reach_o@,
                        dealt.list(),
                        (a + 1) as nat,
                    ));
                }
            } else {
                let mut i: usize = 0;
                let size: usize = sigma.len();
                while i < nh
                    invariant
                        i <= nh == out@.len() == before.len() == v@.len(),
                        a < na,
                        sigma@.len() == na * nh == size,
                        forall|m: int|
                            0 <= m < nh ==> #[trigger] out@[m] == if m < i {
                                before[m].plus_spec(
                                    sigma@[strategy::cell(nh as int, a as int, m)].times_spec(
                                        v@[m],
                                    ),
                                )
                            } else {
                                before[m]
                            },
                    decreases nh - i,
                {
                    proof {
                        strategy::lemma_cell(na as int, nh as int, a as int, i as int);
                    }
                    let x = out[i].plus(sigma[a * nh + i].times(v[i]));
                    out.set(i, x);
                    i = i + 1;
                }
                assert(out@ =~= self.worth_mixing(
                    best,
                    node_idx as int,
                    p as int,
                    reach_o@,
                    dealt.list(),
                    (a + 1) as nat,
                ));
            }
            a = a + 1;
        }
        out
    }
}

// ---------------------------------------------------------------------------
// Equity
// ---------------------------------------------------------------------------

/// Won, tied and met opponent reach, hand by hand.
pub type ReachSums<W> = (Seq<W>, Seq<W>, Seq<W>);

/// The runout deals every one of the given cards.
pub open spec fn completes(runout: Seq<Card>, dealt: Seq<Card>) -> bool {
    forall|i: int| 0 <= i < dealt.len() ==> runout.contains(#[trigger] dealt[i])
}

/// A hand's equity: the share of the met reach that is won, ties counting
/// half. There is none where no reach is met.
pub open spec fn equity_of<S: Single>(sums: ReachSums<S::Wide>, i: int) -> Option<S> {
    if S::Wide::decimal_spec(1, 9).below_spec(sums.2[i]) {
        Some(
            S::narrowed_spec(
                sums.0[i].plus_spec(sums.1[i].times_spec(S::Wide::decimal_spec(5, 1))).over_spec(
                    sums.2[i],
                ),
            ),
        )
    } else {
        None
    }
}

fn runout_has(root_street: u8, k: usize, c: Card) -> (r: bool)
    requires
        root_street <= 2,
        k < game::table_size(root_street),
    ensures
        r == game::runout_at(root_street, k as int).contains(c),
{
    let ghost cs = game::runout_at(root_street, k as int);
    let r: bool = if root_street == 2 {
        false
    } else if root_street == 1 {
        k as u8 == c
    } else {
        (k / 52) as u8 == c || (k % 52) as u8 == c
    };
    proof {
        if root_street == 1 {
            assert(cs[0] == k as u8);
        } else if root_street == 0 {
            assert(cs[0] == (k / 52) as u8);
            assert(cs[1] == (k % 52) as u8);
        }
    }
    r
}

impl<S: Single> Solver<S> {
    /// The reach sums over the first `k` runouts that deal the given cards.
    pub open spec fn tallied(&self, p: int, reach: Seq<S>, dealt: Seq<Card>, k: int) -> ReachSums<
        S::Wide,
    >
        decreases k,
    {
        let zeros = strategy::level(self.nh(p) as nat, S::Wide::decimal_spec(0, 0));
        if k <= 0 {
            (zeros, zeros, zeros)
        } else {
            let sums = self.tallied(p, reach, dealt, k - 1);
            match self.spot.river.slots()[k - 1] {
                Some(eval) => if completes(
                    game::runout_at(self.spot.tree.root_street, k - 1),
                    dealt,
                ) {
                    terminal::duel(
                        eval,
                        p,
                        self.spot.hands[p]@,
                        self.spot.hands[1 - p]@,
                        reach,
                        self.spot.same_combo[p]@,
                    ).summed(sums, 0)
                } else {
                    sums
                },
                None => sums,
            }
        }
    }

    /// Player `p`'s equities against the opponent's reach.
    pub open spec fn equities(&self, p: int, reach: Seq<S>, dealt: Seq<Card>) -> Seq<Option<S>> {
        let sums = self.tallied(p, reach, dealt, self.spot.river.slots().len() as int);
        Seq::new(self.nh(p) as nat, |i: int| equity_of(sums, i))
    }

    /// Equity of each of `p`'s hands against the opponent's reach, over all
    /// runouts that the dealt cards leave. `None` where no reach is met.
    pub fn equity(&self, p: usize, reach_o: &Vec<S>, dealt: Dealt) -> (r: Vec<Option<S>>)
        requires
            self.wf(),
            p < 2,
            reach_o@.len() == self.nh(1 - p),
            dealt.wf(),
        ensures
            r@ == self.equities(p as int, reach_o@, dealt.list()),
            r@.len() == self.nh(p as int),
    {
        let nh: usize = self.spot.hands[p].len();
        let root: u8 = self.spot.tree.root_street;
        let zero = S::Wide::decimal(0, 0);
        let mut win = filled(nh, zero);
        let mut tie = filled(nh, zero);
        let mut valid = filled(nh, zero);
        let size: usize = self.spot.river.len();
        let mut k: usize = 0;
        while k < size
            invariant
                k <= size == self.spot.river.slots().len(),
                self.wf(),
                p < 2,
                root == self.spot.tree.root_street,
                reach_o@.len() == self.nh(1 - p),
                dealt.wf(),
                nh == self.nh(p as int),
                win@.len() == nh,
                tie@.len() == nh,
                valid@.len() == nh,
                (win@, tie@, valid@) == self.tallied(p as int, reach_o@, dealt.list(), k as int),
            decreases size - k,
        {
            proof {
                assert(self.spot.river.street() == root);
                self.lemma_hands(p as int);
                self.lemma_hands(1 - p as int);
            }
            match self.spot.river.entry(k) {
                Some(eval) => {
                    let mut fits: bool = true;
                    let mut i: usize = 0;
                    let n: usize = dealt.len as usize;
                    let ghost runout = game::runout_at(root, k as int);
                    while i < n
                        invariant
                            i <= n == dealt.list().len(),
                            dealt.wf(),
                            root <= 2,
                            k < game::table_size(root),
                            runout == game::runout_at(root, k as int),
                            fits == completes(runout, dealt.list().take(i as int)),
                        decreases n - i,
                    {
                        let c: u8 = dealt.cards[i];
                        let found: bool = runout_has(root, k, c);
                        let ghost before = dealt.list().take(i as int);
                        let ghost after = dealt.list().take(i + 1);
                        proof {
                            assert(after =~= before.push(c));
                            assert(after[i as int] == c);
                            if completes(runout, after) {
                                assert forall|m: int| 0 <= m < before.len() implies runout.contains(
                                    #[trigger] before[m],
                                ) by {
                                    assert(after[m] == before[m]);
                                }
                            }
                            if completes(runout, before) && found {
                                assert forall|m: int| 0 <= m < after.len() implies runout.contains(
                                    #[trigger] after[m],
                                ) by {
                                    if m < i {
                                        assert(before[m] == after[m]);
                                    }
                                }
                            }
                        }
                        if !found {
                            fits = false;
                        }
                        i = i + 1;
                    }
                    assert(dealt.list().take(n as int) =~= dealt.list());
                    if fits {
                        proof {
                            let extra = game::runout_at(root, k as int);
                            assert(game::evaluates(
                                *eval,
                                self.spot.hands,
                                self.spot.board@,
                                extra,
                            ));
                            lemma_strengths_below(
                                eval.sorted[0]@,
                                self.spot.hands[0]@,
                                self.spot.board@,
                                extra,
                            );
                            lemma_strengths_below(
                                eval.sorted[1]@,
                                self.spot.hands[1]@,
                                self.spot.board@,
                                extra,
                            );
                        }
                        sweep_buckets(
                            eval,
                            p,
                            self.spot.hands[p].as_slice(),
                            self.spot.hands[1 - p].as_slice(),
                            reach_o.as_slice(),
                            self.spot.same_combo[p].as_slice(),
                            win.as_mut_slice(),
                            tie.as_mut_slice(),
                            valid.as_mut_slice(),
                        );
                    }
                },
                None => {},
            }
            k = k + 1;
        }
        let ghost sums = (win@, tie@, valid@);
        let least = S::Wide::decimal(1, 9);
        let half = S::Wide::decimal(5, 1);
        let mut out: Vec<Option<S>> = Vec::new();
        let mut i: usize = 0;
        while i < nh
            invariant
                i <= nh == win@.len() == tie@.len() == valid@.len(),
                sums == (win@, tie@, valid@),
                least == S::Wide::decimal_spec(1, 9),
                half == S::Wide::decimal_spec(5, 1),
                out@ == Seq::new(i as nat, |m: int| equity_of::<S>(sums, m)),
            decreases nh - i,
        {
            if least.below(valid[i]) {
                out.push(Some(S::narrowed(win[i].plus(tie[i].times(half)).over(valid[i]))));
            } else {
                out.push(None);
            }
            assert(out@ =~= Seq::new((i + 1) as nat, |m: int| equity_of::<S>(sums, m)));
            i = i + 1;
        }
        out
    }
}

} // verus!
