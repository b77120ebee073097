//! The best-response ("max exploit") view at a node.

use crate::cards;
use crate::cards::combo_to_string;
use crate::cfr::Solver;
use crate::game;
use crate::inspect;
use crate::inspect::hand_ev;
use crate::num;
use crate::num::{larger, magnitude, Num, Single};
use crate::path;
use crate::path::{PathStep, Place, QueryError, QueryFault, Step, Walk};
use crate::strategy;
use crate::tree::KIND_ACTION;
use crate::view;
use crate::view::{node_type_name, ActionView};
use vstd::prelude::*;

verus! {

/// Per-hand best-response data for the exploit ("max exploit") view.
#[derive(Debug, Clone)]
pub struct ExploitHandView<S> {
    pub combo: String,
    pub c1: u8,
    pub c2: u8,
    pub weight: S,
    pub reach: S,
    /// Card-removal-adjusted opponent reach mass (the per-hand EV normalizer).
    /// Aggregates of br_ev/cur_ev/gain/evs must weight by reach x valid.
    pub valid: S,
    /// EV of best-responding from here on (pot-share convention).
    pub br_ev: Option<S>,
    /// EV of the current average strategy (same convention).
    pub cur_ev: Option<S>,
    /// br_ev - cur_ev: what this hand gains by max-exploiting.
    pub gain: Option<S>,
    /// Exploiter-to-act nodes only: the best response (one-hot, ties split;
    /// the lock itself at locked nodes, where deviating is not allowed).
    pub br_strategy: Option<Vec<S>>,
    /// Exploiter-to-act nodes only: EV per action under BR continuation.
    pub evs: Option<Vec<Option<S>>>,
}

#[derive(Debug, Clone)]
pub struct ExploitView<S: Single> {
    pub node_type: String,
    pub exploiter: u8,
    /// Actor at this node (action nodes only).
    pub player: Option<u8>,
    pub actions: Vec<ActionView<S::Wide>>,
    pub locked: bool,
    pub hands: Vec<ExploitHandView<S>>,
    /// Reach x valid weighted average EV under best response / current
    /// strategy, and the difference (chips).
    pub avg_br_ev: Option<S>,
    pub avg_cur_ev: Option<S>,
    pub avg_gain: Option<S>,
}

/// The best of the first `k` actions for hand `j`.
pub open spec fn best_of<S: Num>(cfvs: Seq<Seq<S>>, j: int, k: int) -> S
    decreases k,
{
    if k <= 1 {
        cfvs[0][j]
    } else {
        num::larger_of(best_of(cfvs, j, k - 1), cfvs[k - 1][j])
    }
}

/// How far an action may stay behind the best and still count as one.
pub open spec fn tie_margin<S: Num>(best: S) -> S {
    num::larger_of(
        num::magnitude_of(best).times_spec(S::decimal_spec(1, 5)),
        S::decimal_spec(1, 5),
    )
}

/// Whether action `a` is as good as the best.
pub open spec fn ties<S: Num>(cfvs: Seq<Seq<S>>, j: int, a: int) -> bool {
    let best = best_of(cfvs, j, cfvs.len() as int);
    best.minus_spec(cfvs[a][j]).at_most_spec(tie_margin(best))
}

/// How many of the first `k` actions are as good as the best.
pub open spec fn ties_among<S: Num>(cfvs: Seq<Seq<S>>, j: int, k: int) -> int
    decreases k,
{
    if k <= 0 {
        0
    } else {
        ties_among(cfvs, j, k - 1) + if ties(cfvs, j, k - 1) {
            1int
        } else {
            0int
        }
    }
}

/// The best response of hand `j`: the best actions, evenly.
pub open spec fn best_response<S: Num>(cfvs: Seq<Seq<S>>, j: int) -> Seq<S> {
    let n = ties_among(cfvs, j, cfvs.len() as int);
    let count = if n < 1 {
        1
    } else {
        n
    };
    Seq::new(
        cfvs.len(),
        |a: int|
            if ties(cfvs, j, a) {
                S::decimal_spec(1, 0).over_spec(S::decimal_spec(count as i64, 0))
            } else {
                S::decimal_spec(0, 0)
            },
    )
}

fn respond_best<S: Num>(cfvs: &Vec<Vec<S>>, j: usize) -> (r: Vec<S>)
    requires
        1 <= cfvs@.len() <= 255,
        forall|a: int| 0 <= a < cfvs@.len() ==> j < (#[trigger] cfvs@[a])@.len(),
    ensures
        r@ == best_response(Seq::new(cfvs@.len(), |a: int| cfvs@[a]@), j as int),
{
    let ghost all = Seq::new(cfvs@.len(), |a: int| cfvs@[a]@);
    let na: usize = cfvs.len();
    let mut best = cfvs[0][j];
    let mut a: usize = 1;
    while a < na
        invariant
            1 <= a <= na == cfvs@.len() == all.len(),
            all == Seq::new(cfvs@.len(), |a: int| cfvs@[a]@),
            forall|x: int| 0 <= x < na ==> j < (#[trigger] cfvs@[x])@.len(),
            best == best_of(all, j as int, a as int),
        decreases na - a,
    {
        best = larger(best, cfvs[a][j]);
        a = a + 1;
    }
    let least = S::decimal(1, 5);
    let margin = larger(magnitude(best).times(least), least);
    let mut win: Vec<bool> = Vec::new();
    let mut n: i64 = 0;
    let mut b: usize = 0;
    while b < na
        invariant
            b <= na == cfvs@.len() == all.len(),
            na <= 255,
            all == Seq::new(cfvs@.len(), |a: int| cfvs@[a]@),
            forall|x: int| 0 <= x < na ==> j < (#[trigger] cfvs@[x])@.len(),
            best == best_of(all, j as int, na as int),
            margin == tie_margin(best),
            win@.len() == b,
            0 <= n <= b,
            n == ties_among(all, j as int, b as int),
            forall|x: int| 0 <= x < b ==> #[trigger] win@[x] == ties(all, j as int, x),
        decreases na - b,
    {
        let tied: bool = best.minus(cfvs[b][j]).at_most(margin);
        win.push(tied);
        if tied {
            n = n + 1;
        }
        b = b + 1;
    }
    let count: i64 = if n < 1 {
        1
    } else {
        n
    };
    let share = S::decimal(1, 0).over(S::decimal(count, 0));
    let zero = S::decimal(0, 0);
    let mut out: Vec<S> = Vec::new();
    let ghost want = best_response(all, j as int);
    let mut c: usize = 0;
    while c < na
        invariant
            c <= na == win@.len() == want.len(),
            want == best_response(all, j as int),
            n == ties_among(all, j as int, na as int),
            all.len() == na,
            count == if n < 1 {
                1
            } else {
                n
            },
            share == S::decimal_spec(1, 0).over_spec(S::decimal_spec(count, 0)),
            zero == S::decimal_spec(0, 0),
            forall|x: int| 0 <= x < na ==> #[trigger] win@[x] == ties(all, j as int, x),
            out@ == want.take(c as int),
        decreases na - c,
    {
        if win[c] {
            out.push(share);
        } else {
            out.push(zero);
        }
        assert(out@ =~= want.take(c + 1));
        c = c + 1;
    }
    assert(out@ =~= want);
    out
}

/// Weight, best-response value and current value summed over the first `n`
/// hands that have both values and weigh something.
pub open spec fn weighed<S: Single>(hands: Seq<ExploitHandView<S>>, n: int) -> (
    S::Wide,
    S::Wide,
    S::Wide,
)
    decreases n,
{
    let zero = S::Wide::decimal_spec(0, 0);
    if n <= 0 {
        (zero, zero, zero)
    } else {
        let (w, b, c) = weighed(hands, n - 1);
        let h = hands[n - 1];
        let x = h.reach.widened_spec().times_spec(h.valid.widened_spec());
        if h.br_ev is Some && h.cur_ev is Some && zero.below_spec(x) {
            (
                w.plus_spec(x),
                b.plus_spec(x.times_spec(h.br_ev->Some_0.widened_spec())),
                c.plus_spec(x.times_spec(h.cur_ev->Some_0.widened_spec())),
            )
        } else {
            (w, b, c)
        }
    }
}

/// A weighted average, if anything weighs.
pub open spec fn averaged<S: Single>(sum: S::Wide, w: S::Wide) -> Option<S> {
    if S::Wide::decimal_spec(1, 12).below_spec(w) {
        Some(S::narrowed_spec(sum.over_spec(w)))
    } else {
        None
    }
}

/// The first place of a permutation in a list, else the front.
pub open spec fn perm_place(perms: Seq<[u8; 4]>, pm: [u8; 4], from: int) -> int
    decreases perms.len() - from,
{
    if from >= perms.len() {
        0
    } else if perms[from] == pm {
        from
    } else {
        perm_place(perms, pm, from + 1)
    }
}

fn place_of_perm(perms: &Vec<[u8; 4]>, pm: &[u8; 4]) -> (r: usize)
    requires
        perms@.len() > 0,
    ensures
        r == perm_place(perms@, *pm, 0),
        r < perms@.len(),
{
    let mut i: usize = 0;
    while i < perms.len()
        invariant
            i <= perms@.len(),
            perms@.len() > 0,
            perm_place(perms@, *pm, 0) == perm_place(perms@, *pm, i as int),
        decreases perms@.len() - i,
    {
        let q: [u8; 4] = perms[i];
        if q[0] == pm[0] && q[1] == pm[1] && q[2] == pm[2] && q[3] == pm[3] {
            assert(q =~= *pm);
            return i;
        }
        i = i + 1;
    }
    0
}

impl<S: Single> Solver<S> {
    /// The hand on the visited branch that stands for browsed hand `i`.
    pub open spec fn stand_in(&self, p: int, perm: [u8; 4], i: int) -> int {
        self.spot.hand_perm[p]@[perm_place(self.spot.suit_perms@, perm, 0)]@[i] as int
    }

    /// The exploit view of player `p`'s browsed hand `i`.
    pub open spec fn exploit_hand_shown(
        &self,
        at: Place<S>,
        perm: [u8; 4],
        p: int,
        i: int,
        v: ExploitHandView<S>,
    ) -> bool {
        let h = self.spot.hands[p]@[i];
        let j = self.stand_in(p, perm, i);
        let n = self.node(at.idx);
        let reach_o = at.reach(1 - p);
        let valid = self.met(p, reach_o)[j];
        let put = n.put[p];
        &&& v.combo@ == cards::card_text(h.c1 as int) + cards::card_text(h.c2 as int)
        &&& v.c1 == h.c1
        &&& v.c2 == h.c2
        &&& v.weight == h.weight
        &&& v.reach == at.reach(p)[j]
        &&& v.valid == S::narrowed_spec(valid)
        &&& v.br_ev == inspect::ev_of(
            self.worth(true, at.idx, p, reach_o, at.dealt)[j],
            valid,
            put,
        )
        &&& v.cur_ev == inspect::ev_of(
            self.worth(false, at.idx, p, reach_o, at.dealt)[j],
            valid,
            put,
        )
        &&& v.gain == if v.br_ev is Some && v.cur_ev is Some {
            Some(v.br_ev->Some_0.minus_spec(v.cur_ev->Some_0))
        } else {
            None
        }
        &&& if self.acts(at.idx, p) {
            let cfvs = self.action_worths(true, at, p);
            &&& v.br_strategy is Some
            &&& v.br_strategy->Some_0@ == if self.locks@.contains_key(at.idx as u32) {
                strategy::column(
                    self.played(at.idx),
                    n.num_children as int,
                    self.nh(p),
                    j,
                )
            } else {
                best_response(cfvs, j)
            }
            &&& v.evs is Some
            &&& v.evs->Some_0@ == Seq::new(
                n.num_children as nat,
                |a: int| inspect::ev_of(cfvs[a][j], valid, put),
            )
        } else {
            v.br_strategy is None && v.evs is None
        }
    }

    /// The exploit view of the node that a path leads to.
    pub open spec fn exploit_shown(&self, way: Seq<Step>, p: int, v: ExploitView<S>) -> bool {
        let at = self.walked(self.visited(way))->Ok_0;
        let n = self.node(at.idx);
        let (w, b, c) = weighed(v.hands@, v.hands@.len() as int);
        &&& v.node_type@ == view::node_text(n.kind)
        &&& v.exploiter == p
        &&& v.player == if n.kind == KIND_ACTION {
            Some(n.player)
        } else {
            None
        }
        &&& self.actions_shown(at.idx, v.actions@)
        &&& v.locked == self.locks@.contains_key(at.idx as u32)
        &&& v.hands@.len() == self.nh(p)
        &&& forall|i: int|
            0 <= i < v.hands@.len() ==> self.exploit_hand_shown(
                at,
                self.visited_by(way),
                p,
                i,
                #[trigger] v.hands@[i],
            )
        &&& v.avg_br_ev == averaged::<S>(b, w)
        &&& v.avg_cur_ev == averaged::<S>(c, w)
        &&& v.avg_gain == averaged::<S>(b.minus_spec(c), w)
    }

    /// A stand-in is a hand.
    proof fn lemma_stand_in(&self, p: int, perm: [u8; 4], i: int)
        requires
            self.wf(),
            0 <= p < 2,
            0 <= i < self.nh(p),
            0 <= perm_place(self.spot.suit_perms@, perm, 0) < self.spot.suit_perms@.len(),
        ensures
            0 <= self.stand_in(p, perm, i) < self.nh(p),
            self.spot.hand_perm[p]@[perm_place(self.spot.suit_perms@, perm, 0)]@.len()
                == self.nh(p),
    {
        let k = perm_place(self.spot.suit_perms@, perm, 0);
        let table = self.spot.hand_perm[p]@[k]@;
        assert(game::image_table(table, self.spot.hands[p]@, self.spot.suit_perms@[k]));
        assert(game::is_image(
            self.spot.hands[p]@,
            self.spot.suit_perms@[k],
            i,
            table[i] as int,
        ));
    }

    fn exploit_hands(&self, walk: &Walk<S>, perm: &[u8; 4], p: usize) -> (r: Vec<
        ExploitHandView<S>,
    >)
        requires
            self.wf(),
            p < 2,
            self.standing(walk.place()),
            walk.dealt.wf(),
            self.spot.suit_perms@.len() > 0,
        ensures
            r@.len() == self.nh(p as int),
            forall|i: int|
                0 <= i < r@.len() ==> self.exploit_hand_shown(
                    walk.place(),
                    *perm,
                    p as int,
                    i,
                    #[trigger] r@[i],
                ),
    {
        let ghost at = walk.place();
        let node_idx: u32 = walk.node_idx;
        let n = &self.spot.tree.nodes[node_idx as usize];
        let nh: usize = self.spot.hands[p].len();
        let reach_o = &walk.reach[1 - p];
        assert(reach_o@ == at.reach(1 - p as int));
        let valid = self.valid_opp_sum(p, reach_o);
        // canonical-branch hand index for each browsed-branch hand
        let k: usize = place_of_perm(&self.spot.suit_perms, perm);
        let put = n.put[p];
        let is_actor: bool = n.kind == KIND_ACTION && n.player as usize == p;
        let na: usize = if n.kind == KIND_ACTION {
            n.num_children as usize
        } else {
            0
        };
        let mut acfv: Vec<Vec<S>> = Vec::new();
        let mut sigma: Vec<S> = Vec::new();
        let locked: bool = self.locks.contains_key(&node_idx);
        proof {
            self.lemma_hands(p as int);
        }
        if is_actor {
            proof {
                self.lemma_decision(node_idx as int);
            }
            acfv = self.traverse_actions(true, walk, p);
            sigma = self.average_strategy(node_idx);
        }
        let br_cfv = self.traverse_br(node_idx, p, reach_o, walk.dealt);
        let cur_cfv = self.traverse_avg(node_idx, p, reach_o, walk.dealt);
        let ghost worths = self.action_worths(true, at, p as int);
        let size: usize = sigma.len();
        let mut hands: Vec<ExploitHandView<S>> = Vec::new();
        let mut i: usize = 0;
        while i < nh
            invariant
                i <= nh == self.nh(p as int),
                p < 2,
                self.wf(),
                at == walk.place(),
                self.standing(at),
                *n == self.node(at.idx),
                is_actor == self.acts(at.idx, p as int),
                n.kind == KIND_ACTION ==> na == n.num_children,
                put == n.put[p as int],
                locked == self.locks@.contains_key(node_idx),
                node_idx == at.idx,
                k == perm_place(self.spot.suit_perms@, *perm, 0),
                k < self.spot.suit_perms@.len(),
                self.spot.hand_perm[p as int]@.len() == self.spot.suit_perms@.len(),
                worths == self.action_worths(true, at, p as int),
                is_actor ==> {
                    &&& 1 <= na <= 255
                    &&& acfv@.len() == na
                    &&& sigma@ == self.played(at.idx)
                    &&& sigma@.len() == na * nh
                },
                size == sigma@.len(),
                forall|a: int|
                    is_actor && 0 <= a < na ==> (#[trigger] acfv@[a])@ == worths[a]
                        && acfv@[a]@.len() == nh,
                br_cfv@ == self.worth(
                    true,
                    at.idx,
                    p as int,
                    at.reach(1 - p as int),
                    at.dealt,
                ),
                br_cfv@.len() == nh,
                cur_cfv@ == self.worth(
                    false,
                    at.idx,
                    p as int,
                    at.reach(1 - p as int),
                    at.dealt,
                ),
                cur_cfv@.len() == nh,
                valid@ == self.met(p as int, at.reach(1 - p as int)),
                valid@.len() == nh,
                walk.reach[p as int]@ == at.reach(p as int),
                at.reach(p as int).len() == nh,
                crate::terminal::cards_real(self.spot.hands[p as int]@),
                hands@.len() == i,
                forall|x: int|
                    0 <= x < i ==> self.exploit_hand_shown(
                        at,
                        *perm,
                        p as int,
                        x,
                        #[trigger] hands@[x],
                    ),
            decreases nh - i,
        {
            proof {
                self.lemma_stand_in(p as int, *perm, i as int);
            }
            let h = self.spot.hands[p][i];
            let j: usize = self.spot.hand_perm[p][k][i] as usize;
            let v = valid[j];
            let br_ev = hand_ev(br_cfv[j], v, put);
            let cur_ev = hand_ev(cur_cfv[j], v, put);
            let gain = match (br_ev, cur_ev) {
                (Some(b), Some(c)) => Some(b.minus(c)),
                _ => None,
            };
            let mut br_strategy: Option<Vec<S>> = None;
            let mut evs: Option<Vec<Option<S>>> = None;
            if is_actor {
                let mut per_action: Vec<Option<S>> = Vec::new();
                let mut lock_column: Vec<S> = Vec::new();
                let mut a: usize = 0;
                while a < na
                    invariant
                        a <= na,
                        j < nh,
                        sigma@.len() == na * nh == size,
                        acfv@.len() == na,
                        worths.len() == na,
                        forall|x: int|
                            0 <= x < na ==> (#[trigger] acfv@[x])@ == worths[x] && acfv@[x]@.len()
                                == nh,
                        per_action@ == Seq::new(
                            a as nat,
                            |x: int| inspect::ev_of(worths[x][j as int], v, put),
                        ),
                        lock_column@ == strategy::column(
                            sigma@,
                            na as int,
                            nh as int,
                            j as int,
                        ).take(a as int),
                    decreases na - a,
                {
                    proof {
                        strategy::lemma_cell(na as int, nh as int, a as int, j as int);
                    }
                    per_action.push(hand_ev(acfv[a][j], v, put));
                    lock_column.push(sigma[a * nh + j]);
                    assert(per_action@ =~= Seq::new(
                        (a + 1) as nat,
                        |x: int| inspect::ev_of(worths[x][j as int], v, put),
                    ));
                    assert(lock_column@ =~= strategy::column(
                        sigma@,
                        na as int,
                        nh as int,
                        j as int,
                    ).take(a + 1));
                    a = a + 1;
                }
                assert(lock_column@ =~= strategy::column(
                    sigma@,
                    na as int,
                    nh as int,
                    j as int,
                ));
                if locked {
                    br_strategy = Some(lock_column);
                } else {
                    assert(Seq::new(acfv@.len(), |a: int| acfv@[a]@) =~= worths);
                    br_strategy = Some(respond_best(&acfv, j));
                }
                evs = Some(per_action);
            }
            let view = ExploitHandView {
                combo: combo_to_string(h.c1, h.c2),
                c1: h.c1,
                c2: h.c2,
                weight: h.weight,
                reach: walk.reach[p][j],
                valid: S::narrowed(v),
                br_ev,
                cur_ev,
                gain,
                br_strategy,
                evs,
            };
            assert(self.exploit_hand_shown(at, *perm, p as int, i as int, view));
            hands.push(view);
            i = i + 1;
        }
        hands
    }

    /// Best-response ("max exploit") view at a node: what each of the
    /// exploiter's hands gains by deviating to a true best response against
    /// the opponent's current strategy, locks included. The exploiter's own
    /// locked nodes are constraints the best responder cannot deviate at. The
    /// path is canonicalized and the per-hand results mapped back through the
    /// suit permutation, so browsing an isomorphic runout reports the browsed
    /// branch's own combos.
    pub fn exploit_view(&self, path: &[PathStep], p: usize) -> (r: Result<
        ExploitView<S>,
        QueryError,
    >)
        requires
            self.wf(),
            self.dealable(path::steps(path@)),
            self.spot.suit_perms@.len() > 0,
        ensures
            match r {
                Ok(v) => {
                    &&& p < 2
                    &&& self.walked(self.visited(path::steps(path@))) is Ok
                    &&& self.exploit_shown(path::steps(path@), p as int, v)
                },
                Err(e) => if p >= 2 {
                    e.fault() is Exploiter
                } else {
                    self.walked(self.visited(path::steps(path@))) == Err::<Place<S>, QueryFault>(
                        e.fault(),
                    )
                },
            },
    {
        if p > 1 {
            return Err(QueryError::Exploiter);
        }
        let (canon, perm) = self.canonical_path_with_perm(path);
        let walk = match self.walk_path(canon.as_slice()) {
            Ok(walk) => walk,
            Err(e) => return Err(e),
        };
        let n = &self.spot.tree.nodes[walk.node_idx as usize];
        let hands = self.exploit_hands(&walk, &perm, p);
        // averages weight by reach x valid: per-hand EVs are normalized by
        // valid, so only this weighting aggregates them to a true range EV
        let zero = S::Wide::decimal(0, 0);
        let mut wsum = zero;
        let mut b = zero;
        let mut c = zero;
        let mut i: usize = 0;
        while i < hands.len()
            invariant
                i <= hands@.len(),
                zero == S::Wide::decimal_spec(0, 0),
                (wsum, b, c) == weighed(hands@, i as int),
            decreases hands@.len() - i,
        {
            let h = &hands[i];
            match (h.br_ev, h.cur_ev) {
                (Some(be), Some(ce)) => {
                    let w = h.reach.widened().times(h.valid.widened());
                    if zero.below(w) {
                        wsum = wsum.plus(w);
                        b = b.plus(w.times(be.widened()));
                        c = c.plus(w.times(ce.widened()));
                    }
                },
                _ => {},
            }
            i = i + 1;
        }
        let weighs: bool = S::Wide::decimal(1, 12).below(wsum);
        let (avg_br_ev, avg_cur_ev, avg_gain) = if weighs {
            (
                Some(S::narrowed(b.over(wsum))),
                Some(S::narrowed(c.over(wsum))),
                Some(S::narrowed(b.minus(c).over(wsum))),
            )
        } else {
            (None, None, None)
        };
        let player = if n.kind == KIND_ACTION {
            Some(n.player)
        } else {
            None
        };
        let actions = self.action_views(walk.node_idx);
        let locked: bool = self.locks.contains_key(&walk.node_idx);
        Ok(
            ExploitView {
                node_type: node_type_name(n.kind),
                exploiter: p as u8,
                player,
                actions,
                locked,
                hands,
                avg_br_ev,
                avg_cur_ev,
                avg_gain,
            },
        )
    }
}

} // verus!
