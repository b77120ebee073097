//! Locking a villain's whole tree to a stat profile.

use crate::canonical;
use crate::cards;
use crate::cards::{card_mask, permute_card, Card};
use crate::cfr;
use crate::cfr::Solver;
use crate::game;
use crate::game::Dealt;
use crate::locks;
use crate::locks::PROFILE_LABEL;
use crate::num;
use crate::num::{larger, total, Num, Single};
use crate::path::QueryError;
use crate::profile;
use crate::profile::{
    plan_lock, read_menu, street_name, Menu, PostflopStats, ProfileLockRow, ProfileLockSummary,
};
use crate::rake;
use crate::rake::rake_to_target;
use crate::runouts;
use crate::spot;
use crate::strategy;
use crate::strategy::{copied, filled, pass_action};
use crate::text::{chars_of, push_all, starts_with, string_of};
use crate::tree::{Action, KIND_ACTION, KIND_CHANCE, SENTINEL};
use crate::tree_laws;
use vstd::prelude::*;

verus! {

/// The locked strategies of a table.
pub open spec fn sigmas<S>(m: Map<u32, Vec<S>>) -> Map<u32, Seq<S>> {
    Map::new(|k: u32| m.contains_key(k), |k: u32| m[k]@)
}

/// The labels of a table.
pub open spec fn names(m: Map<u32, String>) -> Map<u32, Seq<char>> {
    Map::new(|k: u32| m.contains_key(k), |k: u32| m[k]@)
}

/// What a profile has laid down so far: locks, their labels, and for each
/// situation the reach seen and the reach that did what the stat counts.
#[verifier::ext_equal]
pub struct Laid<S: Single> {
    pub locks: Map<u32, Seq<S>>,
    pub labels: Map<u32, Seq<char>>,
    pub acc: Seq<(S::Wide, S::Wide)>,
    /// Whether the symmetric runouts are out of date.
    pub marked: bool,
}

/// Whom a profile is laid over, with which stats, down to which reach.
pub struct Aim<S> {
    pub villain: int,
    pub stats: PostflopStats<S>,
    pub eps: S,
}

/// A sum with the play of action `a` of the first `n` hands added.
pub open spec fn adding_hands<S: Single>(
    sum: S::Wide,
    reach: Seq<S>,
    sigma: Seq<S>,
    a: int,
    n: int,
) -> S::Wide
    decreases n,
{
    if n <= 0 {
        sum
    } else {
        adding_hands(sum, reach, sigma, a, n - 1).plus_spec(
            reach[n - 1].widened_spec().times_spec(
                sigma[strategy::cell(reach.len() as int, a, n - 1)].widened_spec(),
            ),
        )
    }
}

/// The reach that takes one of the marked ones among the first `k` actions.
pub open spec fn taking<S: Single>(
    reach: Seq<S>,
    sigma: Seq<S>,
    marks: Seq<bool>,
    k: int,
) -> S::Wide
    decreases k,
{
    if k <= 0 {
        S::Wide::decimal_spec(0, 0)
    } else {
        let sum = taking(reach, sigma, marks, k - 1);
        if marks[k - 1] {
            adding_hands(sum, reach, sigma, k - 1, reach.len() as int)
        } else {
            sum
        }
    }
}

/// How often a range takes one of the marked actions.
pub open spec fn rate<S: Single>(reach: Seq<S>, sigma: Seq<S>, marks: Seq<bool>) -> S::Wide {
    let mass = runouts::reach_total(reach, reach.len() as int);
    taking(reach, sigma, marks, marks.len() as int).over_spec(
        num::larger_of(S::Wide::decimal_spec(1, 12), mass),
    )
}

/// One situation's sums with a node counted.
pub open spec fn tallied<W: Num>(acc: Seq<(W, W)>, slot: int, mass: W, freq: W) -> Seq<(W, W)> {
    acc.update(
        slot,
        (acc[slot].0.plus_spec(mass), acc[slot].1.plus_spec(mass.times_spec(freq))),
    )
}

/// Which actions are folds of the given place.
pub open spec fn only(na: int, i: int) -> Seq<bool> {
    Seq::new(na as nat, |a: int| a == i)
}

/// Which actions are bets or raises.
pub open spec fn aggressive<W>(acts: Seq<Action<W>>) -> Seq<bool> {
    Seq::new(acts.len(), |a: int| acts[a] is Bet || acts[a] is Raise)
}

/// A node's play counted towards the situations it belongs to. Slots: 0-2 bet
/// with initiative per street, 3-5 fold vs bet per street, 6 raise vs bet, 7
/// bet without initiative. Aggression only counts where it is possible.
pub open spec fn counted<S: Single>(
    acc: Seq<(S::Wide, S::Wide)>,
    reach: Seq<S>,
    sigma: Seq<S>,
    acts: Seq<Action<S::Wide>>,
    st: int,
    menu: Menu,
    leads: bool,
) -> Seq<(S::Wide, S::Wide)> {
    let mass = runouts::reach_total(reach, reach.len() as int);
    let bold = rate(reach, sigma, aggressive(acts));
    match menu.fold {
        Some(f) => {
            let folded = tallied(
                acc,
                3 + st,
                mass,
                rate(reach, sigma, only(acts.len() as int, f as int)),
            );
            if menu.preferred is Some {
                tallied(folded, 6, mass, bold)
            } else {
                folded
            }
        },
        None => if menu.preferred is Some {
            tallied(
                acc,
                if leads {
                    st
                } else {
                    7
                },
                mass,
                bold,
            )
        } else {
            acc
        },
    }
}

fn add_action<S: Single>(
    sum: S::Wide,
    reach: &Vec<S>,
    sigma: &Vec<S>,
    na: usize,
    a: usize,
) -> (r: S::Wide)
    requires
        a < na,
        sigma@.len() == na * reach@.len(),
    ensures
        r == adding_hands(sum, reach@, sigma@, a as int, reach@.len() as int),
{
    let nh: usize = reach.len();
    let size: usize = sigma.len();
    let mut s = sum;
    let mut h: usize = 0;
    while h < nh
        invariant
            h <= nh == reach@.len(),
            a < na,
            sigma@.len() == na * nh == size,
            s == adding_hands(sum, reach@, sigma@, a as int, h as int),
        decreases nh - h,
    {
        proof {
            strategy::lemma_cell(na as int, nh as int, a as int, h as int);
        }
        s = s.plus(reach[h].widened().times(sigma[a * nh + h].widened()));
        h = h + 1;
    }
    s
}

fn rate_of<S: Single>(reach: &Vec<S>, sigma: &Vec<S>, marks: &Vec<bool>, mass: S::Wide) -> (r:
    S::Wide)
    requires
        sigma@.len() == marks@.len() * reach@.len(),
        mass == runouts::reach_total(reach@, reach@.len() as int),
    ensures
        r == rate(reach@, sigma@, marks@),
{
    let na: usize = marks.len();
    let mut s = S::Wide::decimal(0, 0);
    let mut a: usize = 0;
    while a < na
        invariant
            a <= na == marks@.len(),
            sigma@.len() == na * reach@.len(),
            s == taking(reach@, sigma@, marks@, a as int),
        decreases na - a,
    {
        if marks[a] {
            s = add_action(s, reach, sigma, na, a);
        }
        a = a + 1;
    }
    s.over(larger(S::Wide::decimal(1, 12), mass))
}

fn reach_sum<S: Single>(reach: &Vec<S>) -> (r: S::Wide)
    ensures
        r == runouts::reach_total(reach@, reach@.len() as int),
{
    let mut s = S::Wide::decimal(0, 0);
    let mut i: usize = 0;
    while i < reach.len()
        invariant
            i <= reach@.len(),
            s == runouts::reach_total(reach@, i as int),
        decreases reach@.len() - i,
    {
        s = s.plus(reach[i].widened());
        i = i + 1;
    }
    s
}

fn tally<W: Num>(acc: &mut Vec<(W, W)>, slot: usize, mass: W, freq: W)
    requires
        slot < old(acc)@.len(),
    ensures
        final(acc)@ == tallied(old(acc)@, slot as int, mass, freq),
        final(acc)@.len() == old(acc)@.len(),
{
    let (seen, did) = acc[slot];
    acc.set(slot, (seen.plus(mass), did.plus(mass.times(freq))));
}

fn count_play<S: Single>(
    acc: &mut Vec<(S::Wide, S::Wide)>,
    reach: &Vec<S>,
    sigma: &Vec<S>,
    acts: &Vec<Action<S::Wide>>,
    st: usize,
    menu: Menu,
    leads: bool,
)
    requires
        st < 3,
        old(acc)@.len() == 8,
        sigma@.len() == acts@.len() * reach@.len(),
    ensures
        final(acc)@ == counted(old(acc)@, reach@, sigma@, acts@, st as int, menu, leads),
        final(acc)@.len() == 8,
{
    let na: usize = acts.len();
    let mass = reach_sum(reach);
    let mut bold_marks: Vec<bool> = Vec::new();
    let mut fold_marks: Vec<bool> = Vec::new();
    let fold_at: usize = match menu.fold {
        Some(f) => f,
        None => na,
    };
    let mut a: usize = 0;
    while a < na
        invariant
            a <= na == acts@.len(),
            bold_marks@ == aggressive(acts@).take(a as int),
            fold_marks@ == only(na as int, fold_at as int).take(a as int),
        decreases na - a,
    {
        bold_marks.push(acts[a].is_aggressive());
        fold_marks.push(a == fold_at);
        assert(bold_marks@ =~= aggressive(acts@).take(a + 1));
        assert(fold_marks@ =~= only(na as int, fold_at as int).take(a + 1));
        a = a + 1;
    }
    assert(bold_marks@ =~= aggressive(acts@));
    assert(fold_marks@ =~= only(na as int, fold_at as int));
    if menu.fold.is_some() {
        let freq = rate_of(reach, sigma, &fold_marks, mass);
        tally(acc, 3 + st, mass, freq);
        if menu.preferred.is_some() {
            let bold = rate_of(reach, sigma, &bold_marks, mass);
            tally(acc, 6, mass, bold);
        }
    } else if menu.preferred.is_some() {
        let bold = rate_of(reach, sigma, &bold_marks, mass);
        let slot: usize = if leads {
            st
        } else {
            7
        };
        tally(acc, slot, mass, bold);
    }
}

impl<S: Single> Solver<S> {
    /// The actions of a decision.
    pub open spec fn acts_at(&self, idx: int) -> Seq<Action<S::Wide>> {
        let n = self.node(idx);
        Seq::new(n.num_children as nat, |a: int| self.action_at(idx, a))
    }

    /// A lock that no profile gave stands at a node.
    pub open spec fn manual(laid: Laid<S>, idx: int) -> bool {
        laid.labels.contains_key(idx as u32) && !locks::by_profile(laid.labels[idx as u32])
    }

    /// What is laid down at a decision of the villain, and what the villain
    /// plays there.
    pub open spec fn laid_at(
        &self,
        aim: Aim<S>,
        idx: int,
        reach: Seq<S>,
        aggressor: Option<usize>,
        laid: Laid<S>,
    ) -> (Laid<S>, Seq<S>) {
        let n = self.node(idx);
        let acts = self.acts_at(idx);
        let na = n.num_children as int;
        let st = n.street as int;
        let menu = profile::menu_of(acts, aim.stats.bet_size@ == "max"@);
        let leads = aggressor == Some(aim.villain as usize);
        if Self::manual(laid, idx) {
            (laid, laid.locks[idx as u32])
        } else {
            let sigma = rake::raked(
                self.solved(idx),
                na,
                self.nh(aim.villain),
                reach,
                profile::aims(aim.stats, st, menu, leads, na),
            );
            (
                Laid {
                    locks: laid.locks.insert(idx as u32, sigma),
                    labels: laid.labels.insert(
                        idx as u32,
                        profile::lock_name(aim.stats, st, menu, leads),
                    ),
                    acc: counted(laid.acc, reach, sigma, acts, st, menu, leads),
                    marked: true,
                },
                sigma,
            )
        }
    }

    /// The card that stands for `c` at a chance node, if `c` can come.
    pub open spec fn stands_for(&self, idx: int, dealt: Seq<Card>, c: int) -> Option<int> {
        if !self.comes(idx, dealt, c) {
            None
        } else if self.folds_symmetry() {
            let perms = self.spot.suit_perms@;
            let valid = spot::fixing(perms, dealt, perms.len() as int);
            Some(canonical::least_under(perms, valid, c, valid.len() as int).0)
        } else {
            Some(c)
        }
    }

    /// How many of the first `k` cards `c` stands for.
    pub open spec fn orbit(&self, idx: int, dealt: Seq<Card>, c: int, k: int) -> int
        decreases k,
    {
        if k <= 0 {
            0
        } else {
            self.orbit(idx, dealt, c, k - 1) + if self.stands_for(idx, dealt, k - 1) == Some(c) {
                1int
            } else {
                0int
            }
        }
    }

    /// The villain's reach behind card `c`: without the hands that hold it,
    /// and weighted by how likely one of the cards is that it stands for.
    pub open spec fn reach_behind(
        &self,
        villain: int,
        idx: int,
        dealt: Seq<Card>,
        reach: Seq<S>,
        c: int,
    ) -> Seq<S> {
        let scale = S::decimal_spec(self.orbit(idx, dealt, c, 52) as i64, 0).over_spec(
            S::decimal_spec((46 - self.node(idx).street) as i64, 0),
        );
        Seq::new(
            reach.len(),
            |i: int|
                if cfr::holds(self.spot.hands[villain]@[i], c) {
                    S::decimal_spec(0, 0)
                } else {
                    reach[i].times_spec(scale)
                },
        )
    }

    /// What is laid down in the subtree of a node. Places that the villain
    /// hardly ever reaches are left alone.
    pub open spec fn laid_below(
        &self,
        aim: Aim<S>,
        idx: int,
        reach: Seq<S>,
        dealt: Seq<Card>,
        aggressor: Option<usize>,
        laid: Laid<S>,
    ) -> Laid<S>
        decreases self.spot.tree.nodes@.len() - idx, 300nat,
    {
        let n = self.node(idx);
        if idx < 0 || idx >= self.spot.tree.nodes@.len() {
            laid
        } else if num::total_of(reach).below_spec(aim.eps) {
            laid
        } else if n.kind == KIND_CHANCE {
            self.laid_dealt(aim, idx, reach, dealt, aggressor, laid, 52)
        } else if n.kind == KIND_ACTION {
            if n.player == aim.villain {
                let (next, sigma) = self.laid_at(aim, idx, reach, aggressor, laid);
                self.laid_acted(
                    aim,
                    idx,
                    reach,
                    Some(sigma),
                    dealt,
                    aggressor,
                    next,
                    n.num_children as nat,
                )
            } else {
                self.laid_acted(
                    aim,
                    idx,
                    reach,
                    None,
                    dealt,
                    aggressor,
                    laid,
                    n.num_children as nat,
                )
            }
        } else {
            laid
        }
    }

    /// What is laid down behind the first `k` cards: only cards that stand for
    /// themselves are visited.
    pub open spec fn laid_dealt(
        &self,
        aim: Aim<S>,
        idx: int,
        reach: Seq<S>,
        dealt: Seq<Card>,
        aggressor: Option<usize>,
        laid: Laid<S>,
        k: nat,
    ) -> Laid<S>
        decreases self.spot.tree.nodes@.len() - idx, k,
    {
        if k == 0 {
            laid
        } else {
            let before = self.laid_dealt(aim, idx, reach, dealt, aggressor, laid, (k - 1) as nat);
            let c = k - 1;
            let child = self.child(idx, c);
            if self.stands_for(idx, dealt, c) == Some(c) && idx < child
                < self.spot.tree.nodes@.len() && idx >= 0 {
                self.laid_below(
                    aim,
                    child,
                    self.reach_behind(aim.villain, idx, dealt, reach, c),
                    dealt.push(c as u8),
                    aggressor,
                    before,
                )
            } else {
                before
            }
        }
    }

    /// What is laid down behind the first `k` actions of a decision.
    pub open spec fn laid_acted(
        &self,
        aim: Aim<S>,
        idx: int,
        reach: Seq<S>,
        sigma: Option<Seq<S>>,
        dealt: Seq<Card>,
        aggressor: Option<usize>,
        laid: Laid<S>,
        k: nat,
    ) -> Laid<S>
        decreases self.spot.tree.nodes@.len() - idx, k,
    {
        if k == 0 {
            laid
        } else {
            let before = self.laid_acted(
                aim,
                idx,
                reach,
                sigma,
                dealt,
                aggressor,
                laid,
                (k - 1) as nat,
            );
            let a = k - 1;
            let child = self.child(idx, a);
            let act = self.action_at(idx, a);
            if idx < child < self.spot.tree.nodes@.len() && idx >= 0 {
                self.laid_below(
                    aim,
                    child,
                    match sigma {
                        Some(s) => strategy::reach_through(reach, s, a),
                        None => reach,
                    },
                    dealt,
                    if act is Bet || act is Raise {
                        Some(self.node(idx).player as usize)
                    } else {
                        aggressor
                    },
                    before,
                )
            } else {
                before
            }
        }
    }

    /// The solver holds what has been laid down.
    pub open spec fn holds_laid(&self, laid: Laid<S>, acc: Seq<(S::Wide, S::Wide)>) -> bool {
        &&& sigmas(self.locks@) == laid.locks
        &&& names(self.lock_labels@) == laid.labels
        &&& acc == laid.acc
        &&& self.sym_dirty == laid.marked
    }

    /// A label that no profile gave names a lock.
    pub open spec fn labels_backed(&self) -> bool {
        forall|k: u32|
            self.lock_labels@.contains_key(k) && !locks::by_profile(
                #[trigger] self.lock_labels@[k]@,
            ) ==> self.locks@.contains_key(k)
    }

    /// Build and install the lock for one villain node; returns what the
    /// villain plays there (the fresh lock, or a pre-existing manual lock).
    fn profile_lock_node(
        &mut self,
        Ghost(base): Ghost<Solver<S>>,
        Ghost(laid): Ghost<Laid<S>>,
        node_idx: u32,
        reach: &Vec<S>,
        aggressor: Option<usize>,
        villain: usize,
        stats: &PostflopStats<S>,
        Ghost(eps): Ghost<S>,
        acc: &mut Vec<(S::Wide, S::Wide)>,
    ) -> (r: Vec<S>)
        requires
            old(self).wf(),
            old(self).labels_backed(),
            old(self).same_but_locks(&base),
            old(self).holds_laid(laid, old(acc)@),
            old(acc)@.len() == 8,
            old(self).decides(node_idx as int),
            old(self).node(node_idx as int).player == villain,
            reach@.len() == old(self).nh(villain as int),
        ensures
            final(self).wf(),
            final(self).labels_backed(),
            final(self).same_but_locks(&base),
            final(acc)@.len() == 8,
            r@.len() == base.block_len(node_idx as int),
            ({
                let aim = Aim { villain: villain as int, stats: *stats, eps };
                let (next, sigma) = base.laid_at(
                    aim,
                    node_idx as int,
                    reach@,
                    aggressor,
                    laid,
                );
                &&& final(self).holds_laid(next, final(acc)@)
                &&& r@ == sigma
            }),
    {
        proof {
            self.lemma_decision(node_idx as int);
            self.lemma_played(node_idx as int);
        }
        let n = self.spot.tree.nodes[node_idx as usize];
        let na: usize = n.num_children as usize;
        let nh: usize = self.spot.hands[villain].len();
        let st: usize = n.street as usize;
        proof {
            assert(tree_laws::node_sound(
                self.spot.tree.arena(),
                self.spot.board_mask,
                node_idx as int,
            ));
        }
        let acts = self.node_actions(node_idx);
        assert(acts@ =~= base.acts_at(node_idx as int));
        let largest: bool = stats.bet_size == "max".to_owned();
        let menu = read_menu(acts.as_slice(), largest);
        let leads: bool = match aggressor {
            Some(who) => who == villain,
            None => false,
        };
        // a pre-existing manual lock wins (point read > profile)
        let mut manual: bool = false;
        match self.lock_labels.get(&node_idx) {
            Some(label) => {
                if !starts_with(label.as_str(), PROFILE_LABEL) {
                    manual = true;
                }
            },
            None => {},
        }
        assert(manual == Self::manual(laid, node_idx as int));
        if manual {
            match self.locks.get(&node_idx) {
                Some(sigma) => {
                    assert(self.lock_fits(node_idx));
                    return copied(sigma.as_slice());
                },
                None => {
                    assert(false);
                },
            }
        }
        let (target, label) = plan_lock(stats, st, menu, leads, na);
        let mut sigma = self.solved_strategy(node_idx);
        rake_to_target(sigma.as_mut_slice(), na, nh, reach.as_slice(), target.as_slice());
        let kept = copied(sigma.as_slice());
        let ghost locks_before = self.locks@;
        let ghost labels_before = self.lock_labels@;
        let ghost label_text = label@;
        count_play(acc, reach, &sigma, &acts, st, menu, leads);
        self.locks.insert(node_idx, kept);
        self.lock_labels.insert(node_idx, label);
        self.mark_sym_dirty();
        proof {
            assert(sigmas(self.locks@) =~= sigmas(locks_before).insert(node_idx, sigma@));
            assert(names(self.lock_labels@) =~= names(labels_before).insert(
                node_idx,
                label_text,
            ));
            assert forall|k: u32| self.locks@.contains_key(k) implies #[trigger] self.lock_fits(
                k,
            ) by {
                if k != node_idx {
                    assert(locks_before.contains_key(k));
                    assert(old(self).lock_fits(k));
                }
            }
            assert forall|k: u32|
                self.lock_labels@.contains_key(k) && !locks::by_profile(
                    #[trigger] self.lock_labels@[k]@,
                ) implies self.locks@.contains_key(k) by {
                if k != node_idx {
                    assert(labels_before[k]@ == self.lock_labels@[k]@);
                }
            }
        }
        sigma
    }

    fn node_actions(&self, node_idx: u32) -> (r: Vec<Action<S::Wide>>)
        requires
            self.wf(),
            self.decides(node_idx as int),
        ensures
            r@ == self.acts_at(node_idx as int),
    {
        proof {
            self.lemma_decision(node_idx as int);
        }
        let n = &self.spot.tree.nodes[node_idx as usize];
        let na: usize = n.num_children as usize;
        let start: usize = n.actions_start as usize;
        let listed: usize = self.spot.tree.actions.len();
        let mut out: Vec<Action<S::Wide>> = Vec::new();
        let mut a: usize = 0;
        while a < na
            invariant
                a <= na == self.node(node_idx as int).num_children,
                start == self.node(node_idx as int).actions_start,
                start + na <= self.spot.tree.actions@.len() == listed,
                out@ == self.acts_at(node_idx as int).take(a as int),
            decreases na - a,
        {
            out.push(self.spot.tree.actions[start + a]);
            assert(out@ =~= self.acts_at(node_idx as int).take(a + 1));
            a = a + 1;
        }
        assert(out@ =~= self.acts_at(node_idx as int));
        out
    }
}

/// A strategy, if there is one.
pub open spec fn optional<S>(sigma: Option<Vec<S>>) -> Option<Seq<S>> {
    match sigma {
        Some(s) => Some(s@),
        None => None,
    }
}

impl<S: Single> Solver<S> {
    /// The mark `r` tells which card stands for `c`: 255 where `c` cannot come.
    pub open spec fn stands_as(&self, idx: int, dealt: Seq<Card>, c: int, r: u8) -> bool {
        match self.stands_for(idx, dealt, c) {
            Some(rep) => r == rep && 0 <= rep < 52,
            None => r == 255,
        }
    }

    /// Which card each card stands for: 255 where it cannot come.
    fn representatives(&self, node_idx: u32, dealt: &Dealt) -> (r: Vec<u8>)
        requires
            self.wf(),
            node_idx < self.spot.tree.nodes@.len(),
            self.node(node_idx as int).kind == KIND_CHANCE,
            dealt.wf(),
            game::all_cards(dealt.list()),
        ensures
            r@.len() == 52,
            forall|c: int|
                0 <= c < 52 ==> self.stands_as(node_idx as int, dealt.list(), c, #[trigger] r@[c]),
    {
        proof {
            self.lemma_chance(node_idx as int);
            self.lemma_suit_perms();
        }
        let n = &self.spot.tree.nodes[node_idx as usize];
        let cs: usize = n.children_start as usize;
        let slots: usize = self.spot.tree.children.len();
        let count: usize = self.spot.suit_perms.len();
        let folds: bool = self.use_isomorphism && count >= 2;
        let ghost perms = self.spot.suit_perms@;
        let valid = self.spot.perms_fixing(dealt);
        proof {
            canonical::lemma_fixing_inside(perms, dealt.list(), perms.len() as int);
        }
        let mut out: Vec<u8> = Vec::new();
        let mut c: u8 = 0;
        while c < 52
            invariant
                c <= 52,
                dealt.wf(),
                *n == self.node(node_idx as int),
                cs == n.children_start,
                cs + 52 <= self.spot.tree.children@.len() == slots,
                perms == self.spot.suit_perms@,
                count == perms.len(),
                canonical::all_perms(perms),
                folds == self.folds_symmetry(),
                valid@ == spot::fixing(perms, dealt.list(), perms.len() as int),
                forall|x: int| 0 <= x < valid@.len() ==> (#[trigger] valid@[x]) < perms.len(),
                out@.len() == c,
                forall|x: int|
                    0 <= x < c ==> self.stands_as(node_idx as int, dealt.list(), x, #[trigger] out@[x]),
            decreases 52 - c,
        {
            let child: u32 = self.spot.tree.children[cs + c as usize];
            assert(child == self.child(node_idx as int, c as int));
            if child == SENTINEL || dealt.contains(c) {
                out.push(255);
            } else {
                let mut rep: u8 = c;
                if folds {
                    let mut j: usize = 0;
                    let ghost mut by: Option<usize> = None;
                    while j < valid.len()
                        invariant
                            j <= valid@.len(),
                            c < 52,
                            rep < 52,
                            perms == self.spot.suit_perms@,
                            count == perms.len(),
                            canonical::all_perms(perms),
                            forall|x: int|
                                0 <= x < valid@.len() ==> (#[trigger] valid@[x]) < perms.len(),
                            (rep as int, by) == canonical::least_under(
                                perms,
                                valid@,
                                c as int,
                                j as int,
                            ),
                        decreases valid@.len() - j,
                    {
                        let k: usize = valid[j];
                        assert(cards::is_perm(perms[k as int]));
                        let image: u8 = permute_card(c, &self.spot.suit_perms[k]);
                        if image < rep {
                            rep = image;
                            proof {
                                by = Some(k);
                            }
                        }
                        j = j + 1;
                    }
                }
                out.push(rep);
            }
            c = c + 1;
        }
        out
    }

    /// Walks the branches that are visited, locking every decision of the
    /// villain on the way.
    fn profile_walk(
        &mut self,
        Ghost(base): Ghost<Solver<S>>,
        Ghost(laid): Ghost<Laid<S>>,
        node_idx: u32,
        reach: &Vec<S>,
        dealt: Dealt,
        aggressor: Option<usize>,
        villain: usize,
        stats: &PostflopStats<S>,
        eps: S,
        acc: &mut Vec<(S::Wide, S::Wide)>,
    )
        requires
            old(self).wf(),
            old(self).labels_backed(),
            old(self).same_but_locks(&base),
            old(self).holds_laid(laid, old(acc)@),
            old(acc)@.len() == 8,
            villain < 2,
            reach@.len() == base.nh(villain as int),
            dealt.wf(),
            base.dealt_to(node_idx as int, dealt.list()),
        ensures
            final(self).wf(),
            final(self).labels_backed(),
            final(self).same_but_locks(&base),
            final(acc)@.len() == 8,
            final(self).holds_laid(
                base.laid_below(
                    (Aim { villain: villain as int, stats: *stats, eps }),
                    node_idx as int,
                    reach@,
                    dealt.list(),
                    aggressor,
                    laid,
                ),
                final(acc)@,
            ),
        decreases base.spot.tree.nodes@.len() - node_idx, 1nat,
    {
        if total(reach.as_slice()).below(eps) {
            // the villain is effectively never here
            return;
        }
        let n = self.spot.tree.nodes[node_idx as usize];
        proof {
            assert(tree_laws::node_sound(
                self.spot.tree.arena(),
                self.spot.board_mask,
                node_idx as int,
            ));
        }
        if n.kind == KIND_CHANCE {
            self.profile_deals(
                Ghost(base),
                Ghost(laid),
                node_idx,
                reach,
                dealt,
                aggressor,
                villain,
                stats,
                eps,
                acc,
            );
        } else if n.kind == KIND_ACTION {
            let ghost aim = Aim { villain: villain as int, stats: *stats, eps };
            let mut sigma: Option<Vec<S>> = None;
            let ghost mut next = laid;
            if n.player as usize == villain {
                let s = self.profile_lock_node(
                    Ghost(base),
                    Ghost(laid),
                    node_idx,
                    reach,
                    aggressor,
                    villain,
                    stats,
                    Ghost(eps),
                    acc,
                );
                proof {
                    next = base.laid_at(aim, node_idx as int, reach@, aggressor, laid).0;
                }
                sigma = Some(s);
            }
            self.profile_acts(
                Ghost(base),
                Ghost(next),
                node_idx,
                reach,
                &sigma,
                dealt,
                aggressor,
                villain,
                stats,
                eps,
                acc,
            );
        }
    }

    fn profile_deals(
        &mut self,
        Ghost(base): Ghost<Solver<S>>,
        Ghost(laid): Ghost<Laid<S>>,
        node_idx: u32,
        reach: &Vec<S>,
        dealt: Dealt,
        aggressor: Option<usize>,
        villain: usize,
        stats: &PostflopStats<S>,
        eps: S,
        acc: &mut Vec<(S::Wide, S::Wide)>,
    )
        requires
            old(self).wf(),
            old(self).labels_backed(),
            old(self).same_but_locks(&base),
            old(self).holds_laid(laid, old(acc)@),
            old(acc)@.len() == 8,
            villain < 2,
            reach@.len() == base.nh(villain as int),
            dealt.wf(),
            base.dealt_to(node_idx as int, dealt.list()),
            base.node(node_idx as int).kind == KIND_CHANCE,
        ensures
            final(self).wf(),
            final(self).labels_backed(),
            final(self).same_but_locks(&base),
            final(acc)@.len() == 8,
            final(self).holds_laid(
                base.laid_dealt(
                    (Aim { villain: villain as int, stats: *stats, eps }),
                    node_idx as int,
                    reach@,
                    dealt.list(),
                    aggressor,
                    laid,
                    52,
                ),
                final(acc)@,
            ),
        decreases base.spot.tree.nodes@.len() - node_idx, 0nat,
    {
        let ghost aim = Aim { villain: villain as int, stats: *stats, eps };
        let ghost idx = node_idx as int;
        proof {
            self.lemma_chance(idx);
        }
        let n = self.spot.tree.nodes[node_idx as usize];
        let cs: usize = n.children_start as usize;
        let slots: usize = self.spot.tree.children.len();
        let reps = self.representatives(node_idx, &dealt);
        let divisor = S::decimal(46 - n.street as i64, 0);
        let nothing = S::decimal(0, 0);
        proof {
            assert forall|c: int|
                0 <= c < 52 implies base.stands_as(idx, dealt.list(), c, #[trigger] reps@[c]) by {
                assert(self.stands_as(idx, dealt.list(), c, reps@[c]));
                assert(base.stands_for(idx, dealt.list(), c) == self.stands_for(
                    idx,
                    dealt.list(),
                    c,
                ));
            }
        }
        let mut c: u8 = 0;
        while c < 52
            invariant
                c <= 52,
                self.wf(),
                self.labels_backed(),
                self.same_but_locks(&base),
                acc@.len() == 8,
                villain < 2,
                idx == node_idx,
                reach@.len() == base.nh(villain as int),
                dealt.wf(),
                base.dealt_to(idx, dealt.list()),
                n == base.node(idx),
                n.kind == KIND_CHANCE,
                cs == n.children_start,
                cs + 52 <= base.spot.tree.children@.len() == slots,
                divisor == S::decimal_spec((46 - n.street) as i64, 0),
                nothing == S::decimal_spec(0, 0),
                aim == (Aim { villain: villain as int, stats: *stats, eps }),
                reps@.len() == 52,
                forall|x: int|
                    0 <= x < 52 ==> base.stands_as(idx, dealt.list(), x, #[trigger] reps@[x]),
                self.holds_laid(
                    base.laid_dealt(
                        aim,
                        idx,
                        reach@,
                        dealt.list(),
                        aggressor,
                        laid,
                        c as nat,
                    ),
                    acc@,
                ),
            decreases 52 - c,
        {
            let ghost before = base.laid_dealt(
                aim,
                idx,
                reach@,
                dealt.list(),
                aggressor,
                laid,
                c as nat,
            );
            assert(base.stands_as(idx, dealt.list(), c as int, reps@[c as int]));
            if reps[c as usize] == c {
                assert(base.stands_for(idx, dealt.list(), c as int) == Some(c as int));
                let mut orbit: i64 = 0;
                let mut x: usize = 0;
                while x < 52
                    invariant
                        x <= 52 == reps@.len(),
                        c < 52,
                        forall|y: int|
                            0 <= y < 52 ==> base.stands_as(idx, dealt.list(), y, #[trigger] reps@[y]),
                        0 <= orbit <= x,
                        orbit == base.orbit(idx, dealt.list(), c as int, x as int),
                    decreases 52 - x,
                {
                    assert(base.stands_as(idx, dealt.list(), x as int, reps@[x as int]));
                    if reps[x] == c {
                        orbit = orbit + 1;
                    }
                    x = x + 1;
                }
                let child: u32 = self.spot.tree.children[cs + c as usize];
                assert(child == base.child(idx, c as int));
                proof {
                    self.lemma_deal(idx, dealt.list(), c as int);
                }
                let scale = S::decimal(orbit, 0).over(divisor);
                let cm: u64 = card_mask(c);
                let ghost want = base.reach_behind(
                    villain as int,
                    idx,
                    dealt.list(),
                    reach@,
                    c as int,
                );
                let mut r: Vec<S> = Vec::new();
                let mut i: usize = 0;
                while i < reach.len()
                    invariant
                        i <= reach@.len() == self.spot.hands[villain as int]@.len(),
                        self.spot == base.spot,
                        villain < 2,
                        c < 52,
                        cm == cards::mask_spec(c),
                        nothing == S::decimal_spec(0, 0),
                        want == base.reach_behind(
                            villain as int,
                            idx,
                            dealt.list(),
                            reach@,
                            c as int,
                        ),
                        scale == S::decimal_spec(
                            base.orbit(idx, dealt.list(), c as int, 52) as i64,
                            0,
                        ).over_spec(S::decimal_spec((46 - base.node(idx).street) as i64, 0)),
                        r@ == want.take(i as int),
                    decreases reach@.len() - i,
                {
                    if self.spot.hands[villain][i].mask & cm == 0 {
                        r.push(reach[i].times(scale));
                    } else {
                        r.push(nothing);
                    }
                    assert(r@ =~= want.take(i + 1));
                    i = i + 1;
                }
                assert(r@ =~= want);
                self.profile_walk(
                    Ghost(base),
                    Ghost(before),
                    child,
                    &r,
                    dealt.push(c),
                    aggressor,
                    villain,
                    stats,
                    eps,
                    acc,
                );
            } else {
                assert(base.stands_for(idx, dealt.list(), c as int) != Some(c as int));
            }
            c = c + 1;
        }
    }

    fn profile_acts(
        &mut self,
        Ghost(base): Ghost<Solver<S>>,
        Ghost(laid): Ghost<Laid<S>>,
        node_idx: u32,
        reach: &Vec<S>,
        sigma: &Option<Vec<S>>,
        dealt: Dealt,
        aggressor: Option<usize>,
        villain: usize,
        stats: &PostflopStats<S>,
        eps: S,
        acc: &mut Vec<(S::Wide, S::Wide)>,
    )
        requires
            old(self).wf(),
            old(self).labels_backed(),
            old(self).same_but_locks(&base),
            old(self).holds_laid(laid, old(acc)@),
            old(acc)@.len() == 8,
            villain < 2,
            reach@.len() == base.nh(villain as int),
            dealt.wf(),
            base.dealt_to(node_idx as int, dealt.list()),
            base.decides(node_idx as int),
            sigma is Some ==> base.node(node_idx as int).player == villain
                && sigma->Some_0@.len() == base.block_len(node_idx as int),
        ensures
            final(self).wf(),
            final(self).labels_backed(),
            final(self).same_but_locks(&base),
            final(acc)@.len() == 8,
            final(self).holds_laid(
                base.laid_acted(
                    (Aim { villain: villain as int, stats: *stats, eps }),
                    node_idx as int,
                    reach@,
                    optional(*sigma),
                    dealt.list(),
                    aggressor,
                    laid,
                    base.node(node_idx as int).num_children as nat,
                ),
                final(acc)@,
            ),
        decreases base.spot.tree.nodes@.len() - node_idx, 0nat,
    {
        let ghost aim = Aim { villain: villain as int, stats: *stats, eps };
        let ghost idx = node_idx as int;
        let ghost played = optional(*sigma);
        proof {
            self.lemma_decision(idx);
        }
        let n = self.spot.tree.nodes[node_idx as usize];
        let na: usize = n.num_children as usize;
        let actor: usize = n.player as usize;
        let cs: usize = n.children_start as usize;
        let start: usize = n.actions_start as usize;
        let slots: usize = self.spot.tree.children.len();
        let listed: usize = self.spot.tree.actions.len();
        let mut a: usize = 0;
        while a < na
            invariant
                a <= na,
                self.wf(),
                self.labels_backed(),
                self.same_but_locks(&base),
                acc@.len() == 8,
                villain < 2,
                idx == node_idx,
                reach@.len() == base.nh(villain as int),
                dealt.wf(),
                base.dealt_to(idx, dealt.list()),
                base.decides(idx),
                n == base.node(idx),
                na == n.num_children,
                actor == n.player,
                cs == n.children_start,
                cs + na <= base.spot.tree.children@.len() == slots,
                start == n.actions_start,
                start + na <= base.spot.tree.actions@.len() == listed,
                sigma is Some ==> n.player == villain && sigma->Some_0@.len() == na * base.nh(
                    villain as int,
                ),
                aim == (Aim { villain: villain as int, stats: *stats, eps }),
                played == optional(*sigma),
                self.holds_laid(
                    base.laid_acted(
                        aim,
                        idx,
                        reach@,
                        played,
                        dealt.list(),
                        aggressor,
                        laid,
                        a as nat,
                    ),
                    acc@,
                ),
            decreases na - a,
        {
            proof {
                self.lemma_decision(idx);
            }
            let ghost before = base.laid_acted(
                aim,
                idx,
                reach@,
                played,
                dealt.list(),
                aggressor,
                laid,
                a as nat,
            );
            let child: u32 = self.spot.tree.children[cs + a];
            assert(child == base.child(idx, a as int));
            assert(self.child(idx, a as int) == base.child(idx, a as int));
            assert(tree_laws::street_reached(self.node(self.child(idx, a as int))) == n.street);
            let act = self.spot.tree.actions[start + a];
            let next: Option<usize> = if act.is_aggressive() {
                Some(actor)
            } else {
                aggressor
            };
            match sigma {
                Some(s) => {
                    let r = pass_action(reach.as_slice(), s.as_slice(), na, a);
                    self.profile_walk(
                        Ghost(base),
                        Ghost(before),
                        child,
                        &r,
                        dealt,
                        next,
                        villain,
                        stats,
                        eps,
                        acc,
                    );
                },
                None => {
                    self.profile_walk(
                        Ghost(base),
                        Ghost(before),
                        child,
                        reach,
                        dealt,
                        next,
                        villain,
                        stats,
                        eps,
                        acc,
                    );
                },
            }
            a = a + 1;
        }
    }
}

// ---------------------------------------------------------------------------
// The whole profile
// ---------------------------------------------------------------------------

/// The order in which situations are reported.
pub open spec fn report_slot(k: int) -> int {
    if k >= 6 {
        k
    } else if k % 2 == 0 {
        k / 2
    } else {
        3 + k / 2
    }
}

/// The situations among the first `k` that came up.
pub open spec fn slots_seen<W: Num>(acc: Seq<(W, W)>, k: int) -> Seq<int>
    decreases k,
{
    if k <= 0 {
        Seq::empty()
    } else {
        let slot = report_slot(k - 1);
        if W::decimal_spec(0, 0).below_spec(acc[slot].0) {
            slots_seen(acc, k - 1).push(slot)
        } else {
            slots_seen(acc, k - 1)
        }
    }
}

/// What a situation is called.
pub open spec fn slot_text(slot: int) -> Seq<char> {
    if slot < 3 {
        profile::street_text(slot) + " bet (initiative)"@
    } else if slot < 6 {
        profile::street_text(slot - 3) + " fold vs bet"@
    } else if slot == 6 {
        "raise vs bet"@
    } else {
        "bet (no initiative)"@
    }
}

/// The stat of a situation.
pub open spec fn slot_target<S>(stats: PostflopStats<S>, slot: int) -> S {
    if slot < 3 {
        stats.cbet[slot]
    } else if slot < 6 {
        stats.fold_to_bet[slot - 3]
    } else if slot == 6 {
        stats.raise_bet
    } else {
        stats.donk
    }
}

/// The report on one situation.
pub open spec fn slot_shown<S: Single>(
    stats: PostflopStats<S>,
    acc: Seq<(S::Wide, S::Wide)>,
    slot: int,
    row: ProfileLockRow<S>,
) -> bool {
    &&& row.label@ == slot_text(slot)
    &&& row.target == slot_target(stats, slot)
    &&& row.achieved == S::narrowed_spec(
        acc[slot].1.over_spec(acc[slot].0).times_spec(S::Wide::decimal_spec(100, 0)),
    )
}

/// The report on all situations that came up.
pub open spec fn slots_shown<S: Single>(
    stats: PostflopStats<S>,
    acc: Seq<(S::Wide, S::Wide)>,
    k: int,
    rows: Seq<ProfileLockRow<S>>,
) -> bool {
    let slots = slots_seen(acc, k);
    &&& rows.len() == slots.len()
    &&& forall|i: int|
        0 <= i < rows.len() ==> slot_shown(stats, acc, slots[i], #[trigger] rows[i])
}

fn slot_name(slot: usize) -> (r: String)
    requires
        slot < 8,
    ensures
        r@ == slot_text(slot as int),
{
    if slot < 3 {
        let mut out = street_name(slot);
        push_all(&mut out, &chars_of(" bet (initiative)"));
        string_of(out.as_slice())
    } else if slot < 6 {
        let mut out = street_name(slot - 3);
        push_all(&mut out, &chars_of(" fold vs bet"));
        string_of(out.as_slice())
    } else if slot == 6 {
        "raise vs bet".to_owned()
    } else {
        "bet (no initiative)".to_owned()
    }
}

fn report_slots<S: Single>(stats: &PostflopStats<S>, acc: &Vec<(S::Wide, S::Wide)>) -> (r: Vec<
    ProfileLockRow<S>,
>)
    requires
        acc@.len() == 8,
    ensures
        slots_shown(*stats, acc@, 8, r@),
{
    let zero = S::Wide::decimal(0, 0);
    let hundred = S::Wide::decimal(100, 0);
    let mut rows: Vec<ProfileLockRow<S>> = Vec::new();
    let mut k: usize = 0;
    while k < 8
        invariant
            k <= 8 == acc@.len(),
            zero == S::Wide::decimal_spec(0, 0),
            hundred == S::Wide::decimal_spec(100, 0),
            slots_shown(*stats, acc@, k as int, rows@),
        decreases 8 - k,
    {
        let slot: usize = if k >= 6 {
            k
        } else if k % 2 == 0 {
            k / 2
        } else {
            3 + k / 2
        };
        assert(slot == report_slot(k as int));
        let (seen, did) = acc[slot];
        if zero.below(seen) {
            let ghost before = rows@;
            let target = if slot < 3 {
                stats.cbet[slot]
            } else if slot < 6 {
                stats.fold_to_bet[slot - 3]
            } else if slot == 6 {
                stats.raise_bet
            } else {
                stats.donk
            };
            rows.push(
                ProfileLockRow {
                    label: slot_name(slot),
                    target,
                    achieved: S::narrowed(did.over(seen).times(hundred)),
                },
            );
            assert forall|i: int| 0 <= i < rows@.len() implies slot_shown(
                *stats,
                acc@,
                slots_seen(acc@, k + 1)[i],
                #[trigger] rows@[i],
            ) by {
                if i < before.len() {
                    assert(slot_shown(*stats, acc@, slots_seen(acc@, k as int)[i], before[i]));
                }
            }
        }
        k = k + 1;
    }
    rows
}

impl<S: Single> Solver<S> {
    /// What stands before a profile is laid down: the locks that no profile
    /// gave.
    pub open spec fn laid_first(&self) -> Laid<S> {
        let gone = self.profile_locks();
        let zero = S::Wide::decimal_spec(0, 0);
        Laid {
            locks: sigmas(self.locks@.remove_keys(gone)),
            labels: names(self.lock_labels@.remove_keys(gone)),
            acc: strategy::level(8, (zero, zero)),
            marked: self.sym_dirty || gone.len() > 0,
        }
    }

    /// What stands once a profile has been laid down.
    pub open spec fn laid_all(
        &self,
        villain: int,
        stats: PostflopStats<S>,
        pf_aggressor: Option<usize>,
    ) -> Laid<S> {
        let reach = self.spot.weights[villain]@;
        let eps = num::total_of(reach).times_spec(S::decimal_spec(1, 6));
        self.laid_below(
            Aim { villain, stats, eps },
            0,
            reach,
            Seq::empty(),
            pf_aggressor,
            self.laid_first(),
        )
    }

    /// Lock `villain`'s whole tree to a postflop stat profile. Walks the
    /// orbit-representative branches (the ones the solver actually visits),
    /// classifying each villain node by street / initiative / facing-bet,
    /// and rakes the solved strategy to the stat targets with reaches that
    /// reflect the locks applied upstream. Manual (non-"profile:") locks
    /// take precedence and are left untouched. Re-applying first clears the
    /// previous profile locks, so it never compounds.
    ///
    /// `pf_aggressor`: who arrives with the initiative (last preflop
    /// raiser), if anyone.
    pub fn lock_profile(
        &mut self,
        villain: usize,
        stats: &PostflopStats<S>,
        pf_aggressor: Option<usize>,
    ) -> (r: Result<ProfileLockSummary<S>, QueryError>)
        requires
            old(self).wf(),
            old(self).labels_backed(),
        ensures
            final(self).wf(),
            final(self).labels_backed(),
            final(self).same_but_locks(old(self)),
            if villain > 1 {
                r is Err && r->Err_0.fault() is Villain && *final(self) == *old(self)
            } else if old(self).iteration == 0 {
                r is Err && r->Err_0.fault() is Unsolved && *final(self) == *old(self)
            } else if num::total_of(old(self).spot.weights[villain as int]@).at_most_spec(
                S::decimal_spec(0, 0),
            ) {
                &&& r is Err
                &&& r->Err_0.fault() is EmptyRange
                &&& final(self).holds_laid(old(self).laid_first(), old(self).laid_first().acc)
            } else {
                let laid = old(self).laid_all(villain as int, *stats, pf_aggressor);
                &&& r is Ok
                &&& final(self).holds_laid(laid, laid.acc)
                &&& r->Ok_0.locked == final(self).profile_locks().len()
                &&& slots_shown(*stats, laid.acc, 8, r->Ok_0.rows@)
            },
    {
        if villain > 1 {
            return Err(QueryError::Villain);
        }
        if self.iteration == 0 {
            return Err(QueryError::Unsolved);
        }
        let ghost base = *self;
        self.clear_profile_locks();
        let ghost first = base.laid_first();
        proof {
            assert forall|k: u32|
                self.lock_labels@.contains_key(k) && !locks::by_profile(
                    #[trigger] self.lock_labels@[k]@,
                ) implies self.locks@.contains_key(k) by {
                assert(base.lock_labels@[k]@ == self.lock_labels@[k]@);
                assert(base.locks@.contains_key(k));
            }
            assert(self.holds_laid(first, first.acc));
        }
        let reach = copied(self.spot.weights[villain].as_slice());
        let root_mass = total(reach.as_slice());
        if root_mass.at_most(S::decimal(0, 0)) {
            return Err(QueryError::EmptyRange);
        }
        let eps = root_mass.times(S::decimal(1, 6));
        let zero = S::Wide::decimal(0, 0);
        let mut acc: Vec<(S::Wide, S::Wide)> = filled(8, (zero, zero));
        proof {
            base.lemma_root();
        }
        let start: Dealt = Dealt::default();
        self.profile_walk(
            Ghost(base),
            Ghost(first),
            0,
            &reach,
            start,
            pf_aggressor,
            villain,
            stats,
            eps,
            &mut acc,
        );
        let rows = report_slots(stats, &acc);
        let locked: usize = self.profile_keys().len();
        Ok(ProfileLockSummary { locked, rows })
    }
}

} // verus!
