//! The postflop solver: a spot, the regret and strategy arenas of both
//! players, and the locks laid over them. Values are counterfactual: per hand,
//! weighted by the opponent's reach.

use crate::cards;
use crate::cards::{card_mask, Card};
use crate::game;
use crate::game::{HandInfo, RiverBoardEval, Spot};
use crate::num;
use crate::num::{Num, Single};
use crate::store::{Storage, Store};
use crate::strategy;
use crate::strategy::{copied, normalize};
use crate::terminal;
use crate::tree::{
    Node, KIND_ACTION, KIND_CHANCE, KIND_TERM_FOLD, KIND_TERM_SHOWDOWN, MAX_ACTIONS, SENTINEL,
};
use crate::tree_laws;
use std::collections::HashMap;
use vstd::prelude::*;

verus! {

/// A spot being solved.
pub struct Solver<S: Single> {
    pub spot: Spot<S::Wide, S>,
    /// Cumulative regrets of each player's decisions.
    pub regrets: [Store<S>; 2],
    /// Strategy sums of each player's decisions.
    pub strat: [Store<S>; 2],
    pub iteration: u32,
    /// Locked strategies, by node.
    pub locks: HashMap<u32, Vec<S>>,
    /// What the locks are called, by node.
    pub lock_labels: HashMap<u32, String>,
    /// Whether one of several suit-symmetric runouts stands for the others:
    /// paths lead to it, locks are put there, and the others are mirrored.
    pub use_isomorphism: bool,
    /// Whether the symmetric runouts are out of date.
    pub sym_dirty: bool,
}

/// An arena that holds `entries` numbers and a scale for each of `nodes` nodes.
pub open spec fn fitted<S: Num>(store: Store<S>, entries: int, nodes: int) -> bool {
    &&& store.entries() == entries
    &&& store is F32 || scales(store) == nodes
}

/// Where in the river table the dealt cards stand.
pub open spec fn river_key(root_street: u8, dealt: Seq<Card>) -> int {
    if root_street == 2 {
        0
    } else if root_street == 1 {
        dealt[0] as int
    } else if dealt[0] < dealt[1] {
        dealt[0] * 52 + dealt[1]
    } else {
        dealt[1] * 52 + dealt[0]
    }
}

/// Reach without the hands that hold card `c`.
pub open spec fn reach_past<S: Num>(hands: Seq<HandInfo<S>>, reach: Seq<S>, c: int) -> Seq<S> {
    Seq::new(
        reach.len(),
        |i: int|
            if holds(hands[i], c) {
                S::decimal_spec(0, 0)
            } else {
                reach[i]
            },
    )
}

/// Whether a hand holds card `c`.
pub open spec fn holds<S>(h: HandInfo<S>, c: int) -> bool {
    h.mask & cards::mask_spec(c as u8) != 0
}

/// [`reach_past`], computed.
pub fn pass_card<S: Num>(hands: &Vec<HandInfo<S>>, reach: &Vec<S>, c: Card) -> (r: Vec<S>)
    requires
        c < 52,
        hands@.len() == reach@.len(),
    ensures
        r@ == reach_past(hands@, reach@, c as int),
{
    let cm: u64 = card_mask(c);
    let zero = S::decimal(0, 0);
    let mut out: Vec<S> = Vec::new();
    let mut i: usize = 0;
    while i < reach.len()
        invariant
            i <= reach@.len() == hands@.len(),
            cm == cards::mask_spec(c),
            zero == S::decimal_spec(0, 0),
            out@ == reach_past(hands@, reach@, c as int).take(i as int),
        decreases reach@.len() - i,
    {
        if hands[i].mask & cm != 0 {
            out.push(zero);
        } else {
            out.push(reach[i]);
        }
        assert(out@ =~= reach_past(hands@, reach@, c as int).take(i + 1));
        i = i + 1;
    }
    assert(out@ =~= reach_past(hands@, reach@, c as int));
    out
}

impl<S: Single> Solver<S> {
    pub open spec fn node(&self, idx: int) -> Node<S::Wide> {
        self.spot.tree.nodes@[idx]
    }

    /// Child `s` of a node.
    pub open spec fn child(&self, idx: int, s: int) -> int {
        tree_laws::slot(self.spot.tree.arena(), idx, s) as int
    }

    /// How many hands a player has.
    pub open spec fn nh(&self, p: int) -> int {
        self.spot.hands[p]@.len() as int
    }

    /// Whether a node is a decision.
    pub open spec fn decides(&self, idx: int) -> bool {
        0 <= idx < self.spot.tree.nodes@.len() && self.node(idx).kind == KIND_ACTION
    }

    /// How many entries a decision's block has.
    pub open spec fn block_len(&self, idx: int) -> int {
        self.node(idx).num_children * self.nh(self.node(idx).player as int)
    }

    /// A lock covers every action of every hand of a decision.
    pub open spec fn lock_fits(&self, k: u32) -> bool {
        self.decides(k as int) && self.locks@[k]@.len() == self.block_len(k as int)
    }

    pub open spec fn wf(&self) -> bool {
        &&& self.spot.wf()
        &&& fitted(
            self.regrets[0],
            self.spot.tree.data_size[0] as int,
            self.spot.tree.nodes@.len() as int,
        )
        &&& fitted(
            self.regrets[1],
            self.spot.tree.data_size[1] as int,
            self.spot.tree.nodes@.len() as int,
        )
        &&& fitted(
            self.strat[0],
            self.spot.tree.data_size[0] as int,
            self.spot.tree.nodes@.len() as int,
        )
        &&& fitted(
            self.strat[1],
            self.spot.tree.data_size[1] as int,
            self.spot.tree.nodes@.len() as int,
        )
        &&& forall|k: u32| self.locks@.contains_key(k) ==> #[trigger] self.lock_fits(k)
    }

    /// What the strategy sums of a decision amount to: the solved strategy.
    pub open spec fn solved(&self, idx: int) -> Seq<S> {
        let n = self.node(idx);
        let p = n.player as int;
        strategy::normalized(
            self.strat[p].block(idx, n.data_offset as int, self.block_len(idx)),
            n.num_children as int,
            self.nh(p),
        )
    }

    /// What is played at a decision: the lock, where there is one, else the
    /// solved strategy.
    pub open spec fn played(&self, idx: int) -> Seq<S> {
        if self.locks@.contains_key(idx as u32) {
            self.locks@[idx as u32]@
        } else {
            self.solved(idx)
        }
    }

    /// The cards dealt above a node: one for each street since the root, no
    /// card twice and none of the board.
    pub open spec fn dealt_to(&self, idx: int, dealt: Seq<Card>) -> bool {
        &&& 0 <= idx < self.spot.tree.nodes@.len()
        &&& dealt.len() == tree_laws::street_reached(self.node(idx)) - self.spot.tree.root_street
        &&& game::all_cards(dealt)
        &&& dealt.no_duplicates()
        &&& forall|i: int|
            0 <= i < dealt.len() ==> !cards::in_mask(
                self.spot.board_mask,
                (#[trigger] dealt[i]) as int,
            )
    }

    /// The root has nothing dealt above it.
    pub proof fn lemma_root(&self)
        requires
            self.wf(),
        ensures
            self.dealt_to(0, Seq::empty()),
            self.decides(0),
    {
        assert(tree_laws::node_sound(self.spot.tree.arena(), self.spot.board_mask, 0));
    }

    /// A decision, its actions, its children and its block.
    pub proof fn lemma_decision(&self, idx: int)
        requires
            self.wf(),
            self.decides(idx),
        ensures
            1 <= self.node(idx).num_children <= MAX_ACTIONS,
            self.node(idx).player < 2,
            self.node(idx).children_start + self.node(idx).num_children
                <= self.spot.tree.children@.len(),
            self.node(idx).actions_start + self.node(idx).num_children
                <= self.spot.tree.actions@.len(),
            self.node(idx).data_offset + self.block_len(idx) <= self.spot.tree.data_size[self.node(
                idx,
            ).player as int],
            0 <= self.block_len(idx) <= 331500,
            forall|s: int|
                0 <= s < self.node(idx).num_children ==> idx < #[trigger] self.child(idx, s)
                    < self.spot.tree.nodes@.len() && tree_laws::street_reached(
                    self.node(self.child(idx, s)),
                ) == self.node(idx).street,
    {
        let a = self.spot.tree.arena();
        assert(tree_laws::node_sound(a, self.spot.board_mask, idx));
        let n = self.node(idx);
        let p = n.player as int;
        let counts = [self.spot.hands[0]@.len() as u64, self.spot.hands[1]@.len() as u64];
        assert(counts[0] == self.nh(0) && counts[1] == self.nh(1));
        assert(a.nodes[idx] == n);
        let h = self.nh(p);
        tree_laws::law_block_inside(a, counts, idx);
        assert(0 <= n.num_children * h <= 331500) by (nonlinear_arith)
            requires
                0 <= n.num_children <= 250,
                0 <= h <= 1326,
        ;
        assert forall|s: int| 0 <= s < n.num_children implies idx < #[trigger] self.child(idx, s)
            < self.spot.tree.nodes@.len() && tree_laws::street_reached(
            self.node(self.child(idx, s)),
        ) == n.street by {
            assert(tree_laws::child_behind(a, idx, tree_laws::slot(a, idx, s)));
        }
    }

    /// What is played covers the decision's block.
    pub proof fn lemma_played(&self, idx: int)
        requires
            self.wf(),
            self.decides(idx),
        ensures
            self.played(idx).len() == self.block_len(idx),
            self.solved(idx).len() == self.block_len(idx),
    {
        self.lemma_decision(idx);
        if self.locks@.contains_key(idx as u32) {
            assert(self.lock_fits(idx as u32));
        }
    }

    /// A chance node and its children.
    pub proof fn lemma_chance(&self, idx: int)
        requires
            self.wf(),
            0 <= idx < self.spot.tree.nodes@.len(),
            self.node(idx).kind == KIND_CHANCE,
        ensures
            self.node(idx).children_start + 52 <= self.spot.tree.children@.len(),
            1 <= self.node(idx).street <= 2,
            forall|c: int|
                #![trigger self.child(idx, c)]
                0 <= c < 52 ==> if cards::in_mask(self.spot.board_mask, c) {
                    self.child(idx, c) == SENTINEL
                } else {
                    idx < self.child(idx, c) < self.spot.tree.nodes@.len()
                        && tree_laws::street_reached(self.node(self.child(idx, c)))
                        == self.node(idx).street
                },
    {
        let a = self.spot.tree.arena();
        assert(tree_laws::node_sound(a, self.spot.board_mask, idx));
        assert forall|c: int|
            #![trigger self.child(idx, c)]
            0 <= c < 52 implies if cards::in_mask(self.spot.board_mask, c) {
            self.child(idx, c) == SENTINEL
        } else {
            idx < self.child(idx, c) < self.spot.tree.nodes@.len() && tree_laws::street_reached(
                self.node(self.child(idx, c)),
            ) == self.node(idx).street
        } by {
            let s = tree_laws::slot(a, idx, c);
            if !cards::in_mask(self.spot.board_mask, c) {
                assert(tree_laws::child_behind(a, idx, s));
            }
        }
    }

    /// A card can come at a chance node.
    pub open spec fn comes(&self, idx: int, dealt: Seq<Card>, c: int) -> bool {
        self.child(idx, c) != SENTINEL && !dealt.contains(c as u8)
    }

    /// One more card dealt.
    pub proof fn lemma_deal(&self, idx: int, dealt: Seq<Card>, c: int)
        requires
            self.wf(),
            self.dealt_to(idx, dealt),
            self.node(idx).kind == KIND_CHANCE,
            0 <= c < 52,
            self.comes(idx, dealt, c),
        ensures
            self.dealt_to(self.child(idx, c), dealt.push(c as u8)),
            idx < self.child(idx, c),
            dealt.len() < 2,
    {
        self.lemma_chance(idx);
        let next = dealt.push(c as u8);
        assert(tree_laws::node_sound(self.spot.tree.arena(), self.spot.board_mask, 0));
        assert forall|i: int, j: int| 0 <= i < next.len() && 0 <= j < next.len() && i
            != j implies next[i] != next[j] by {
            if i == dealt.len() {
                assert(dealt.contains(dealt[j]));
            } else if j == dealt.len() {
                assert(dealt.contains(dealt[i]));
            }
        }
    }

    /// The strengths once the given cards have been dealt.
    pub open spec fn strengths(&self, dealt: Seq<Card>) -> RiverBoardEval {
        self.spot.river.slots()[river_key(self.spot.tree.root_street, dealt)]->Some_0
    }

    /// Player `p`'s side of the showdown after the given cards.
    pub open spec fn face_off(&self, p: int, reach: Seq<S>, dealt: Seq<Card>) -> terminal::Duel<S> {
        terminal::duel(
            self.strengths(dealt),
            p,
            self.spot.hands[p]@,
            self.spot.hands[1 - p]@,
            reach,
            self.spot.same_combo[p]@,
        )
    }

    /// What player `p`'s hands are worth at a node, where both players go on
    /// as they play (or, if `best`, player `p` goes on as well as the locks
    /// allow), the opponent arriving with the given reach.
    pub open spec fn worth(
        &self,
        best: bool,
        idx: int,
        p: int,
        reach: Seq<S>,
        dealt: Seq<Card>,
    ) -> Seq<S>
        decreases self.spot.tree.nodes@.len() - idx, 256nat,
    {
        let n = self.node(idx);
        if idx < 0 || idx >= self.spot.tree.nodes@.len() {
            self.zeros(p)
        } else if n.kind == KIND_TERM_FOLD {
            let amount = S::narrowed_spec(
                if n.player == p {
                    n.t_lose
                } else {
                    n.t_win
                },
            );
            Seq::new(
                self.nh(p) as nat,
                |i: int|
                    terminal::fold_value(
                        self.spot.hands[p]@,
                        self.spot.hands[1 - p]@,
                        reach,
                        self.spot.same_combo[p]@,
                        amount,
                        i,
                    ),
            )
        } else if n.kind == KIND_TERM_SHOWDOWN {
            self.face_off(p, reach, dealt).settled(
                self.zeros(p),
                0,
                S::narrowed_spec(n.t_win),
                S::narrowed_spec(n.t_lose),
                S::narrowed_spec(n.t_tie),
            )
        } else if n.kind == KIND_CHANCE {
            self.worth_dealt(best, idx, p, reach, dealt, 52)
        } else if n.player != p {
            self.worth_facing(best, idx, p, reach, dealt, n.num_children as nat)
        } else if best && !self.locks@.contains_key(idx as u32) {
            self.worth_choosing(best, idx, p, reach, dealt, n.num_children as nat)
        } else {
            self.worth_mixing(best, idx, p, reach, dealt, n.num_children as nat)
        }
    }

    pub open spec fn zeros(&self, p: int) -> Seq<S> {
        strategy::level(self.nh(p) as nat, S::decimal_spec(0, 0))
    }

    /// What a child of a node is worth.
    pub open spec fn worth_below(
        &self,
        best: bool,
        idx: int,
        s: int,
        p: int,
        reach: Seq<S>,
        dealt: Seq<Card>,
    ) -> Seq<S>
        decreases self.spot.tree.nodes@.len() - idx, 0nat,
    {
        let c = self.child(idx, s);
        if idx < c < self.spot.tree.nodes@.len() && idx >= 0 {
            self.worth(best, c, p, reach, dealt)
        } else {
            self.zeros(p)
        }
    }

    /// The average over the first `k` cards, each that can come counting one
    /// in as many as are left to be dealt once both hands are out.
    pub open spec fn worth_dealt(
        &self,
        best: bool,
        idx: int,
        p: int,
        reach: Seq<S>,
        dealt: Seq<Card>,
        k: nat,
    ) -> Seq<S>
        decreases self.spot.tree.nodes@.len() - idx, k,
    {
        if k == 0 {
            self.zeros(p)
        } else {
            let sum = self.worth_dealt(best, idx, p, reach, dealt, (k - 1) as nat);
            let c = k - 1;
            if self.comes(idx, dealt, c) {
                let v = self.worth_below(
                    best,
                    idx,
                    c,
                    p,
                    reach_past(self.spot.hands[1 - p]@, reach, c),
                    dealt.push(c as u8),
                );
                let left = S::decimal_spec((46 - self.node(idx).street) as i64, 0);
                Seq::new(
                    sum.len(),
                    |i: int|
                        if holds(self.spot.hands[p]@[i], c) {
                            sum[i]
                        } else {
                            sum[i].plus_spec(v[i].over_spec(left))
                        },
                )
            } else {
                sum
            }
        }
    }

    /// The sum over the opponent's first `k` actions.
    pub open spec fn worth_facing(
        &self,
        best: bool,
        idx: int,
        p: int,
        reach: Seq<S>,
        dealt: Seq<Card>,
        k: nat,
    ) -> Seq<S>
        decreases self.spot.tree.nodes@.len() - idx, k,
    {
        if k == 0 {
            self.zeros(p)
        } else {
            strategy::sum_pairs(
                self.worth_facing(best, idx, p, reach, dealt, (k - 1) as nat),
                self.worth_below(
                    best,
                    idx,
                    k - 1,
                    p,
                    strategy::reach_through(reach, self.played(idx), k - 1),
                    dealt,
                ),
            )
        }
    }

    /// The first `k` actions, mixed as they are played.
    pub open spec fn worth_mixing(
        &self,
        best: bool,
        idx: int,
        p: int,
        reach: Seq<S>,
        dealt: Seq<Card>,
        k: nat,
    ) -> Seq<S>
        decreases self.spot.tree.nodes@.len() - idx, k,
    {
        if k == 0 {
            self.zeros(p)
        } else {
            let sum = self.worth_mixing(best, idx, p, reach, dealt, (k - 1) as nat);
            let v = self.worth_below(best, idx, k - 1, p, reach, dealt);
            let sigma = self.played(idx);
            Seq::new(
                sum.len(),
                |i: int|
                    sum[i].plus_spec(
                        sigma[strategy::cell(self.nh(p), k - 1, i)].times_spec(v[i]),
                    ),
            )
        }
    }

    /// The best of the first `k` actions, hand by hand.
    pub open spec fn worth_choosing(
        &self,
        best: bool,
        idx: int,
        p: int,
        reach: Seq<S>,
        dealt: Seq<Card>,
        k: nat,
    ) -> Seq<S>
        decreases self.spot.tree.nodes@.len() - idx, k,
    {
        if k == 0 {
            self.zeros(p)
        } else {
            let v = self.worth_below(best, idx, k - 1, p, reach, dealt);
            if k == 1 {
                v
            } else {
                let top = self.worth_choosing(best, idx, p, reach, dealt, (k - 1) as nat);
                Seq::new(top.len(), |i: int| num::larger_of(top[i], v[i]))
            }
        }
    }
}

/// An arena of regrets: signed where it is quantized.
pub(crate) fn regret_store<S: Num>(storage: Storage, entries: usize, nodes: usize) -> (r: Store<S>)
    ensures
        fitted(r, entries as int, nodes as int),
        blank(r),
        r is F32 <==> storage is F32,
        r is U16 ==> false,
{
    match storage {
        Storage::F32 => Store::full(entries),
        Storage::Compressed => Store::i16(entries, nodes),
    }
}

/// An arena of strategy sums: unsigned where it is quantized.
pub(crate) fn strategy_store<S: Num>(storage: Storage, entries: usize, nodes: usize) -> (r: Store<S>)
    ensures
        fitted(r, entries as int, nodes as int),
        blank(r),
        r is F32 <==> storage is F32,
        r is I16 ==> false,
{
    match storage {
        Storage::F32 => Store::full(entries),
        Storage::Compressed => Store::u16(entries, nodes),
    }
}

/// An arena that nothing has been written to.
pub open spec fn blank<S: Num>(store: Store<S>) -> bool {
    let zero = S::decimal_spec(0, 0);
    match store {
        Store::F32(b) => b@ == strategy::level(b@.len(), zero),
        Store::I16 { q, scale } => q@ == strategy::level(q@.len(), 0i16) && scale@
            == strategy::level(scale@.len(), zero),
        Store::U16 { q, scale } => q@ == strategy::level(q@.len(), 0u16) && scale@
            == strategy::level(scale@.len(), zero),
    }
}

impl<S: Single> Solver<S> {
    /// A fresh solver in full precision.
    pub fn new(spot: Spot<S::Wide, S>) -> (r: Self)
        requires
            spot.wf(),
            spot.tree.data_size[0] <= usize::MAX,
            spot.tree.data_size[1] <= usize::MAX,
        ensures
            r.wf(),
            r.spot == spot,
            r.fresh(Storage::F32),
    {
        Self::with_storage(spot, Storage::F32)
    }

    /// Nothing has been solved or locked yet.
    pub open spec fn fresh(&self, storage: Storage) -> bool {
        &&& self.iteration == 0
        &&& self.locks@ == Map::<u32, Vec<S>>::empty()
        &&& self.lock_labels@ == Map::<u32, String>::empty()
        &&& self.use_isomorphism
        &&& !self.sym_dirty
        &&& self.stored(storage)
        &&& forall|p: int|
            0 <= p < 2 ==> blank(#[trigger] self.regrets[p]) && blank(self.strat[p])
    }

    /// The arenas are kept in the given mode.
    pub open spec fn stored(&self, storage: Storage) -> bool {
        forall|p: int|
            #![trigger self.regrets[p]]
            0 <= p < 2 ==> match storage {
                Storage::F32 => self.regrets[p] is F32 && self.strat[p] is F32,
                Storage::Compressed => self.regrets[p] is I16 && self.strat[p] is U16,
            }
    }

    /// A fresh solver with the given arena storage.
    pub fn with_storage(spot: Spot<S::Wide, S>, storage: Storage) -> (r: Self)
        requires
            spot.wf(),
            spot.tree.data_size[0] <= usize::MAX,
            spot.tree.data_size[1] <= usize::MAX,
        ensures
            r.wf(),
            r.spot == spot,
            r.fresh(storage),
    {
        let nodes: usize = spot.tree.nodes.len();
        let d0: usize = spot.tree.data_size[0] as usize;
        let d1: usize = spot.tree.data_size[1] as usize;
        Solver {
            spot,
            regrets: [regret_store(storage, d0, nodes), regret_store(storage, d1, nodes)],
            strat: [strategy_store(storage, d0, nodes), strategy_store(storage, d1, nodes)],
            iteration: 0,
            locks: HashMap::new(),
            lock_labels: HashMap::new(),
            use_isomorphism: true,
            sym_dirty: false,
        }
    }

    /// Memory taken by the arenas, in bytes.
    pub fn arena_bytes(&self) -> (r: u64)
        requires
            self.wf(),
        ensures
            r == store_bytes(self.regrets[0]) + store_bytes(self.regrets[1]) + store_bytes(
                self.strat[0],
            ) + store_bytes(self.strat[1]),
    {
        proof {
            self.spot.lemma_sizes();
        }
        self.regrets[0].bytes() + self.regrets[1].bytes() + self.strat[0].bytes()
            + self.strat[1].bytes()
    }

    /// The solved strategy of a decision.
    pub fn solved_strategy(&self, node_idx: u32) -> (r: Vec<S>)
        requires
            self.wf(),
            self.decides(node_idx as int),
        ensures
            r@ == self.solved(node_idx as int),
    {
        proof {
            self.lemma_decision(node_idx as int);
        }
        let n = &self.spot.tree.nodes[node_idx as usize];
        let p: usize = n.player as usize;
        let na: usize = n.num_children as usize;
        let nh: usize = self.spot.hands[p].len();
        let store = &self.strat[p];
        assert(fitted(
            self.strat[p as int],
            self.spot.tree.data_size[p as int] as int,
            self.spot.tree.nodes@.len() as int,
        ));
        assert(store.has_node(node_idx as int));
        let block = store.read_f32(node_idx, n.data_offset, na * nh);
        assert(block@.len() == na * nh);
        normalize(block.as_slice(), na, nh)
    }

    /// What is played at a decision: the lock, where there is one, else the
    /// solved strategy.
    pub fn average_strategy(&self, node_idx: u32) -> (r: Vec<S>)
        requires
            self.wf(),
            self.decides(node_idx as int),
        ensures
            r@ == self.played(node_idx as int),
            r@.len() == self.block_len(node_idx as int),
    {
        proof {
            self.lemma_played(node_idx as int);
        }
        match self.locks.get(&node_idx) {
            Some(sigma) => copied(sigma.as_slice()),
            None => self.solved_strategy(node_idx),
        }
    }

    /// Records that the symmetric runouts are out of date.
    pub fn mark_sym_dirty(&mut self)
        ensures
            final(self).sym_dirty,
            *final(self) == (Solver { sym_dirty: true, ..*old(self) }),
    {
        self.sym_dirty = true;
    }
}

/// How many scales an arena keeps.
pub open spec fn scales<S>(store: Store<S>) -> nat {
    match store {
        Store::F32(b) => 0,
        Store::I16 { q, scale } => scale@.len(),
        Store::U16 { q, scale } => scale@.len(),
    }
}

/// How many bytes an arena takes.
pub open spec fn store_bytes<S>(store: Store<S>) -> nat {
    match store {
        Store::F32(b) => b@.len() * 4,
        Store::I16 { q, scale } => q@.len() * 2 + scale@.len() * 4,
        Store::U16 { q, scale } => q@.len() * 2 + scale@.len() * 4,
    }
}

} // verus!
