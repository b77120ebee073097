//! Node locks: strategies laid over the solved ones.

use crate::canonical;
use crate::cards;
use crate::cards::{parse_cards, permute_card, Card};
use crate::cfr::Solver;
use crate::game::HandInfo;
use crate::num::{Num, Single};
use crate::path;
use crate::path::{PathStep, Place, QueryError, QueryFault, Step};
use crate::rake;
use crate::rake::{normalize_freqs, rake_to_target};
use crate::strategy;
use crate::table;
use crate::table::keys_of;
use crate::text;
use crate::text::{sort_texts, starts_with};
use crate::tree::KIND_ACTION;
use vstd::prelude::*;

verus! {

/// What the label of a profile's lock starts with.
pub const PROFILE_LABEL: &'static str = "profile:";

#[derive(Debug, Clone)]
pub struct HandEdit<S> {
    pub combo: String,
    pub freqs: Vec<S>,
}

/// How to build a node lock. See [`Solver::lock_node`].
#[derive(Debug, Clone)]
pub enum LockMode<S> {
    /// Freeze the solved strategy as-is.
    Freeze,
    /// Target overall (reach-weighted) action frequencies for the whole range.
    Range { freqs: Vec<S> },
    /// Set exact frequencies for specific combos; other hands keep current.
    Hands { edits: Vec<HandEdit<S>> },
}

/// Whether a hand is made of these two cards.
pub open spec fn made_of<S>(h: HandInfo<S>, c1: int, c2: int) -> bool {
    (h.c1 == c1 && h.c2 == c2) || (h.c1 == c2 && h.c2 == c1)
}

/// The first hand from `from` on that is made of these two cards.
pub open spec fn hand_from<S>(hands: Seq<HandInfo<S>>, c1: int, c2: int, from: int) -> Option<int>
    decreases hands.len() - from,
{
    if from >= hands.len() {
        None
    } else if made_of(hands[from], c1, c2) {
        Some(from)
    } else {
        hand_from(hands, c1, c2, from + 1)
    }
}

/// [`hand_from`] the start, computed.
pub fn find_hand<S>(hands: &Vec<HandInfo<S>>, c1: Card, c2: Card) -> (r: Option<usize>)
    ensures
        match r {
            Some(i) => hand_from(hands@, c1 as int, c2 as int, 0) == Some(i as int) && i
                < hands@.len(),
            None => hand_from(hands@, c1 as int, c2 as int, 0) is None,
        },
{
    let mut i: usize = 0;
    while i < hands.len()
        invariant
            i <= hands@.len(),
            hand_from(hands@, c1 as int, c2 as int, 0) == hand_from(
                hands@,
                c1 as int,
                c2 as int,
                i as int,
            ),
        decreases hands@.len() - i,
    {
        let a: u8 = hands[i].c1;
        let b: u8 = hands[i].c2;
        if (a == c1 && b == c2) || (a == c2 && b == c1) {
            return Some(i);
        }
        i = i + 1;
    }
    None
}

/// A block with the actions of hand `i` replaced.
pub open spec fn column_set<S>(block: Seq<S>, nh: int, i: int, to: Seq<S>) -> Seq<S> {
    Seq::new(
        block.len(),
        |k: int|
            if k % nh == i {
                to[k / nh]
            } else {
                block[k]
            },
    )
}

/// One hand's frequencies replaced, or why that cannot be done.
pub open spec fn edited_one<S: Num>(
    block: Seq<S>,
    na: int,
    hands: Seq<HandInfo<S>>,
    player: u8,
    perm: [u8; 4],
    edit: HandEdit<S>,
) -> Result<Seq<S>, QueryFault> {
    match rake::freqs_read(edit.freqs@, na) {
        Err(error) => Err(QueryFault::Freqs { error }),
        Ok(to) => match cards::text_cards(edit.combo@) {
            Err(error) => Err(QueryFault::Card { error }),
            Ok(combo) => if combo.len() != 2 {
                Err(QueryFault::NotACombo { combo: edit.combo@ })
            } else {
                match hand_from(
                    hands,
                    cards::permuted(combo[0] as int, perm),
                    cards::permuted(combo[1] as int, perm),
                    0,
                ) {
                    None => Err(QueryFault::NotInRange { combo: edit.combo@, player }),
                    Some(i) => Ok(column_set(block, hands.len() as int, i, to)),
                }
            },
        },
    }
}

/// Hands' frequencies replaced one after the other, or the first reason why
/// that cannot be done.
pub open spec fn edited<S: Num>(
    block: Seq<S>,
    na: int,
    hands: Seq<HandInfo<S>>,
    player: u8,
    perm: [u8; 4],
    edits: Seq<HandEdit<S>>,
) -> Result<Seq<S>, QueryFault>
    decreases edits.len(),
{
    if edits.len() == 0 {
        Ok(block)
    } else {
        match edited(block, na, hands, player, perm, edits.drop_last()) {
            Err(e) => Err(e),
            Ok(b) => edited_one(b, na, hands, player, perm, edits.last()),
        }
    }
}

proof fn lemma_edits_stop<S: Num>(
    block: Seq<S>,
    na: int,
    hands: Seq<HandInfo<S>>,
    player: u8,
    perm: [u8; 4],
    edits: Seq<HandEdit<S>>,
    n: int,
)
    requires
        0 <= n <= edits.len(),
        edited(block, na, hands, player, perm, edits.take(n)) is Err,
    ensures
        edited(block, na, hands, player, perm, edits) == edited(
            block,
            na,
            hands,
            player,
            perm,
            edits.take(n),
        ),
    decreases edits.len(),
{
    if n == edits.len() {
        assert(edits.take(n) =~= edits);
    } else {
        assert(edits.drop_last().take(n) =~= edits.take(n));
        lemma_edits_stop(block, na, hands, player, perm, edits.drop_last(), n);
    }
}

fn set_column<S: Num>(block: &mut Vec<S>, na: usize, nh: usize, i: usize, to: &Vec<S>)
    requires
        i < nh,
        old(block)@.len() == na * nh,
        to@.len() == na,
    ensures
        final(block)@ == column_set(old(block)@, nh as int, i as int, to@),
{
    let mut k: usize = 0;
    while k < block.len()
        invariant
            k <= block@.len() == old(block)@.len() == na * nh,
            i < nh,
            to@.len() == na,
            forall|x: int|
                0 <= x < block@.len() ==> #[trigger] block@[x] == if x < k && x % (nh as int)
                    == i {
                    to@[x / (nh as int)]
                } else {
                    old(block)@[x]
                },
        decreases block@.len() - k,
    {
        proof {
            strategy::lemma_place(na as int, nh as int, k as int);
        }
        if k % nh == i {
            block.set(k, to[k / nh]);
        }
        k = k + 1;
    }
    assert(block@ =~= column_set(old(block)@, nh as int, i as int, to@));
}

/// A table with one entry put in.
pub open spec fn entry_put<S>(
    before: Map<u32, Vec<S>>,
    after: Map<u32, Vec<S>>,
    k: u32,
    v: Seq<S>,
) -> bool {
    after.contains_key(k) && after[k]@ == v && after == before.insert(k, after[k])
}

/// Whether a label was given by a profile.
pub open spec fn by_profile(label: Seq<char>) -> bool {
    PROFILE_LABEL@.is_prefix_of(label)
}

impl<S: Single> Solver<S> {
    /// The strategy that a lock asks for at a decision, or why it cannot be had.
    pub open spec fn lock_wanted(&self, at: Place<S>, perm: [u8; 4], mode: LockMode<S>) -> Result<
        Seq<S>,
        QueryFault,
    > {
        let n = self.node(at.idx);
        let p = n.player as int;
        let na = n.num_children as int;
        match mode {
            LockMode::Freeze => Ok(self.solved(at.idx)),
            LockMode::Range { freqs } => match rake::freqs_read(freqs@, na) {
                Err(error) => Err(QueryFault::Freqs { error }),
                Ok(target) => Ok(
                    rake::raked(self.solved(at.idx), na, self.nh(p), at.reach(p), target),
                ),
            },
            LockMode::Hands { edits } => edited(
                self.played(at.idx),
                na,
                self.spot.hands[p]@,
                n.player,
                perm,
                edits@,
            ),
        }
    }

    /// The node and the strategy that a lock is put at, or why it is refused.
    pub open spec fn lock_placed(&self, way: Seq<Step>, mode: LockMode<S>) -> Result<
        (int, Seq<S>),
        QueryFault,
    > {
        match self.walked(self.visited(way)) {
            Err(e) => Err(e),
            Ok(at) => if self.node(at.idx).kind != KIND_ACTION {
                Err(QueryFault::NotADecision)
            } else {
                match self.lock_wanted(at, self.visited_by(way), mode) {
                    Err(e) => Err(e),
                    Ok(sigma) => Ok((at.idx, sigma)),
                }
            },
        }
    }

    /// Everything but the locks, their labels and the symmetry mark is as in
    /// `other`.
    pub open spec fn same_but_locks(&self, other: &Self) -> bool {
        &&& self.spot == other.spot
        &&& self.regrets == other.regrets
        &&& self.strat == other.strat
        &&& self.iteration == other.iteration
        &&& self.use_isomorphism == other.use_isomorphism
    }

    fn wanted_strategy(&self, walk: &path::Walk<S>, perm: &[u8; 4], mode: &LockMode<S>) -> (r: Result<
        Vec<S>,
        QueryError,
    >)
        requires
            self.wf(),
            self.standing(walk.place()),
            self.decides(walk.node_idx as int),
            cards::is_perm(*perm),
        ensures
            match r {
                Ok(v) => self.lock_wanted(walk.place(), *perm, *mode) == Ok::<Seq<S>, QueryFault>(
                    v@,
                ) && v@.len() == self.block_len(walk.node_idx as int),
                Err(e) => self.lock_wanted(walk.place(), *perm, *mode) == Err::<
                    Seq<S>,
                    QueryFault,
                >(e.fault()),
            },
    {
        let node_idx: u32 = walk.node_idx;
        let n = &self.spot.tree.nodes[node_idx as usize];
        proof {
            self.lemma_decision(node_idx as int);
            self.lemma_played(node_idx as int);
        }
        let na: usize = n.num_children as usize;
        let p: usize = n.player as usize;
        let nh: usize = self.spot.hands[p].len();
        match mode {
            LockMode::Freeze => Ok(self.solved_strategy(node_idx)),
            LockMode::Range { freqs } => {
                let target = match normalize_freqs(freqs.as_slice(), na) {
                    Ok(target) => target,
                    Err(error) => return Err(QueryError::Freqs { error }),
                };
                let mut s = self.solved_strategy(node_idx);
                assert(walk.reach[p as int]@ == walk.place().reach(p as int));
                rake_to_target(
                    s.as_mut_slice(),
                    na,
                    nh,
                    walk.reach[p].as_slice(),
                    target.as_slice(),
                );
                Ok(s)
            },
            LockMode::Hands { edits } => {
                let mut s = self.average_strategy(node_idx);
                let ghost start = s@;
                let ghost hands = self.spot.hands[p as int]@;
                let mut i: usize = 0;
                assert(edits@.take(0) =~= Seq::<HandEdit<S>>::empty());
                while i < edits.len()
                    invariant
                        i <= edits@.len(),
                        p < 2,
                        self.wf(),
                        *n == self.node(node_idx as int),
                        na == n.num_children,
                        p == n.player,
                        nh == hands.len(),
                        hands == self.spot.hands[p as int]@,
                        cards::is_perm(*perm),
                        s@.len() == na * nh,
                        edited(
                            start,
                            na as int,
                            hands,
                            n.player,
                            *perm,
                            edits@.take(i as int),
                        ) == Ok::<Seq<S>, QueryFault>(s@),
                        start == self.played(node_idx as int),
                        walk.node_idx == node_idx,
                        self.decides(node_idx as int),
                        *mode == (LockMode::Hands { edits: *edits }),
                    decreases edits@.len() - i,
                {
                    let edit = &edits[i];
                    proof {
                        assert(edits@.take(i + 1).drop_last() =~= edits@.take(i as int));
                        assert(edits@.take(i + 1).last() == *edit);
                        if edited_one(s@, na as int, hands, n.player, *perm, *edit) is Err {
                            lemma_edits_stop(
                                start,
                                na as int,
                                hands,
                                n.player,
                                *perm,
                                edits@,
                                i + 1,
                            );
                        }
                    }
                    let target = match normalize_freqs(edit.freqs.as_slice(), na) {
                        Ok(target) => target,
                        Err(error) => return Err(QueryError::Freqs { error }),
                    };
                    let combo = match parse_cards(edit.combo.as_str()) {
                        Ok(combo) => combo,
                        Err(error) => return Err(QueryError::Card { error }),
                    };
                    if combo.len() != 2 {
                        return Err(QueryError::NotACombo { combo: edit.combo.clone() });
                    }
                    // the combo lives on the browsed branch; on the canonical
                    // branch it is the suit-permuted combo
                    let c1: Card = permute_card(combo[0], perm);
                    let c2: Card = permute_card(combo[1], perm);
                    match find_hand(&self.spot.hands[p], c1, c2) {
                        Some(at) => set_column(&mut s, na, nh, at, &target),
                        None => {
                            return Err(
                                QueryError::NotInRange {
                                    combo: edit.combo.clone(),
                                    player: n.player,
                                },
                            );
                        },
                    }
                    i = i + 1;
                }
                assert(edits@.take(i as int) =~= edits@);
                Ok(s)
            },
        }
    }

    /// Lock a node's strategy. Each mode recomputes the locked strategy from a
    /// stable base, so re-applying with new values never compounds. The lock
    /// is put at the orbit representative: that's the branch the solver
    /// visits, and the lock then applies to all isomorphic runouts at once.
    pub fn lock_node(&mut self, path: &[PathStep], mode: LockMode<S>, label: String) -> (r: Result<
        (),
        QueryError,
    >)
        requires
            old(self).wf(),
            old(self).dealable(path::steps(path@)),
        ensures
            final(self).wf(),
            match r {
                Ok(_) => {
                    let placed = old(self).lock_placed(path::steps(path@), mode);
                    &&& placed is Ok
                    &&& final(self).same_but_locks(old(self))
                    &&& final(self).sym_dirty
                    &&& entry_put(
                        old(self).locks@,
                        final(self).locks@,
                        (placed->Ok_0).0 as u32,
                        (placed->Ok_0).1,
                    )
                    &&& final(self).lock_labels@ == old(self).lock_labels@.insert(
                        (placed->Ok_0).0 as u32,
                        label,
                    )
                },
                Err(e) => {
                    &&& old(self).lock_placed(path::steps(path@), mode) == Err::<
                        (int, Seq<S>),
                        QueryFault,
                    >(e.fault())
                    &&& *final(self) == *old(self)
                },
            },
    {
        proof {
            self.lemma_visited_perm(path::steps(path@));
        }
        let (canon, perm) = self.canonical_path_with_perm(path);
        let walk = match self.walk_path(canon.as_slice()) {
            Ok(walk) => walk,
            Err(e) => return Err(e),
        };
        if self.spot.tree.nodes[walk.node_idx as usize].kind != KIND_ACTION {
            return Err(QueryError::NotADecision);
        }
        let sigma = match self.wanted_strategy(&walk, &perm, &mode) {
            Ok(sigma) => sigma,
            Err(e) => return Err(e),
        };
        let ghost before = self.locks@;
        self.locks.insert(walk.node_idx, sigma);
        self.lock_labels.insert(walk.node_idx, label);
        self.mark_sym_dirty();
        proof {
            assert forall|k: u32| self.locks@.contains_key(k) implies #[trigger] self.lock_fits(
                k,
            ) by {
                if k != walk.node_idx {
                    assert(before.contains_key(k));
                    assert(old(self).lock_fits(k));
                }
            }
        }
        Ok(())
    }

    /// The permutation of a moved path is a permutation.
    pub proof fn lemma_visited_perm(&self, way: Seq<Step>)
        requires
            self.wf(),
        ensures
            cards::is_perm(self.visited_by(way)),
    {
        self.lemma_suit_perms();
        canonical::lemma_moved(self.spot.suit_perms@, way);
    }

    /// Remove the lock of a node. Returns whether there was one.
    pub fn unlock_node(&mut self, path: &[PathStep]) -> (r: Result<bool, QueryError>)
        requires
            old(self).wf(),
            old(self).dealable(path::steps(path@)),
        ensures
            final(self).wf(),
            match r {
                Ok(removed) => {
                    let place = old(self).walked(old(self).visited(path::steps(path@)));
                    let k = place->Ok_0.idx as u32;
                    &&& place is Ok
                    &&& removed == old(self).locks@.contains_key(k)
                    &&& final(self).same_but_locks(old(self))
                    &&& final(self).locks@ == old(self).locks@.remove(k)
                    &&& final(self).lock_labels@ == old(self).lock_labels@.remove(k)
                    &&& final(self).sym_dirty == (old(self).sym_dirty || removed)
                },
                Err(e) => {
                    &&& old(self).walked(old(self).visited(path::steps(path@))) == Err::<
                        Place<S>,
                        QueryFault,
                    >(e.fault())
                    &&& *final(self) == *old(self)
                },
            },
    {
        let canon = self.canonical_path(path);
        let walk = match self.walk_path(canon.as_slice()) {
            Ok(walk) => walk,
            Err(e) => return Err(e),
        };
        let ghost before = self.locks@;
        self.lock_labels.remove(&walk.node_idx);
        let removed: bool = self.locks.remove(&walk.node_idx).is_some();
        if removed {
            self.mark_sym_dirty();
        }
        proof {
            assert forall|k: u32| self.locks@.contains_key(k) implies #[trigger] self.lock_fits(
                k,
            ) by {
                assert(before.contains_key(k));
                assert(old(self).lock_fits(k));
            }
        }
        Ok(removed)
    }

    /// Remove every lock.
    pub fn clear_locks(&mut self)
        requires
            old(self).wf(),
        ensures
            final(self).wf(),
            final(self).same_but_locks(old(self)),
            final(self).locks@ == Map::<u32, Vec<S>>::empty(),
            final(self).lock_labels@ == Map::<u32, String>::empty(),
            final(self).sym_dirty == (old(self).sym_dirty || old(self).locks@.dom().len() > 0),
    {
        if !self.locks.is_empty() {
            self.mark_sym_dirty();
        }
        self.locks.clear();
        self.lock_labels.clear();
    }

    /// The labels of all locks, in dictionary order.
    pub fn list_locks(&self) -> (r: Vec<String>)
        ensures
            text::alphabetical(text::texts(r@)),
            lists_labels(text::texts(r@), self.lock_labels@),
    {
        let keys = keys_of(&self.lock_labels);
        let mut labels: Vec<String> = Vec::new();
        let ghost all = Seq::new(keys@.len(), |i: int| self.lock_labels@[keys@[i]]@);
        let mut i: usize = 0;
        while i < keys.len()
            invariant
                i <= keys@.len(),
                keys@.to_set() == self.lock_labels@.dom(),
                all == Seq::new(keys@.len(), |i: int| self.lock_labels@[keys@[i]]@),
                text::texts(labels@) == all.take(i as int),
                labels@.len() == i,
            decreases keys@.len() - i,
        {
            assert(keys@.contains(keys@[i as int]));
            assert(keys@.to_set().contains(keys@[i as int]));
            let ghost before = labels@;
            match self.lock_labels.get(&keys[i]) {
                Some(label) => labels.push(label.clone()),
                None => {
                    assert(false);
                },
            }
            assert(text::texts(labels@) =~= all.take(i + 1)) by {
                assert(text::texts(labels@) =~= text::texts(before).push(labels@.last()@));
            }
            i = i + 1;
        }
        assert(all.take(i as int) =~= all);
        assert(labels_along(keys@, self.lock_labels@) =~= all);
        sort_texts(&labels)
    }

    /// The nodes whose locks a profile gave.
    pub open spec fn profile_locks(&self) -> Set<u32> {
        Set::new(
            |k: u32| self.lock_labels@.contains_key(k) && by_profile(self.lock_labels@[k]@),
        )
    }

    /// The nodes whose locks a profile gave, in no particular order.
    pub(crate) fn profile_keys(&self) -> (r: Vec<u32>)
        ensures
            r@.no_duplicates(),
            r@.to_set() == self.profile_locks(),
            self.profile_locks().finite(),
            r@.len() == self.profile_locks().len(),
    {
        let keys = keys_of(&self.lock_labels);
        let ghost gone = self.profile_locks();
        let mut found: Vec<u32> = Vec::new();
        let mut i: usize = 0;
        while i < keys.len()
            invariant
                i <= keys@.len(),
                keys@.no_duplicates(),
                keys@.to_set() == self.lock_labels@.dom(),
                found@.no_duplicates(),
                forall|k: u32|
                    #[trigger] found@.contains(k) <==> keys@.take(i as int).contains(k)
                        && by_profile(self.lock_labels@[k]@),
            decreases keys@.len() - i,
        {
            let key: u32 = keys[i];
            let ghost before = found@;
            proof {
                assert(keys@.contains(key));
                assert(keys@.to_set().contains(key));
                assert(keys@.take(i + 1) =~= keys@.take(i as int).push(key));
                assert(!keys@.take(i as int).contains(key)) by {
                    if keys@.take(i as int).contains(key) {
                        let j = choose|j: int|
                            0 <= j < i && keys@.take(i as int)[j] == key;
                        assert(keys@[j] == keys@[i as int]);
                    }
                }
            }
            let mut mine: bool = false;
            match self.lock_labels.get(&key) {
                Some(label) => {
                    mine = starts_with(label.as_str(), PROFILE_LABEL);
                },
                None => {
                    assert(false);
                },
            }
            if mine {
                found.push(key);
            }
            proof {
                assert forall|k: u32| #[trigger] found@.contains(k) <==> keys@.take(
                    i + 1,
                ).contains(k) && by_profile(self.lock_labels@[k]@) by {
                    table::lemma_push_contains(keys@.take(i as int), key, k);
                    if mine {
                        table::lemma_push_contains(before, key, k);
                    }
                    assert(before.contains(k) <==> keys@.take(i as int).contains(k) && by_profile(
                        self.lock_labels@[k]@,
                    ));
                }
                if mine {
                    assert(!before.contains(key));
                    table::lemma_push_distinct(before, key);
                }
            }
            i = i + 1;
        }
        proof {
            assert(keys@.take(i as int) =~= keys@);
            assert(found@.to_set() =~= gone) by {
                assert forall|k: u32| found@.to_set().contains(k) <==> gone.contains(k) by {
                    assert(found@.contains(k) <==> keys@.take(i as int).contains(k) && by_profile(
                        self.lock_labels@[k]@,
                    ));
                    assert(keys@.contains(k) <==> keys@.to_set().contains(k));
                }
            }
            found@.unique_seq_to_set();
        }
        found
    }

    /// Remove every profile-generated lock (manual point-locks keep the
    /// labels the user gave them and survive). Returns how many were cleared.
    pub fn clear_profile_locks(&mut self) -> (r: usize)
        requires
            old(self).wf(),
        ensures
            final(self).wf(),
            final(self).same_but_locks(old(self)),
            final(self).locks@ == old(self).locks@.remove_keys(old(self).profile_locks()),
            final(self).lock_labels@ == old(self).lock_labels@.remove_keys(
                old(self).profile_locks(),
            ),
            old(self).profile_locks().finite(),
            r == old(self).profile_locks().len(),
            final(self).sym_dirty == (old(self).sym_dirty || r > 0),
    {
        let found = self.profile_keys();
        let ghost gone = self.profile_locks();
        let mut j: usize = 0;
        let ghost labels = self.lock_labels@;
        let ghost locks = self.locks@;
        while j < found.len()
            invariant
                j <= found@.len(),
                labels == old(self).lock_labels@,
                locks == old(self).locks@,
                self.same_but_locks(old(self)),
                self.sym_dirty == old(self).sym_dirty,
                self.lock_labels@ == labels.remove_keys(found@.take(j as int).to_set()),
                self.locks@ == locks.remove_keys(found@.take(j as int).to_set()),
            decreases found@.len() - j,
        {
            let key: u32 = found[j];
            self.locks.remove(&key);
            self.lock_labels.remove(&key);
            proof {
                let before = found@.take(j as int);
                let after = found@.take(j + 1);
                assert(after =~= before.push(key));
                assert forall|k: u32| after.to_set().contains(k) <==> before.to_set().contains(k)
                    || k == key by {
                    table::lemma_push_contains(before, key, k);
                }
                assert(self.lock_labels@ =~= labels.remove_keys(after.to_set()));
                assert(self.locks@ =~= locks.remove_keys(after.to_set()));
            }
            j = j + 1;
        }
        assert(found@.take(j as int) =~= found@);
        if found.len() > 0 {
            self.mark_sym_dirty();
        }
        proof {
            assert forall|k: u32| self.locks@.contains_key(k) implies #[trigger] self.lock_fits(
                k,
            ) by {
                assert(old(self).locks@.contains_key(k));
                assert(old(self).lock_fits(k));
            }
        }
        found.len()
    }
}

/// The texts are the labels of a table, each as often as it is given.
pub open spec fn lists_labels(s: Seq<Seq<char>>, labels: Map<u32, String>) -> bool {
    exists|keys: Seq<u32>|
        {
            &&& keys.no_duplicates()
            &&& keys.to_set() == labels.dom()
            &&& s.to_multiset() == #[trigger] labels_along(keys, labels).to_multiset()
        }
}

/// The labels of the given nodes.
pub open spec fn labels_along(keys: Seq<u32>, labels: Map<u32, String>) -> Seq<Seq<char>> {
    Seq::new(keys.len(), |i: int| labels[keys[i]]@)
}

} // verus!
