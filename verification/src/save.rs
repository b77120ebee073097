//! Save and load of solved spots. The file format is always full precision
//! regardless of the in-memory storage mode, so files written by compressed
//! and uncompressed solvers are interchangeable.

use crate::cfr;
use crate::cfr::{regret_store, strategy_store, Solver};
use crate::framing;
use crate::framing::{push_arena, read_arena, SaveError};
use crate::game;
use crate::game::{Spot, SpotConfig, SpotError};
use crate::num::{Num, Single};
use crate::profile_lock;
use crate::store;
use crate::store::{Storage, Store};
use crate::strategy::{copied, filled};
use crate::tree::{Strictness, KIND_ACTION};
use crate::tree_laws;
use std::collections::HashMap;
use vstd::prelude::*;

verus! {

/// The magic line of a save file: "GTOSOLVE2" and a line break.
pub open spec fn magic_bytes() -> Seq<u8> {
    seq![71u8, 84, 79, 83, 79, 76, 86, 69, 50, 10]
}

/// [`magic_bytes`], computed.
pub fn magic() -> (r: Vec<u8>)
    ensures
        r@ == magic_bytes(),
{
    let r: Vec<u8> = vec![71, 84, 79, 83, 79, 76, 86, 69, 50, 10];
    assert(r@ =~= magic_bytes());
    r
}

/// What the header of a save file tells. Locked strategies live only in the
/// solver's tables, so they ride along.
pub struct SaveHeader<S: Single> {
    pub config: SpotConfig<S::Wide>,
    pub iteration: u32,
    pub locks: Vec<(u32, Vec<S>)>,
    pub lock_labels: Vec<(u32, String)>,
}

/// Why a saved lock cannot be installed.
#[derive(Clone, Copy, Debug)]
pub enum LockError<S> {
    /// The tree has no such node.
    OutOfRange { idx: u32, nodes: usize },
    /// The node is no decision.
    NotADecision { idx: u32 },
    /// The lock does not cover the node's actions and hands.
    Shape { idx: u32, entries: usize, actions: usize, hands: usize },
    /// A frequency is negative or not finite.
    Frequency { idx: u32, value: S },
}

/// Why a save cannot be loaded.
#[allow(inconsistent_fields)]
pub enum LoadError<S: Single> {
    /// The spot cannot be rebuilt.
    Spot { error: SpotError<S::Wide> },
    /// A saved lock cannot be installed.
    Lock { error: LockError<S> },
    /// The arenas do not fit this machine's memory.
    TooLarge,
    /// The arenas cannot be read.
    File { error: SaveError },
}

// ---------------------------------------------------------------------------
// Locks
// ---------------------------------------------------------------------------

/// A frequency that cannot be played.
pub open spec fn unplayable<S: Num>(v: S) -> bool {
    !v.finite_spec() || v.below_spec(S::decimal_spec(0, 0))
}

/// The first frequency from `from` on that cannot be played.
pub open spec fn first_unplayable<S: Num>(sigma: Seq<S>, from: int) -> Option<S>
    decreases sigma.len() - from,
{
    if from >= sigma.len() {
        None
    } else if unplayable(sigma[from]) {
        Some(sigma[from])
    } else {
        first_unplayable(sigma, from + 1)
    }
}

/// What is wrong with one lock, if anything is.
pub open spec fn lock_fault<S: Single>(spot: Spot<S::Wide, S>, idx: u32, sigma: Seq<S>) -> Option<
    LockError<S>,
> {
    let nodes = spot.tree.nodes@;
    let n = nodes[idx as int];
    let na = n.num_children as int;
    let nh = spot.hands[n.player as int]@.len();
    if idx >= nodes.len() {
        Some(LockError::OutOfRange { idx, nodes: nodes.len() as usize })
    } else if n.kind != KIND_ACTION {
        Some(LockError::NotADecision { idx })
    } else if sigma.len() != na * nh {
        Some(
            LockError::Shape {
                idx,
                entries: sigma.len() as usize,
                actions: na as usize,
                hands: nh as usize,
            },
        )
    } else {
        match first_unplayable(sigma, 0) {
            Some(value) => Some(LockError::Frequency { idx, value }),
            None => None,
        }
    }
}

/// The first thing that is wrong with saved locks from `from` on.
pub open spec fn locks_fault<S: Single>(
    spot: Spot<S::Wide, S>,
    locks: Seq<(u32, Vec<S>)>,
    from: int,
) -> Option<LockError<S>>
    decreases locks.len() - from,
{
    if from >= locks.len() {
        None
    } else {
        match lock_fault(spot, locks[from].0, locks[from].1@) {
            Some(e) => Some(e),
            None => locks_fault(spot, locks, from + 1),
        }
    }
}

/// Validate saved lock entries against the tree a [`Spot`] built: the index is
/// in range, the node is a decision, the lock has exactly an entry for every
/// action of every hand of the actor, and every value is finite and >= 0.
pub fn validate_locks<S: Single>(spot: &Spot<S::Wide, S>, locks: &[(u32, Vec<S>)]) -> (r: Result<
    (),
    LockError<S>,
>)
    requires
        spot.wf(),
    ensures
        match r {
            Ok(_) => locks_fault(*spot, locks@, 0) is None,
            Err(e) => locks_fault(*spot, locks@, 0) == Some(e),
        },
{
    let mut k: usize = 0;
    while k < locks.len()
        invariant
            k <= locks@.len(),
            spot.wf(),
            locks_fault(*spot, locks@, 0) == locks_fault(*spot, locks@, k as int),
        decreases locks@.len() - k,
    {
        let idx: u32 = locks[k].0;
        let sigma = &locks[k].1;
        let nodes: usize = spot.tree.nodes.len();
        if idx as usize >= nodes {
            return Err(LockError::OutOfRange { idx, nodes });
        }
        let n = &spot.tree.nodes[idx as usize];
        if n.kind != KIND_ACTION {
            return Err(LockError::NotADecision { idx });
        }
        proof {
            assert(tree_laws::node_sound(spot.tree.arena(), spot.board_mask, idx as int));
        }
        let na: usize = n.num_children as usize;
        let nh: usize = spot.hands[n.player as usize].len();
        assert(na * nh <= 250 * 1326) by (nonlinear_arith)
            requires
                na <= 250,
                nh <= 1326,
        ;
        if sigma.len() != na * nh {
            return Err(LockError::Shape { idx, entries: sigma.len(), actions: na, hands: nh });
        }
        let zero = S::decimal(0, 0);
        let mut i: usize = 0;
        while i < sigma.len()
            invariant
                i <= sigma@.len(),
                k < locks@.len(),
                idx == locks@[k as int].0,
                *sigma == locks@[k as int].1,
                zero == S::decimal_spec(0, 0),
                idx < spot.tree.nodes@.len(),
                spot.tree.nodes@[idx as int].kind == KIND_ACTION,
                sigma@.len() == spot.tree.nodes@[idx as int].num_children
                    * spot.hands[spot.tree.nodes@[idx as int].player as int]@.len(),
                first_unplayable(sigma@, 0) == first_unplayable(sigma@, i as int),
                locks_fault(*spot, locks@, 0) == locks_fault(*spot, locks@, k as int),
            decreases sigma@.len() - i,
        {
            let value = sigma[i];
            if !value.finite() || value.below(zero) {
                return Err(LockError::Frequency { idx, value });
            }
            i = i + 1;
        }
        k = k + 1;
    }
    Ok(())
}

/// The table that entries make, a later one replacing an earlier one.
pub open spec fn table_of<S>(entries: Seq<(u32, Vec<S>)>) -> Map<u32, Seq<S>>
    decreases entries.len(),
{
    if entries.len() == 0 {
        Map::empty()
    } else {
        table_of(entries.drop_last()).insert(entries.last().0, entries.last().1@)
    }
}

/// The labels that entries make, a later one replacing an earlier one.
pub open spec fn labels_of(entries: Seq<(u32, String)>) -> Map<u32, Seq<char>>
    decreases entries.len(),
{
    if entries.len() == 0 {
        Map::empty()
    } else {
        labels_of(entries.drop_last()).insert(entries.last().0, entries.last().1@)
    }
}

fn fill_locks<S: Single>(entries: &Vec<(u32, Vec<S>)>) -> (r: HashMap<u32, Vec<S>>)
    ensures
        profile_lock::sigmas(r@) == table_of(entries@),
        forall|k: u32|
            #[trigger] r@.contains_key(k) ==> exists|i: int|
                0 <= i < entries@.len() && (#[trigger] entries@[i]).0 == k && entries@[i].1@
                    == r@[k]@,
{
    let mut out: HashMap<u32, Vec<S>> = HashMap::new();
    let mut i: usize = 0;
    assert(entries@.take(0) =~= Seq::<(u32, Vec<S>)>::empty());
    assert(profile_lock::sigmas(out@) =~= Map::<u32, Seq<S>>::empty());
    while i < entries.len()
        invariant
            i <= entries@.len(),
            profile_lock::sigmas(out@) == table_of(entries@.take(i as int)),
            forall|k: u32|
                #[trigger] out@.contains_key(k) ==> exists|x: int|
                    0 <= x < i && (#[trigger] entries@[x]).0 == k && entries@[x].1@ == out@[k]@,
        decreases entries@.len() - i,
    {
        let ghost before = out@;
        let v = copied(entries[i].1.as_slice());
        let key: u32 = entries[i].0;
        out.insert(key, v);
        proof {
            assert(entries@.take(i + 1).drop_last() =~= entries@.take(i as int));
            assert(profile_lock::sigmas(out@) =~= profile_lock::sigmas(before).insert(key, v@));
            assert forall|k: u32| #[trigger] out@.contains_key(k) implies exists|x: int|
                0 <= x < i + 1 && (#[trigger] entries@[x]).0 == k && entries@[x].1@ == out@[k]@ by {
                if k == key {
                    assert(entries@[i as int].0 == k);
                } else {
                    assert(before.contains_key(k));
                    let x = choose|x: int|
                        0 <= x < i && (#[trigger] entries@[x]).0 == k && entries@[x].1@
                            == before[k]@;
                    assert(entries@[x].0 == k);
                }
            }
        }
        i = i + 1;
    }
    assert(entries@.take(i as int) =~= entries@);
    out
}

fn fill_labels(entries: &Vec<(u32, String)>) -> (r: HashMap<u32, String>)
    ensures
        profile_lock::names(r@) == labels_of(entries@),
{
    let mut out: HashMap<u32, String> = HashMap::new();
    let mut i: usize = 0;
    assert(entries@.take(0) =~= Seq::<(u32, String)>::empty());
    assert(profile_lock::names(out@) =~= Map::<u32, Seq<char>>::empty());
    while i < entries.len()
        invariant
            i <= entries@.len(),
            profile_lock::names(out@) == labels_of(entries@.take(i as int)),
        decreases entries@.len() - i,
    {
        let ghost before = out@;
        let v = entries[i].1.clone();
        let ghost text = v@;
        let key: u32 = entries[i].0;
        out.insert(key, v);
        proof {
            assert(entries@.take(i + 1).drop_last() =~= entries@.take(i as int));
            assert(profile_lock::names(out@) =~= profile_lock::names(before).insert(key, text));
        }
        i = i + 1;
    }
    assert(entries@.take(i as int) =~= entries@);
    out
}

proof fn lemma_locks_sound<S: Single>(
    spot: Spot<S::Wide, S>,
    locks: Seq<(u32, Vec<S>)>,
    from: int,
    i: int,
)
    requires
        0 <= from <= i < locks.len(),
        locks_fault(spot, locks, from) is None,
    ensures
        lock_fault(spot, locks[i].0, locks[i].1@) is None,
    decreases i - from,
{
    if from < i {
        lemma_locks_sound(spot, locks, from + 1, i);
    }
}

// ---------------------------------------------------------------------------
// Arenas
// ---------------------------------------------------------------------------

/// The words of numbers.
pub open spec fn words_of<S: Single>(s: Seq<S>) -> Seq<u32> {
    Seq::new(s.len(), |i: int| s[i].word_spec())
}

/// The numbers of words.
pub open spec fn numbers_of<S: Single>(w: Seq<u32>) -> Seq<S> {
    Seq::new(w.len(), |i: int| S::of_word_spec(w[i]))
}

pub(crate) fn to_words<S: Single>(s: &[S]) -> (r: Vec<u32>)
    ensures
        r@ == words_of(s@),
{
    let mut out: Vec<u32> = Vec::new();
    let mut i: usize = 0;
    while i < s.len()
        invariant
            i <= s@.len(),
            out@ == words_of(s@).take(i as int),
        decreases s@.len() - i,
    {
        out.push(s[i].word());
        assert(out@ =~= words_of(s@).take(i + 1));
        i = i + 1;
    }
    assert(out@ =~= words_of(s@));
    out
}

pub(crate) fn to_numbers<S: Single>(w: &Vec<u32>) -> (r: Vec<S>)
    ensures
        r@ == numbers_of::<S>(w@),
{
    let mut out: Vec<S> = Vec::new();
    let mut i: usize = 0;
    while i < w.len()
        invariant
            i <= w@.len(),
            out@ == numbers_of::<S>(w@).take(i as int),
        decreases w@.len() - i,
    {
        out.push(S::of_word(w[i]));
        assert(out@ =~= numbers_of::<S>(w@).take(i + 1));
        i = i + 1;
    }
    assert(out@ =~= numbers_of::<S>(w@));
    out
}

/// Node `j` is a decision of player `p`.
pub open spec fn decision_of<S: Single>(spot: Spot<S::Wide, S>, p: int, j: int) -> bool {
    0 <= j < spot.tree.nodes@.len() && spot.tree.nodes@[j].kind == KIND_ACTION
        && spot.tree.nodes@[j].player == p
}

/// How many entries the block of decision `j` of player `p` has.
pub open spec fn block_size<S: Single>(spot: Spot<S::Wide, S>, p: int, j: int) -> int {
    spot.tree.nodes@[j].num_children * spot.hands[p]@.len()
}

/// The block of decision `j` in a decoded arena is what the store holds there.
pub open spec fn block_decoded<S: Single>(
    spot: Spot<S::Wide, S>,
    store: Store<S>,
    p: int,
    s: Seq<S>,
    j: int,
) -> bool {
    let off = spot.tree.nodes@[j].data_offset as int;
    let n = block_size(spot, p, j);
    s.subrange(off, off + n) == store.block(j, off, n)
}

/// An arena decoded to plain numbers.
pub open spec fn arena_decoded<S: Single>(
    spot: Spot<S::Wide, S>,
    store: Store<S>,
    p: int,
    s: Seq<S>,
) -> bool {
    &&& s.len() == spot.tree.data_size[p]
    &&& match store {
        Store::F32(b) => s == b@,
        _ => forall|j: int|
            decision_of(spot, p, j) ==> #[trigger] block_decoded(spot, store, p, s, j),
    }
}

/// The block of decision `j` in a store is what is kept of a plain arena.
pub open spec fn block_encoded<S: Single>(
    spot: Spot<S::Wide, S>,
    store: Store<S>,
    p: int,
    s: Seq<S>,
    j: int,
) -> bool {
    let off = spot.tree.nodes@[j].data_offset as int;
    let n = block_size(spot, p, j);
    store.block(j, off, n) == store.kept(s.subrange(off, off + n))
}

/// A store filled from plain numbers.
pub open spec fn arena_encoded<S: Single>(
    spot: Spot<S::Wide, S>,
    store: Store<S>,
    p: int,
    s: Seq<S>,
) -> bool {
    match store {
        Store::F32(b) => b@ == s,
        _ => forall|j: int|
            decision_of(spot, p, j) ==> #[trigger] block_encoded(spot, store, p, s, j),
    }
}

/// The blocks of two decisions of a player do not meet, and lie inside the
/// arena.
proof fn lemma_blocks<S: Single>(spot: Spot<S::Wide, S>, p: int, i: int, j: int)
    requires
        spot.wf(),
        0 <= p < 2,
        decision_of(spot, p, i),
        decision_of(spot, p, j),
        i < j,
    ensures
        spot.tree.nodes@[i].data_offset + block_size(spot, p, i)
            <= spot.tree.nodes@[j].data_offset,
        spot.tree.nodes@[j].data_offset + block_size(spot, p, j) <= spot.tree.data_size[p],
{
    let a = spot.tree.arena();
    let counts = [spot.hands[0]@.len() as u64, spot.hands[1]@.len() as u64];
    assert(counts[0] == spot.hands[0]@.len() && counts[1] == spot.hands[1]@.len());
    tree_laws::law_blocks_disjoint(a, counts, i, j);
}

proof fn lemma_block<S: Single>(spot: Spot<S::Wide, S>, p: int, j: int)
    requires
        spot.wf(),
        0 <= p < 2,
        decision_of(spot, p, j),
    ensures
        spot.tree.nodes@[j].data_offset + block_size(spot, p, j) <= spot.tree.data_size[p],
        0 <= block_size(spot, p, j) <= 331500,
{
    let a = spot.tree.arena();
    let counts = [spot.hands[0]@.len() as u64, spot.hands[1]@.len() as u64];
    assert(counts[0] == spot.hands[0]@.len() && counts[1] == spot.hands[1]@.len());
    tree_laws::law_block_inside(a, counts, j);
    assert(tree_laws::node_sound(a, spot.board_mask, j));
    let x = spot.tree.nodes@[j].num_children as int;
    let y = spot.hands[p]@.len() as int;
    assert(0 <= x * y <= 331500) by (nonlinear_arith)
        requires
            0 <= x <= 250,
            0 <= y <= 1326,
    ;
}

impl<S: Single> Solver<S> {
    /// Decode one whole arena (player `p`'s action-node blocks).
    pub(crate) fn arena_to_f32(&self, store: &Store<S>, p: usize) -> (r: Vec<S>)
        requires
            self.spot.wf(),
            p < 2,
            cfr::fitted(
                *store,
                self.spot.tree.data_size[p as int] as int,
                self.spot.tree.nodes@.len() as int,
            ),
        ensures
            arena_decoded(self.spot, *store, p as int, r@),
    {
        let len: usize = store.len();
        match store {
            Store::F32(b) => {
                return copied(b.as_slice());
            },
            _ => {},
        }
        let nh: usize = self.spot.hands[p].len();
        let mut buf = filled(len, S::decimal(0, 0));
        let mut idx: usize = 0;
        while idx < self.spot.tree.nodes.len()
            invariant
                idx <= self.spot.tree.nodes@.len(),
                self.spot.wf(),
                p < 2,
                nh == self.spot.hands[p as int]@.len(),
                len == self.spot.tree.data_size[p as int],
                buf@.len() == len,
                cfr::fitted(
                    *store,
                    self.spot.tree.data_size[p as int] as int,
                    self.spot.tree.nodes@.len() as int,
                ),
                forall|j: int|
                    0 <= j < idx && decision_of(self.spot, p as int, j) ==> #[trigger] block_decoded(
                        self.spot,
                        *store,
                        p as int,
                        buf@,
                        j,
                    ),
            decreases self.spot.tree.nodes@.len() - idx,
        {
            let n = &self.spot.tree.nodes[idx];
            if n.kind == KIND_ACTION && n.player as usize == p {
                proof {
                    lemma_block(self.spot, p as int, idx as int);
                }
                let size: usize = n.num_children as usize * nh;
                let off: usize = n.data_offset as usize;
                let block = store.read_f32(idx as u32, n.data_offset, size);
                assert(block@.len() == size);
                let ghost before = buf@;
                let mut i: usize = 0;
                while i < size
                    invariant
                        i <= size == block@.len(),
                        off + size <= len == buf@.len() == before.len(),
                        forall|x: int|
                            0 <= x < len ==> #[trigger] buf@[x] == if off <= x < off + i {
                                block@[x - off]
                            } else {
                                before[x]
                            },
                    decreases size - i,
                {
                    buf.set(off + i, block[i]);
                    i = i + 1;
                }
                proof {
                    assert(buf@.subrange(off as int, off + size) =~= block@);
                    assert(block_decoded(self.spot, *store, p as int, buf@, idx as int));
                    assert forall|j: int|
                        0 <= j < idx && decision_of(
                            self.spot,
                            p as int,
                            j,
                        ) implies #[trigger] block_decoded(self.spot, *store, p as int, buf@, j) by {
                        lemma_blocks(self.spot, p as int, j, idx as int);
                        let o = self.spot.tree.nodes@[j].data_offset as int;
                        let m = block_size(self.spot, p as int, j);
                        assert(block_decoded(self.spot, *store, p as int, before, j));
                        lemma_block(self.spot, p as int, j);
                        assert(buf@.subrange(o, o + m) =~= before.subrange(o, o + m));
                    }
                }
            }
            idx = idx + 1;
        }
        buf
    }

    /// The header that goes with the arenas.
    pub fn save_header(&self) -> (r: SaveHeader<S>)
        ensures
            heads(*self, r),
    {
        let keys = crate::table::keys_of(&self.locks);
        let mut locks: Vec<(u32, Vec<S>)> = Vec::new();
        let mut i: usize = 0;
        while i < keys.len()
            invariant
                i <= keys@.len(),
                keys@.to_set() == self.locks@.dom(),
                locks@.len() == i,
                forall|k: u32|
                    #[trigger] table_of(locks@).contains_key(k) <==> keys@.take(i as int).contains(k),
                forall|k: u32|
                    #[trigger] table_of(locks@).contains_key(k) ==> table_of(locks@)[k]
                        == self.locks@[k]@,
                forall|x: int| 0 <= x < i ==> locked_so(*self, #[trigger] locks@[x]),
            decreases keys@.len() - i,
        {
            let key: u32 = keys[i];
            let ghost before = locks@;
            assert(keys@.contains(key));
            assert(keys@.to_set().contains(key));
            match self.locks.get(&key) {
                Some(v) => locks.push((key, copied(v.as_slice()))),
                None => {
                    assert(false);
                },
            }
            proof {
                assert(locks@.drop_last() =~= before);
                assert forall|x: int| 0 <= x < i + 1 implies locked_so(
                    *self,
                    #[trigger] locks@[x],
                ) by {
                    if x < i {
                        assert(locks@[x] == before[x]);
                    }
                }
                assert(keys@.take(i + 1) =~= keys@.take(i as int).push(key));
                assert forall|k: u32| #[trigger] table_of(locks@).contains_key(k) <==> keys@.take(
                    i + 1,
                ).contains(k) by {
                    crate::table::lemma_push_contains(keys@.take(i as int), key, k);
                    assert(table_of(before).contains_key(k) <==> keys@.take(i as int).contains(k));
                }
                assert forall|k: u32| #[trigger] table_of(locks@).contains_key(k) implies table_of(
                    locks@,
                )[k] == self.locks@[k]@ by {
                    if k != key {
                        assert(table_of(before).contains_key(k));
                    }
                }
            }
            i = i + 1;
        }
        proof {
            assert(keys@.take(i as int) =~= keys@);
            assert forall|k: u32| table_of(locks@).contains_key(k) <==> self.locks@.contains_key(
                k,
            ) by {
                assert(table_of(locks@).contains_key(k) <==> keys@.take(i as int).contains(k));
                assert(keys@.contains(k) <==> keys@.to_set().contains(k));
            }
            assert(table_of(locks@) =~= profile_lock::sigmas(self.locks@));
        }
        let names = crate::table::keys_of(&self.lock_labels);
        let mut lock_labels: Vec<(u32, String)> = Vec::new();
        let mut j: usize = 0;
        while j < names.len()
            invariant
                j <= names@.len(),
                names@.to_set() == self.lock_labels@.dom(),
                lock_labels@.len() == j,
                forall|k: u32|
                    #[trigger] labels_of(lock_labels@).contains_key(k) <==> names@.take(
                        j as int,
                    ).contains(k),
                forall|k: u32|
                    #[trigger] labels_of(lock_labels@).contains_key(k) ==> labels_of(
                        lock_labels@,
                    )[k] == self.lock_labels@[k]@,
            decreases names@.len() - j,
        {
            let key: u32 = names[j];
            let ghost before = lock_labels@;
            assert(names@.contains(key));
            assert(names@.to_set().contains(key));
            match self.lock_labels.get(&key) {
                Some(v) => lock_labels.push((key, v.clone())),
                None => {
                    assert(false);
                },
            }
            proof {
                assert(lock_labels@.drop_last() =~= before);
                assert(names@.take(j + 1) =~= names@.take(j as int).push(key));
                assert forall|k: u32| #[trigger] labels_of(lock_labels@).contains_key(k)
                    <==> names@.take(j + 1).contains(k) by {
                    crate::table::lemma_push_contains(names@.take(j as int), key, k);
                    assert(labels_of(before).contains_key(k) <==> names@.take(j as int).contains(
                        k,
                    ));
                }
                assert forall|k: u32| #[trigger] labels_of(lock_labels@).contains_key(
                    k,
                ) implies labels_of(lock_labels@)[k] == self.lock_labels@[k]@ by {
                    if k != key {
                        assert(labels_of(before).contains_key(k));
                    }
                }
            }
            j = j + 1;
        }
        proof {
            assert(names@.take(j as int) =~= names@);
            assert forall|k: u32| labels_of(lock_labels@).contains_key(k)
                <==> self.lock_labels@.contains_key(k) by {
                assert(labels_of(lock_labels@).contains_key(k) <==> names@.take(j as int).contains(
                    k,
                ));
                assert(names@.contains(k) <==> names@.to_set().contains(k));
            }
            assert(labels_of(lock_labels@) =~= profile_lock::names(self.lock_labels@));
        }
        SaveHeader {
            config: duplicate_config(&self.spot.config),
            iteration: self.iteration,
            locks,
            lock_labels,
        }
    }

    /// The bytes of a save file, given its header line.
    pub fn save(&self, header: &[u8]) -> (r: Vec<u8>)
        requires
            self.wf(),
        ensures
            exists|a: Seq<S>, b: Seq<S>, c: Seq<S>, d: Seq<S>|
                {
                    &&& arena_decoded(self.spot, self.regrets[0], 0, a)
                    &&& arena_decoded(self.spot, self.regrets[1], 1, b)
                    &&& arena_decoded(self.spot, self.strat[0], 0, c)
                    &&& arena_decoded(self.spot, self.strat[1], 1, d)
                    &&& r@ == #[trigger] file_bytes(
                        header@,
                        words_of(a),
                        words_of(b),
                        words_of(c),
                        words_of(d),
                    )
                },
    {
        let a = self.arena_to_f32(&self.regrets[0], 0);
        let b = self.arena_to_f32(&self.regrets[1], 1);
        let c = self.arena_to_f32(&self.strat[0], 0);
        let d = self.arena_to_f32(&self.strat[1], 1);
        let mut out = magic();
        let mut i: usize = 0;
        while i < header.len()
            invariant
                i <= header@.len(),
                out@ == magic_bytes() + header@.take(i as int),
            decreases header@.len() - i,
        {
            out.push(header[i]);
            assert(out@ =~= magic_bytes() + header@.take(i + 1));
            i = i + 1;
        }
        assert(header@.take(i as int) =~= header@);
        out.push(10);
        assert(out@ =~= magic_bytes() + header@ + seq![10u8]);
        let wa = to_words(a.as_slice());
        let wb = to_words(b.as_slice());
        let wc = to_words(c.as_slice());
        let wd = to_words(d.as_slice());
        push_arena(&mut out, wa.as_slice());
        push_arena(&mut out, wb.as_slice());
        push_arena(&mut out, wc.as_slice());
        push_arena(&mut out, wd.as_slice());
        assert(out@ == file_bytes(header@, words_of(a@), words_of(b@), words_of(c@), words_of(d@)));
        out
    }
}

/// A save file: the magic, the header line, and the regret and strategy arenas
/// of both players.
pub open spec fn file_bytes(
    header: Seq<u8>,
    a: Seq<u32>,
    b: Seq<u32>,
    c: Seq<u32>,
    d: Seq<u32>,
) -> Seq<u8> {
    magic_bytes() + header + seq![10u8] + framing::arena_bytes(a) + framing::arena_bytes(b)
        + framing::arena_bytes(c) + framing::arena_bytes(d)
}

/// Whether an entry is one of a solver's locks.
pub open spec fn locked_so<S: Single>(s: Solver<S>, entry: (u32, Vec<S>)) -> bool {
    s.locks@.contains_key(entry.0) && s.locks@[entry.0]@ == entry.1@
}

/// Whether a header tells of a solver.
pub open spec fn heads<S: Single>(s: Solver<S>, header: SaveHeader<S>) -> bool {
    &&& same_spot_config(header.config, s.spot.config)
    &&& header.iteration == s.iteration
    &&& table_of(header.locks@) == profile_lock::sigmas(s.locks@)
    &&& labels_of(header.lock_labels@) == profile_lock::names(s.lock_labels@)
    &&& forall|i: int| 0 <= i < header.locks@.len() ==> locked_so(s, #[trigger] header.locks@[i])
}

/// Two configurations say the same.
pub open spec fn same_spot_config<N>(a: SpotConfig<N>, b: SpotConfig<N>) -> bool {
    &&& a.board@ == b.board@
    &&& a.range_oop@ == b.range_oop@
    &&& a.range_ip@ == b.range_ip@
    &&& crate::tree::same_config(a.tree, b.tree)
}

fn duplicate_config<N: Num>(config: &SpotConfig<N>) -> (r: SpotConfig<N>)
    ensures
        same_spot_config(r, *config),
{
    SpotConfig {
        board: config.board.clone(),
        range_oop: config.range_oop.clone(),
        range_ip: config.range_ip.clone(),
        tree: config.tree.duplicate(),
    }
}

// ---------------------------------------------------------------------------
// Loading
// ---------------------------------------------------------------------------

fn fill_store<S: Single>(store: &mut Store<S>, spot: &Spot<S::Wide, S>, p: usize, buf: &[S])
    requires
        spot.wf(),
        p < 2,
        buf@.len() == spot.tree.data_size[p as int],
        cfr::fitted(
            *old(store),
            spot.tree.data_size[p as int] as int,
            spot.tree.nodes@.len() as int,
        ),
    ensures
        final(store).same_shape(old(store)),
        arena_encoded(*spot, *final(store), p as int, buf@),
{
    match store {
        Store::F32(b) => {
            b.write_block(0, buf);
            assert(b@ =~= buf@);
            return ;
        },
        _ => {},
    }
    let nh: usize = spot.hands[p].len();
    let mut idx: usize = 0;
    while idx < spot.tree.nodes.len()
        invariant
            idx <= spot.tree.nodes@.len(),
            spot.wf(),
            p < 2,
            nh == spot.hands[p as int]@.len(),
            buf@.len() == spot.tree.data_size[p as int],
            !(*old(store) is F32),
            store.same_shape(old(store)),
            cfr::fitted(
                *store,
                spot.tree.data_size[p as int] as int,
                spot.tree.nodes@.len() as int,
            ),
            forall|j: int|
                0 <= j < idx && decision_of(*spot, p as int, j) ==> #[trigger] block_encoded(
                    *spot,
                    *store,
                    p as int,
                    buf@,
                    j,
                ),
        decreases spot.tree.nodes@.len() - idx,
    {
        let n = &spot.tree.nodes[idx];
        if n.kind == KIND_ACTION && n.player as usize == p {
            proof {
                lemma_block(*spot, p as int, idx as int);
            }
            let size: usize = n.num_children as usize * nh;
            let all: usize = buf.len();
            let off: usize = n.data_offset as usize;
            let ghost before = *store;
            let block = vstd::slice::slice_subrange(buf, off, off + size);
            store.write_f32(idx as u32, n.data_offset, block);
            proof {
                store::law_read_back(before, *store, idx as int, off as int, block@);
                assert(block_encoded(*spot, *store, p as int, buf@, idx as int));
                assert forall|j: int|
                    0 <= j < idx && decision_of(
                        *spot,
                        p as int,
                        j,
                    ) implies #[trigger] block_encoded(*spot, *store, p as int, buf@, j) by {
                    lemma_blocks(*spot, p as int, j, idx as int);
                    lemma_block(*spot, p as int, j);
                    assert(block_encoded(*spot, before, p as int, buf@, j));
                    store::law_write_is_local(
                        before,
                        *store,
                        idx as int,
                        off as int,
                        block@,
                        j,
                        spot.tree.nodes@[j].data_offset as int,
                        block_size(*spot, p as int, j),
                    );
                }
            }
        }
        idx = idx + 1;
    }
}

/// The four arenas of a file body, for the given arena sizes.
pub open spec fn arenas_read(body: Seq<u8>, d0: int, d1: int) -> Result<
    (Seq<u32>, Seq<u32>, Seq<u32>, Seq<u32>),
    SaveError,
> {
    match framing::arena_read(body, 0, d0) {
        Err(e) => Err(e),
        Ok((a, p)) => match framing::arena_read(body, p, d1) {
            Err(e) => Err(e),
            Ok((b, q)) => match framing::arena_read(body, q, d0) {
                Err(e) => Err(e),
                Ok((c, r)) => match framing::arena_read(body, r, d1) {
                    Err(e) => Err(e),
                    Ok((d, _)) => Ok((a, b, c, d)),
                },
            },
        },
    }
}

/// A spot rebuilt from a saved configuration.
pub open spec fn rebuilt<S: Single>(spot: Spot<S::Wide, S>, config: SpotConfig<S::Wide>) -> bool {
    spot.wf() && spot.config == config && spot.describes(None, Strictness::LenientLoad)
}

/// Why a rebuilt spot cannot take what a save holds.
pub open spec fn load_refused<S: Single>(
    spot: Spot<S::Wide, S>,
    header: SaveHeader<S>,
    body: Seq<u8>,
    e: LoadError<S>,
) -> bool {
    let d0 = spot.tree.data_size[0] as int;
    let d1 = spot.tree.data_size[1] as int;
    match e {
        LoadError::Spot { error } => false,
        LoadError::Lock { error } => locks_fault(spot, header.locks@, 0) == Some(error),
        LoadError::TooLarge => {
            &&& locks_fault(spot, header.locks@, 0) is None
            &&& d0 > usize::MAX || d1 > usize::MAX
        },
        LoadError::File { error } => {
            &&& locks_fault(spot, header.locks@, 0) is None
            &&& arenas_read(body, d0, d1) == Err::<
                (Seq<u32>, Seq<u32>, Seq<u32>, Seq<u32>),
                SaveError,
            >(error)
        },
    }
}

/// What a loaded solver holds.
pub open spec fn loaded<S: Single>(
    s: Solver<S>,
    header: SaveHeader<S>,
    body: Seq<u8>,
    storage: Storage,
) -> bool {
    let read = arenas_read(
        body,
        s.spot.tree.data_size[0] as int,
        s.spot.tree.data_size[1] as int,
    );
    &&& rebuilt(s.spot, header.config)
    &&& locks_fault(s.spot, header.locks@, 0) is None
    &&& s.iteration == header.iteration
    &&& profile_lock::sigmas(s.locks@) == table_of(header.locks@)
    &&& profile_lock::names(s.lock_labels@) == labels_of(header.lock_labels@)
    &&& s.sym_dirty == (header.locks@.len() > 0)
    &&& s.use_isomorphism
    &&& s.stored(storage)
    &&& read is Ok
    &&& arena_encoded(s.spot, s.regrets[0], 0, numbers_of::<S>((read->Ok_0).0))
    &&& arena_encoded(s.spot, s.regrets[1], 1, numbers_of::<S>((read->Ok_0).1))
    &&& arena_encoded(s.spot, s.strat[0], 0, numbers_of::<S>((read->Ok_0).2))
    &&& arena_encoded(s.spot, s.strat[1], 1, numbers_of::<S>((read->Ok_0).3))
}

/// What loading a save leads to.
pub open spec fn load_outcome<S: Single>(
    header: SaveHeader<S>,
    body: Seq<u8>,
    storage: Storage,
    r: Result<Solver<S>, LoadError<S>>,
) -> bool {
    match r {
        Ok(s) => s.wf() && loaded(s, header, body, storage),
        Err(LoadError::Spot { error }) => game::spot_fault::<S::Wide, S>(
            header.config,
            None,
            Strictness::LenientLoad,
        ) == Some(error.fault()),
        Err(e) => exists|spot: Spot<S::Wide, S>| #[trigger]
            rebuilt(spot, header.config) && load_refused(spot, header, body, e),
    }
}

impl<S: Single + Send + Sync> Solver<S> {
    /// [`Solver::load_with_storage`] in full precision.
    pub fn load(header: SaveHeader<S>, body: &[u8]) -> (r: Result<Self, LoadError<S>>)
        ensures
            load_outcome(header, body@, Storage::F32, r),
    {
        Self::load_with_storage(header, body, Storage::F32)
    }

    /// A solver from the header and the arenas of a save file. A saved
    /// configuration may carry sizes that were dropped when the file was
    /// written; the arenas match that tree, so it is rebuilt leniently.
    pub fn load_with_storage(header: SaveHeader<S>, body: &[u8], storage: Storage) -> (r: Result<
        Self,
        LoadError<S>,
    >)
        ensures
            load_outcome(header, body@, storage, r),
    {
        let ghost saved = header;
        let SaveHeader { config, iteration, locks, lock_labels } = header;
        let spot = match Spot::<S::Wide, S>::new_lenient(config) {
            Ok(spot) => spot,
            Err(error) => return Err(LoadError::Spot { error }),
        };
        assert(rebuilt(spot, saved.config));
        match validate_locks(&spot, locks.as_slice()) {
            Ok(_) => {},
            Err(error) => {
                let e = LoadError::Lock { error };
                assert(rebuilt(spot, saved.config) && load_refused(spot, saved, body@, e));
                return Err(e);
            },
        }
        let d0: u64 = spot.tree.data_size[0];
        let d1: u64 = spot.tree.data_size[1];
        if d0 > usize::MAX as u64 || d1 > usize::MAX as u64 {
            let e = LoadError::TooLarge;
            assert(rebuilt(spot, saved.config) && load_refused(spot, saved, body@, e));
            return Err(e);
        }
        let words = match read_arenas(body, d0 as usize, d1 as usize) {
            Ok(words) => words,
            Err(error) => {
                let e = LoadError::File { error };
                assert(rebuilt(spot, saved.config) && load_refused(spot, saved, body@, e));
                return Err(e);
            },
        };
        let table = fill_locks(&locks);
        let labels = fill_labels(&lock_labels);
        let dirty: bool = locks.len() > 0;
        let nodes: usize = spot.tree.nodes.len();
        let mut r0 = regret_store::<S>(storage, d0 as usize, nodes);
        let mut r1 = regret_store::<S>(storage, d1 as usize, nodes);
        let mut s0 = strategy_store::<S>(storage, d0 as usize, nodes);
        let mut s1 = strategy_store::<S>(storage, d1 as usize, nodes);
        let a = to_numbers::<S>(&words.0);
        let b = to_numbers::<S>(&words.1);
        let c = to_numbers::<S>(&words.2);
        let d = to_numbers::<S>(&words.3);
        fill_store(&mut r0, &spot, 0, a.as_slice());
        fill_store(&mut r1, &spot, 1, b.as_slice());
        fill_store(&mut s0, &spot, 0, c.as_slice());
        fill_store(&mut s1, &spot, 1, d.as_slice());
        let done = Solver {
            spot,
            regrets: [r0, r1],
            strat: [s0, s1],
            iteration,
            locks: table,
            lock_labels: labels,
            use_isomorphism: true,
            sym_dirty: dirty,
        };
        proof {
            assert forall|k: u32| done.locks@.contains_key(k) implies #[trigger] done.lock_fits(
                k,
            ) by {
                let i = choose|i: int|
                    0 <= i < locks@.len() && (#[trigger] locks@[i]).0 == k && locks@[i].1@
                        == done.locks@[k]@;
                lemma_locks_sound(done.spot, locks@, 0, i);
            }
        }
        Ok(done)
    }
}

fn read_arenas(body: &[u8], d0: usize, d1: usize) -> (r: Result<
    (Vec<u32>, Vec<u32>, Vec<u32>, Vec<u32>),
    SaveError,
>)
    ensures
        match r {
            Ok(w) => arenas_read(body@, d0 as int, d1 as int) == Ok::<
                (Seq<u32>, Seq<u32>, Seq<u32>, Seq<u32>),
                SaveError,
            >((w.0@, w.1@, w.2@, w.3@)) && w.0@.len() == d0 && w.1@.len() == d1 && w.2@.len() == d0
                && w.3@.len() == d1,
            Err(e) => arenas_read(body@, d0 as int, d1 as int) == Err::<
                (Seq<u32>, Seq<u32>, Seq<u32>, Seq<u32>),
                SaveError,
            >(e),
        },
{
    let (a, p) = match read_arena(body, 0, d0) {
        Ok(x) => x,
        Err(e) => return Err(e),
    };
    let (b, q) = match read_arena(body, p, d1) {
        Ok(x) => x,
        Err(e) => return Err(e),
    };
    let (c, r) = match read_arena(body, q, d0) {
        Ok(x) => x,
        Err(e) => return Err(e),
    };
    let (d, end) = match read_arena(body, r, d1) {
        Ok(x) => x,
        Err(e) => return Err(e),
    };
    Ok((a, b, c, d))
}

/// Law: what is written to a save file is read back. The header line is found
/// again, and behind it the four arenas, word for word.
#[verifier::rlimit(80)]
#[verifier::spinoff_prover]
pub proof fn law_save_read_back(
    header: Seq<u8>,
    a: Seq<u32>,
    b: Seq<u32>,
    c: Seq<u32>,
    d: Seq<u32>,
)
    requires
        forall|k: int| 0 <= k < header.len() ==> header[k] != 10,
        a.len() < framing::span(8),
        b.len() < framing::span(8),
        c.len() == a.len(),
        d.len() == b.len(),
    ensures
        ({
            let file = file_bytes(header, a, b, c, d);
            let at = (magic_bytes().len() + header.len()) as int;
            &&& framing::header_end(magic_bytes(), file) == Ok::<int, SaveError>(at)
            &&& file.subrange(magic_bytes().len() as int, at) == header
            &&& arenas_read(file.skip(at + 1), a.len() as int, b.len() as int) == Ok::<
                (Seq<u32>, Seq<u32>, Seq<u32>, Seq<u32>),
                SaveError,
            >((a, b, c, d))
        }),
{
    let file = file_bytes(header, a, b, c, d);
    let at = (magic_bytes().len() + header.len()) as int;
    let xa = framing::arena_bytes(a);
    let xb = framing::arena_bytes(b);
    let xc = framing::arena_bytes(c);
    let xd = framing::arena_bytes(d);
    let body = xa + xb + xc + xd;
    assert(file =~= magic_bytes() + header + seq![10u8] + body);
    framing::law_header_read_back(magic_bytes(), header, body);
    assert(file.skip(at + 1) =~= body);
    let none = Seq::<u8>::empty();
    framing::law_arena_read_back(none, a, xb + xc + xd);
    assert(none + xa + (xb + xc + xd) =~= body);
    framing::law_arena_read_back(xa, b, xc + xd);
    assert(xa + xb + (xc + xd) =~= body);
    framing::law_arena_read_back(xa + xb, c, xd);
    assert((xa + xb) + xc + xd =~= body);
    framing::law_arena_read_back(xa + xb + xc, d, none);
    assert((xa + xb + xc) + xd + none =~= body);
}

/// Law: numbers that their words stand for come back from a save file as they
/// were.
pub proof fn law_numbers_read_back<S: Single>(s: Seq<S>)
    requires
        forall|i: int| 0 <= i < s.len() ==> S::of_word_spec((#[trigger] s[i]).word_spec()) == s[i],
    ensures
        numbers_of::<S>(words_of(s)) == s,
{
    assert(numbers_of::<S>(words_of(s)) =~= s);
}

} // verus!
