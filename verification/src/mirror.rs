//! Mirroring: runouts that a renaming of suits turns into one another are
//! brought in line with the one that stands for them.

use crate::canonical;
use crate::cards;
use crate::cards::{permute_card, Card};
use crate::cfr::Solver;
use crate::engine;
use crate::engine::Tables;
use crate::game;
use crate::game::Dealt;
use crate::num::{Num, Single};
use crate::profile_lock;
use crate::spot;
use crate::store;
use crate::store::Store;
use crate::strategy;
use crate::strategy::copied;
use crate::tree::{KIND_ACTION, KIND_CHANCE, SENTINEL};
use vstd::prelude::*;

verus! {

/// What of a solver mirroring changes.
pub ghost struct Held<S> {
    pub tables: Tables<S>,
    pub locks: Map<u32, Seq<S>>,
}

/// A block whose hands are read from where a renaming of suits takes them.
pub open spec fn pulled<S>(block: Seq<S>, images: Seq<u16>, nh: int) -> Seq<S> {
    Seq::new(block.len(), |j: int| block[strategy::cell(nh, j / nh, images[j % nh] as int)])
}

impl<S: Single> Solver<S> {
    pub open spec fn held(&self) -> Held<S> {
        Held { tables: self.tables(), locks: profile_lock::sigmas(self.locks@) }
    }

    /// Whether two nodes are decisions of the same shape.
    pub open spec fn twins(&self, dst: int, src: int) -> bool {
        &&& self.decides(dst)
        &&& self.decides(src)
        &&& self.node(dst).player == self.node(src).player
        &&& self.node(dst).num_children == self.node(src).num_children
    }

    /// A decision brought in line with its twin, by permutation `k`.
    pub open spec fn pulled_node(&self, h: Held<S>, dst: int, src: int, k: int) -> Held<S> {
        let p = self.node(dst).player as int;
        let len = self.block_len(dst);
        let to = self.node(dst).data_offset as int;
        let from = self.node(src).data_offset as int;
        let images = self.spot.hand_perm[p]@[k]@;
        let nh = self.nh(p);
        Held {
            tables: Tables {
                regrets: h.tables.regrets.update(
                    p,
                    h.tables.regrets[p].wrote(
                        dst,
                        to,
                        pulled(h.tables.regrets[p].block(src, from, len), images, nh),
                    ),
                ),
                strat: h.tables.strat.update(
                    p,
                    h.tables.strat[p].wrote(
                        dst,
                        to,
                        pulled(h.tables.strat[p].block(src, from, len), images, nh),
                    ),
                ),
            },
            locks: if h.locks.contains_key(src as u32) {
                h.locks.insert(dst as u32, pulled(h.locks[src as u32], images, nh))
            } else {
                h.locks.remove(dst as u32)
            },
        }
    }

    /// A branch brought in line with the one that permutation `k` moves it
    /// onto.
    pub open spec fn pulled_branch(&self, h: Held<S>, dst: int, src: int, k: int) -> Held<S>
        decreases self.spot.tree.nodes@.len() - dst, 256nat,
    {
        let count = self.spot.tree.nodes@.len();
        if !(0 <= dst < count && 0 <= src < count) {
            h
        } else if self.twins(dst, src) {
            self.pulled_actions(
                self.pulled_node(h, dst, src, k),
                dst,
                src,
                k,
                self.node(dst).num_children as nat,
            )
        } else if self.node(dst).kind == KIND_CHANCE && self.node(src).kind == KIND_CHANCE {
            self.pulled_cards(h, dst, src, k, 52)
        } else {
            h
        }
    }

    /// The branches below the first `n` actions brought in line.
    pub open spec fn pulled_actions(&self, h: Held<S>, dst: int, src: int, k: int, n: nat) -> Held<S>
        decreases self.spot.tree.nodes@.len() - dst, n,
    {
        if n == 0 {
            h
        } else {
            let before = self.pulled_actions(h, dst, src, k, (n - 1) as nat);
            self.pulled_child(before, dst, self.child(dst, n - 1), self.child(src, n - 1), k)
        }
    }

    /// The branches below the first `n` cards brought in line.
    pub open spec fn pulled_cards(&self, h: Held<S>, dst: int, src: int, k: int, n: nat) -> Held<S>
        decreases self.spot.tree.nodes@.len() - dst, n,
    {
        if n == 0 {
            h
        } else {
            let before = self.pulled_cards(h, dst, src, k, (n - 1) as nat);
            let c = n - 1;
            if self.child(dst, c) == SENTINEL {
                before
            } else {
                self.pulled_child(
                    before,
                    dst,
                    self.child(dst, c),
                    self.child(src, cards::permuted(c, self.spot.suit_perms@[k])),
                    k,
                )
            }
        }
    }

    pub open spec fn pulled_child(
        &self,
        h: Held<S>,
        parent: int,
        dst: int,
        src: int,
        k: int,
    ) -> Held<S>
        decreases self.spot.tree.nodes@.len() - parent, 0nat,
    {
        if 0 <= parent < dst < self.spot.tree.nodes@.len() {
            self.pulled_branch(h, dst, src, k)
        } else {
            h
        }
    }

    /// Everything below a node brought in line, given the cards dealt so far.
    pub open spec fn mirrored(&self, h: Held<S>, idx: int, dealt: Seq<Card>) -> Held<S>
        decreases self.spot.tree.nodes@.len() - idx, 256nat,
    {
        if !(0 <= idx < self.spot.tree.nodes@.len()) {
            h
        } else if self.node(idx).kind == KIND_ACTION {
            self.mirrored_actions(h, idx, dealt, self.node(idx).num_children as nat)
        } else if self.node(idx).kind == KIND_CHANCE {
            self.mirrored_cards(h, idx, dealt, 52)
        } else {
            h
        }
    }

    pub open spec fn mirrored_actions(&self, h: Held<S>, idx: int, dealt: Seq<Card>, n: nat) -> Held<
        S,
    >
        decreases self.spot.tree.nodes@.len() - idx, n,
    {
        if n == 0 {
            h
        } else {
            let before = self.mirrored_actions(h, idx, dealt, (n - 1) as nat);
            let c = self.child(idx, n - 1);
            if idx < c < self.spot.tree.nodes@.len() {
                self.mirrored(before, c, dealt)
            } else {
                before
            }
        }
    }

    /// The first `n` cards: one that stands for others is gone into, one that
    /// another stands for is brought in line with it.
    pub open spec fn mirrored_cards(&self, h: Held<S>, idx: int, dealt: Seq<Card>, n: nat) -> Held<S>
        decreases self.spot.tree.nodes@.len() - idx, n,
    {
        if n == 0 {
            h
        } else {
            let before = self.mirrored_cards(h, idx, dealt, (n - 1) as nat);
            let c = n - 1;
            let to = self.child(idx, c);
            let perms = self.spot.suit_perms@;
            let valid = spot::fixing(perms, dealt, perms.len() as int);
            let (rep, by) = canonical::least_under(perms, valid, c, valid.len() as int);
            if !self.comes(idx, dealt, c) {
                before
            } else {
                match by {
                    None => if idx < to < self.spot.tree.nodes@.len() {
                        self.mirrored(before, to, dealt.push(c as u8))
                    } else {
                        before
                    },
                    Some(k) => self.pulled_child(before, idx, to, self.child(idx, rep), k as int),
                }
            }
        }
    }

    /// What a solver holds once its symmetric runouts are in line.
    pub open spec fn settled(&self) -> Held<S> {
        if self.sym_dirty && self.folds_symmetry() {
            self.mirrored(self.held(), 0, Seq::empty())
        } else {
            self.held()
        }
    }

    /// Whether two solvers differ in what mirroring changes alone.
    pub open spec fn sibling(&self, other: &Self) -> bool {
        &&& self.spot == other.spot
        &&& self.iteration == other.iteration
        &&& self.lock_labels == other.lock_labels
        &&& self.use_isomorphism == other.use_isomorphism
        &&& self.sym_dirty == other.sym_dirty
    }
}

fn pull<S: Copy>(block: &Vec<S>, images: &Vec<u16>, na: usize) -> (r: Vec<S>)
    requires
        block@.len() == na * images@.len(),
        forall|i: int| 0 <= i < images@.len() ==> #[trigger] images@[i] < images@.len(),
    ensures
        r@ == pulled(block@, images@, images@.len() as int),
{
    let nh: usize = images.len();
    let size: usize = block.len();
    let ghost want = pulled(block@, images@, nh as int);
    let mut out: Vec<S> = Vec::new();
    let mut j: usize = 0;
    while j < block.len()
        invariant
            j <= block@.len() == size,
            nh == images@.len(),
            block@.len() == na * nh,
            forall|i: int| 0 <= i < images@.len() ==> #[trigger] images@[i] < nh,
            want == pulled(block@, images@, nh as int),
            out@ == want.take(j as int),
        decreases block@.len() - j,
    {
        proof {
            strategy::lemma_place(na as int, nh as int, j as int);
        }
        let i: usize = images[j % nh] as usize;
        proof {
            strategy::lemma_cell(na as int, nh as int, (j / nh) as int, i as int);
        }
        out.push(block[j / nh * nh + i]);
        assert(out@ =~= want.take(j + 1));
        j = j + 1;
    }
    assert(out@ =~= want);
    out
}

fn pull_block<S: Single>(
    store: &mut Store<S>,
    dst: u32,
    to: u64,
    src: u32,
    from: u64,
    images: &Vec<u16>,
    na: usize,
    len: usize,
)
    requires
        forall|i: int| 0 <= i < images@.len() ==> #[trigger] images@[i] < images@.len(),
        len == na * images@.len(),
        to + len <= old(store).entries(),
        from + len <= old(store).entries(),
        old(store).has_node(dst as int),
        old(store).has_node(src as int),
    ensures
        final(store).same_shape(old(store)),
        final(store)@ == old(store)@.wrote(
            dst as int,
            to as int,
            pulled(
                old(store)@.block(src as int, from as int, len as int),
                images@,
                images@.len() as int,
            ),
        ),
{
    let block = store.read_f32(src, from, len);
    assert(block@ == store@.block(src as int, from as int, len as int));
    assert(block@.len() == len);
    let next = pull(&block, images, na);
    let ghost before = *store;
    store.write_f32(dst, to, next.as_slice());
    proof {
        store::lemma_ledger(before, *store, dst as int, to as int, next@);
    }
}

fn pull_stores<S: Single>(
    regrets: &mut [Store<S>; 2],
    strat: &mut [Store<S>; 2],
    p: usize,
    dst: u32,
    to: u64,
    src: u32,
    from: u64,
    images: &Vec<u16>,
    na: usize,
    len: usize,
)
    requires
        p < 2,
        forall|i: int| 0 <= i < images@.len() ==> #[trigger] images@[i] < images@.len(),
        len == na * images@.len(),
        to + len <= old(regrets)[p as int].entries(),
        from + len <= old(regrets)[p as int].entries(),
        to + len <= old(strat)[p as int].entries(),
        from + len <= old(strat)[p as int].entries(),
        old(regrets)[p as int].has_node(dst as int),
        old(regrets)[p as int].has_node(src as int),
        old(strat)[p as int].has_node(dst as int),
        old(strat)[p as int].has_node(src as int),
    ensures
        final(regrets)[0].same_shape(&old(regrets)[0]),
        final(regrets)[1].same_shape(&old(regrets)[1]),
        final(strat)[0].same_shape(&old(strat)[0]),
        final(strat)[1].same_shape(&old(strat)[1]),
        final(regrets)[1 - p]@ == old(regrets)[1 - p]@,
        final(strat)[1 - p]@ == old(strat)[1 - p]@,
        final(regrets)[p as int]@ == old(regrets)[p as int]@.wrote(
            dst as int,
            to as int,
            pulled(
                old(regrets)[p as int]@.block(src as int, from as int, len as int),
                images@,
                images@.len() as int,
            ),
        ),
        final(strat)[p as int]@ == old(strat)[p as int]@.wrote(
            dst as int,
            to as int,
            pulled(
                old(strat)[p as int]@.block(src as int, from as int, len as int),
                images@,
                images@.len() as int,
            ),
        ),
{
    if p == 0 {
        pull_block(&mut regrets[0], dst, to, src, from, images, na, len);
        pull_block(&mut strat[0], dst, to, src, from, images, na, len);
    } else {
        pull_block(&mut regrets[1], dst, to, src, from, images, na, len);
        pull_block(&mut strat[1], dst, to, src, from, images, na, len);
    }
}

/// Whether an arena has a block of `src` pulled to `dst`.
pub open spec fn drawn<S: Single>(
    before: Store<S>,
    after: Store<S>,
    s: Solver<S>,
    dst: int,
    src: int,
    k: int,
) -> bool {
    let p = s.node(dst).player as int;
    after@ == before@.wrote(
        dst,
        s.node(dst).data_offset as int,
        pulled(
            before@.block(src, s.node(src).data_offset as int, s.block_len(dst)),
            s.spot.hand_perm[p]@[k]@,
            s.nh(p),
        ),
    )
}

proof fn lemma_pulled<S: Single>(before: Solver<S>, after: Solver<S>, dst: int, src: int, k: int)
    requires
        before.wf(),
        after.kin(&before),
        before.node(dst).player < 2,
        after.regrets[0].same_shape(&before.regrets[0]),
        after.regrets[1].same_shape(&before.regrets[1]),
        after.strat[0].same_shape(&before.strat[0]),
        after.strat[1].same_shape(&before.strat[1]),
        ({
            let p = before.node(dst).player as int;
            &&& after.regrets[1 - p]@ == before.regrets[1 - p]@
            &&& after.strat[1 - p]@ == before.strat[1 - p]@
            &&& drawn(before.regrets[p], after.regrets[p], before, dst, src, k)
            &&& drawn(before.strat[p], after.strat[p], before, dst, src, k)
        }),
    ensures
        after.wf(),
        after.tables() == before.pulled_node(before.held(), dst, src, k).tables,
{
    engine::lemma_wf(after, before);
    let want = before.pulled_node(before.held(), dst, src, k).tables;
    assert(after.tables().regrets =~= want.regrets);
    assert(after.tables().strat =~= want.strat);
}

impl<S: Single> Solver<S> {
    proof fn lemma_images(&self, p: int, k: int)
        requires
            self.wf(),
            0 <= p < 2,
            0 <= k < self.spot.suit_perms@.len(),
        ensures
            k < self.spot.hand_perm[p]@.len(),
            self.spot.hand_perm[p]@[k]@.len() == self.nh(p),
            forall|i: int|
                0 <= i < self.nh(p) ==> #[trigger] self.spot.hand_perm[p]@[k]@[i] < self.nh(p),
    {
        assert(game::image_tables(
            self.spot.hand_perm[p]@,
            self.spot.hands[p]@,
            self.spot.suit_perms@,
        ));
        assert(game::image_table(
            self.spot.hand_perm[p]@[k]@,
            self.spot.hands[p]@,
            self.spot.suit_perms@[k],
        ));
        assert forall|i: int| 0 <= i < self.nh(p) implies #[trigger] self.spot.hand_perm[p]@[k]@[i]
            < self.nh(p) by {
            assert(game::is_image(
                self.spot.hands[p]@,
                self.spot.suit_perms@[k],
                i,
                self.spot.hand_perm[p]@[k]@[i] as int,
            ));
        }
    }

    proof fn lemma_twins(&self, dst: int, src: int)
        requires
            self.wf(),
            self.twins(dst, src),
        ensures
            ({
                let p = self.node(dst).player as int;
                let entries = self.spot.tree.data_size[p];
                &&& 0 <= p < 2
                &&& self.block_len(dst) == self.block_len(src)
                &&& 0 <= self.block_len(dst) <= 331500
                &&& self.node(dst).data_offset + self.block_len(dst) <= entries
                &&& self.node(src).data_offset + self.block_len(dst) <= entries
                &&& self.regrets[p].entries() == entries
                &&& self.strat[p].entries() == entries
                &&& self.regrets[p].has_node(dst)
                &&& self.regrets[p].has_node(src)
                &&& self.strat[p].has_node(dst)
                &&& self.strat[p].has_node(src)
            }),
    {
        self.lemma_decision(dst);
        self.lemma_decision(src);
    }

    fn pull_tables(&mut self, dst: u32, src: u32, k: usize)
        requires
            old(self).wf(),
            old(self).twins(dst as int, src as int),
            k < old(self).spot.suit_perms@.len(),
        ensures
            final(self).wf(),
            final(self).kin(old(self)),
            final(self).tables() == old(self).pulled_node(
                old(self).held(),
                dst as int,
                src as int,
                k as int,
            ).tables,
    {
        let p: usize = self.spot.tree.nodes[dst as usize].player as usize;
        let na: usize = self.spot.tree.nodes[dst as usize].num_children as usize;
        let to: u64 = self.spot.tree.nodes[dst as usize].data_offset;
        let from: u64 = self.spot.tree.nodes[src as usize].data_offset;
        proof {
            self.lemma_twins(dst as int, src as int);
            self.lemma_images(p as int, k as int);
        }
        let len: usize = na * self.spot.hands[p].len();
        assert(len == self.block_len(dst as int));
        let images = copied(self.spot.hand_perm[p][k].as_slice());
        pull_stores(
            &mut self.regrets,
            &mut self.strat,
            p,
            dst,
            to,
            src,
            from,
            &images,
            na,
            len,
        );
        proof {
            lemma_pulled(*old(self), *self, dst as int, src as int, k as int);
        }
    }

    fn pull_lock(&mut self, dst: u32, src: u32, k: usize)
        requires
            old(self).wf(),
            old(self).twins(dst as int, src as int),
            k < old(self).spot.suit_perms@.len(),
        ensures
            final(self).wf(),
            final(self).sibling(old(self)),
            final(self).tables() == old(self).tables(),
            profile_lock::sigmas(final(self).locks@) == old(self).pulled_node(
                old(self).held(),
                dst as int,
                src as int,
                k as int,
            ).locks,
    {
        let p: usize = self.spot.tree.nodes[dst as usize].player as usize;
        let na: usize = self.spot.tree.nodes[dst as usize].num_children as usize;
        proof {
            self.lemma_decision(dst as int);
            self.lemma_images(p as int, k as int);
            if self.locks@.contains_key(src) {
                assert(self.lock_fits(src));
            }
        }
        let ghost was = profile_lock::sigmas(self.locks@);
        let moved = match self.locks.get(&src) {
            Some(sigma) => Some(pull(sigma, &self.spot.hand_perm[p][k], na)),
            None => None,
        };
        match moved {
            Some(sigma) => {
                self.locks.insert(dst, sigma);
                assert(profile_lock::sigmas(self.locks@) =~= was.insert(dst, sigma@));
            },
            None => {
                self.locks.remove(&dst);
                assert(profile_lock::sigmas(self.locks@) =~= was.remove(dst));
            },
        }
        proof {
            assert forall|x: u32| self.locks@.contains_key(x) implies #[trigger] self.lock_fits(
                x,
            ) by {
                if x != dst {
                    assert(old(self).lock_fits(x));
                }
            }
        }
    }

    fn pull_node(&mut self, dst: u32, src: u32, k: usize)
        requires
            old(self).wf(),
            old(self).twins(dst as int, src as int),
            k < old(self).spot.suit_perms@.len(),
        ensures
            final(self).wf(),
            final(self).sibling(old(self)),
            final(self).held() == old(self).pulled_node(
                old(self).held(),
                dst as int,
                src as int,
                k as int,
            ),
    {
        self.pull_tables(dst, src, k);
        self.pull_lock(dst, src, k);
    }

    fn pull_branch(&mut self, dst: u32, src: u32, k: usize, Ghost(base): Ghost<Solver<S>>)
        requires
            old(self).wf(),
            old(self).sibling(&base),
            dst < base.spot.tree.nodes@.len(),
            src < base.spot.tree.nodes@.len(),
            k < base.spot.suit_perms@.len(),
        ensures
            final(self).wf(),
            final(self).sibling(&base),
            final(self).held() == base.pulled_branch(
                old(self).held(),
                dst as int,
                src as int,
                k as int,
            ),
        decreases base.spot.tree.nodes@.len() - dst,
    {
        let kind: u8 = self.spot.tree.nodes[dst as usize].kind;
        if kind != self.spot.tree.nodes[src as usize].kind {
            return ;
        }
        let na: u8 = self.spot.tree.nodes[dst as usize].num_children;
        let cs: usize = self.spot.tree.nodes[dst as usize].children_start as usize;
        let from: usize = self.spot.tree.nodes[src as usize].children_start as usize;
        let slots: usize = self.spot.tree.children.len();
        let ghost start = self.held();
        if kind == KIND_ACTION {
            if self.spot.tree.nodes[dst as usize].player
                != self.spot.tree.nodes[src as usize].player || na
                != self.spot.tree.nodes[src as usize].num_children {
                return ;
            }
            proof {
                self.lemma_decision(dst as int);
                self.lemma_decision(src as int);
            }
            self.pull_node(dst, src, k);
            let ghost met = self.held();
            assert(met == base.pulled_node(start, dst as int, src as int, k as int));
            let mut a: u8 = 0;
            while a < na
                invariant
                    a <= na,
                    self.wf(),
                    self.sibling(&base),
                    k < base.spot.suit_perms@.len(),
                    base.twins(dst as int, src as int),
                    na == base.node(dst as int).num_children,
                    cs == base.node(dst as int).children_start,
                    from == base.node(src as int).children_start,
                    cs + na <= base.spot.tree.children@.len() == slots,
                    from + na <= slots,
                    self.held() == base.pulled_actions(
                        met,
                        dst as int,
                        src as int,
                        k as int,
                        a as nat,
                    ),
                decreases na - a,
            {
                proof {
                    self.lemma_decision(dst as int);
                    self.lemma_decision(src as int);
                }
                let x: u32 = self.spot.tree.children[cs + a as usize];
                let y: u32 = self.spot.tree.children[from + a as usize];
                assert(x == self.child(dst as int, a as int));
                assert(y == self.child(src as int, a as int));
                let ghost before = self.held();
                self.pull_branch(x, y, k, Ghost(base));
                assert(self.held() == base.pulled_child(
                    before,
                    dst as int,
                    base.child(dst as int, a as int),
                    base.child(src as int, a as int),
                    k as int,
                ));
                assert(self.held() == base.pulled_actions(
                    met,
                    dst as int,
                    src as int,
                    k as int,
                    (a + 1) as nat,
                ));
                a = a + 1;
            }
        } else if kind == KIND_CHANCE {
            proof {
                self.lemma_chance(dst as int);
                self.lemma_chance(src as int);
                self.lemma_suit_perms();
            }
            let pm: [u8; 4] = self.spot.suit_perms[k];
            let mut c: u8 = 0;
            while c < 52
                invariant
                    c <= 52,
                    self.wf(),
                    self.sibling(&base),
                    k < base.spot.suit_perms@.len(),
                    pm == base.spot.suit_perms@[k as int],
                    cards::is_perm(pm),
                    dst < base.spot.tree.nodes@.len(),
                    src < base.spot.tree.nodes@.len(),
                    base.node(dst as int).kind == KIND_CHANCE,
                    base.node(src as int).kind == KIND_CHANCE,
                    cs == base.node(dst as int).children_start,
                    from == base.node(src as int).children_start,
                    cs + 52 <= base.spot.tree.children@.len() == slots,
                    from + 52 <= slots,
                    self.held() == base.pulled_cards(
                        start,
                        dst as int,
                        src as int,
                        k as int,
                        c as nat,
                    ),
                decreases 52 - c,
            {
                proof {
                    self.lemma_chance(dst as int);
                    self.lemma_chance(src as int);
                }
                let x: u32 = self.spot.tree.children[cs + c as usize];
                assert(x == self.child(dst as int, c as int));
                if x != SENTINEL {
                    let image: Card = permute_card(c, &pm);
                    let y: u32 = self.spot.tree.children[from + image as usize];
                    assert(y == self.child(src as int, image as int));
                    let ghost before = self.held();
                    if (y as usize) < self.spot.tree.nodes.len() {
                        self.pull_branch(x, y, k, Ghost(base));
                    }
                    assert(self.held() == base.pulled_child(
                        before,
                        dst as int,
                        base.child(dst as int, c as int),
                        base.child(src as int, image as int),
                        k as int,
                    ));
                }
                assert(self.held() == base.pulled_cards(
                    start,
                    dst as int,
                    src as int,
                    k as int,
                    (c + 1) as nat,
                ));
                c = c + 1;
            }
        }
    }

    fn sweep(&mut self, idx: u32, dealt: Dealt, Ghost(base): Ghost<Solver<S>>)
        requires
            old(self).wf(),
            old(self).sibling(&base),
            dealt.wf(),
            base.dealt_to(idx as int, dealt.list()),
        ensures
            final(self).wf(),
            final(self).sibling(&base),
            final(self).held() == base.mirrored(old(self).held(), idx as int, dealt.list()),
        decreases base.spot.tree.nodes@.len() - idx,
    {
        let kind: u8 = self.spot.tree.nodes[idx as usize].kind;
        let na: u8 = self.spot.tree.nodes[idx as usize].num_children;
        let cs: usize = self.spot.tree.nodes[idx as usize].children_start as usize;
        let slots: usize = self.spot.tree.children.len();
        let ghost start = self.held();
        if kind == KIND_ACTION {
            proof {
                self.lemma_decision(idx as int);
            }
            let mut a: u8 = 0;
            while a < na
                invariant
                    a <= na,
                    self.wf(),
                    self.sibling(&base),
                    dealt.wf(),
                    base.dealt_to(idx as int, dealt.list()),
                    base.decides(idx as int),
                    na == base.node(idx as int).num_children,
                    cs == base.node(idx as int).children_start,
                    cs + na <= base.spot.tree.children@.len() == slots,
                    self.held() == base.mirrored_actions(
                        start,
                        idx as int,
                        dealt.list(),
                        a as nat,
                    ),
                decreases na - a,
            {
                proof {
                    self.lemma_decision(idx as int);
                }
                let child: u32 = self.spot.tree.children[cs + a as usize];
                assert(child == self.child(idx as int, a as int));
                self.sweep(child, dealt, Ghost(base));
                a = a + 1;
            }
        } else if kind == KIND_CHANCE {
            let valid = self.spot.perms_fixing(&dealt);
            let ghost perms = base.spot.suit_perms@;
            proof {
                self.lemma_chance(idx as int);
                self.lemma_suit_perms();
                canonical::lemma_fixing_inside(perms, dealt.list(), perms.len() as int);
            }
            let mut c: u8 = 0;
            while c < 52
                invariant
                    c <= 52,
                    self.wf(),
                    self.sibling(&base),
                    dealt.wf(),
                    base.dealt_to(idx as int, dealt.list()),
                    base.node(idx as int).kind == KIND_CHANCE,
                    cs == base.node(idx as int).children_start,
                    cs + 52 <= base.spot.tree.children@.len() == slots,
                    perms == base.spot.suit_perms@,
                    canonical::all_perms(perms),
                    valid@ == spot::fixing(perms, dealt.list(), perms.len() as int),
                    forall|x: int| 0 <= x < valid@.len() ==> (#[trigger] valid@[x]) < perms.len(),
                    self.held() == base.mirrored_cards(
                        start,
                        idx as int,
                        dealt.list(),
                        c as nat,
                    ),
                decreases 52 - c,
            {
                let child: u32 = self.spot.tree.children[cs + c as usize];
                assert(child == base.child(idx as int, c as int));
                if child != SENTINEL && !dealt.contains(c) {
                    proof {
                        self.lemma_chance(idx as int);
                        self.lemma_deal(idx as int, dealt.list(), c as int);
                    }
                    let (rep, by) = self.representative(&valid, c);
                    match by {
                        None => {
                            self.sweep(child, dealt.push(c), Ghost(base));
                        },
                        Some(k) => {
                            let from: u32 = self.spot.tree.children[cs + rep as usize];
                            assert(from == base.child(idx as int, rep as int));
                            if (from as usize) < self.spot.tree.nodes.len() {
                                self.pull_branch(child, from, k, Ghost(base));
                            }
                        },
                    }
                }
                c = c + 1;
            }
        }
    }

    /// Brings the runouts that others stand for in line with them, where
    /// anything has changed since that was last done.
    pub fn ensure_symmetric(&mut self)
        requires
            old(self).wf(),
        ensures
            final(self).wf(),
            final(self).held() == old(self).settled(),
            final(self).spot == old(self).spot,
            final(self).iteration == old(self).iteration,
            final(self).lock_labels == old(self).lock_labels,
            final(self).use_isomorphism == old(self).use_isomorphism,
            !final(self).sym_dirty,
    {
        if self.sym_dirty && self.use_isomorphism && self.spot.suit_perms.len() >= 2 {
            let ghost base = *self;
            proof {
                self.lemma_root();
            }
            let none = Dealt::default();
            self.sweep(0, none, Ghost(base));
        }
        let ghost swept = *self;
        self.sym_dirty = false;
        proof {
            engine::lemma_wf(*self, swept);
        }
    }
}

} // verus!
