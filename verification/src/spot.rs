//! Questions asked of a built [`Spot`]: which symmetries survive a deal, and
//! how much memory a solve takes.

use crate::cards::{permute_card, Card, NUM_COMBOS};
use crate::cards;
use crate::game::{Dealt, HandInfo, Spot};
use crate::game;
use crate::num::Num;
use crate::store::Storage;
use crate::tree::{Node, KIND_ACTION, SENTINEL};
use crate::tree_laws;
use vstd::prelude::*;

verus! {

/// Which of the first `n` permutations fix every card of `cs`.
pub open spec fn fixing(perms: Seq<[u8; 4]>, cs: Seq<Card>, n: int) -> Seq<usize>
    decreases n,
{
    if n <= 0 {
        Seq::empty()
    } else if game::fixes(perms[n - 1], cs) {
        fixing(perms, cs, n - 1).push((n - 1) as usize)
    } else {
        fixing(perms, cs, n - 1)
    }
}

/// How many nodes are decisions.
pub open spec fn decisions<N>(nodes: Seq<Node<N>>) -> nat
    decreases nodes.len(),
{
    if nodes.len() == 0 {
        0
    } else if nodes.last().kind == KIND_ACTION {
        decisions(nodes.drop_last()) + 1
    } else {
        decisions(nodes.drop_last())
    }
}

/// Every permutation found is a permutation of the suits.
pub proof fn lemma_symmetries_are_perms<S: Num>(
    board: Seq<Card>,
    h0: Seq<HandInfo<S>>,
    h1: Seq<HandInfo<S>>,
    n: int,
)
    ensures
        forall|k: int|
            0 <= k < game::symmetries(board, h0, h1, n).len() ==> cards::is_perm(
                #[trigger] game::symmetries(board, h0, h1, n)[k],
            ),
        n >= 0 ==> game::symmetries(board, h0, h1, n).len() <= n,
    decreases n,
{
    if n > 0 {
        lemma_symmetries_are_perms(board, h0, h1, n - 1);
        let before = game::symmetries(board, h0, h1, n - 1);
        let all = game::symmetries(board, h0, h1, n);
        assert forall|k: int| 0 <= k < all.len() implies cards::is_perm(#[trigger] all[k]) by {
            if k < before.len() {
                assert(all[k] == before[k]);
            }
        }
    }
}

proof fn lemma_blocks_bounded<N>(nodes: Seq<Node<N>>, p: int, hands: int)
    requires
        0 <= hands <= NUM_COMBOS,
        forall|j: int| 0 <= j < nodes.len() ==> (#[trigger] nodes[j]).num_children <= 255,
    ensures
        0 <= tree_laws::blocks(nodes, p, hands) <= nodes.len() * 338130,
    decreases nodes.len(),
{
    if nodes.len() > 0 {
        lemma_blocks_bounded(nodes.drop_last(), p, hands);
        let n = nodes.last();
        assert(0 <= n.num_children * hands <= 255 * 1326) by (nonlinear_arith)
            requires
                0 <= n.num_children <= 255,
                0 <= hands <= 1326,
        ;
        assert(nodes.len() * 338130 == (nodes.len() - 1) * 338130 + 338130) by (nonlinear_arith);
    }
}

/// Bytes that the arenas of a spot take under a storage mode.
pub open spec fn arena_size(storage: Storage, entries: int, nodes: int) -> int {
    match storage {
        Storage::F32 => entries * 8,
        Storage::Compressed => entries * 4 + nodes * 16,
    }
}

impl<N: Num, S: Num> Spot<N, S> {
    pub open spec fn entries(&self) -> int {
        self.tree.data_size[0] + self.tree.data_size[1]
    }

    pub proof fn lemma_sizes(&self)
        requires
            self.wf(),
        ensures
            0 <= self.entries() <= 676260 * self.tree.nodes@.len(),
            self.tree.nodes@.len() <= SENTINEL,
    {
        let nodes = self.tree.nodes@;
        let counts = [self.hands[0]@.len() as u64, self.hands[1]@.len() as u64];
        assert(tree_laws::measured(self.tree.arena(), counts));
        assert(self.tree.arena().nodes == nodes);
        assert(counts[0] == self.hands[0]@.len() && counts[1] == self.hands[1]@.len());
        assert(self.tree.data_size[0] == tree_laws::blocks(nodes, 0, self.hands[0]@.len() as int));
        assert(self.tree.data_size[1] == tree_laws::blocks(nodes, 1, self.hands[1]@.len() as int));
        lemma_blocks_bounded(nodes, 0, self.hands[0]@.len() as int);
        lemma_blocks_bounded(nodes, 1, self.hands[1]@.len() as int);
    }

    /// Indices into suit_perms that fix every dealt card (the stabilizer of
    /// the cards revealed so far).
    pub fn perms_fixing(&self, dealt: &Dealt) -> (r: Vec<usize>)
        requires
            self.wf(),
            dealt.wf(),
            game::all_cards(dealt.list()),
        ensures
            r@ == fixing(self.suit_perms@, dealt.list(), self.suit_perms@.len() as int),
    {
        let mut out: Vec<usize> = Vec::new();
        let mut k: usize = 0;
        proof {
            lemma_symmetries_are_perms(self.board@, self.hands[0]@, self.hands[1]@, 256);
        }
        while k < self.suit_perms.len()
            invariant
                k <= self.suit_perms@.len(),
                dealt.wf(),
                game::all_cards(dealt.list()),
                forall|j: int|
                    0 <= j < self.suit_perms@.len() ==> cards::is_perm(
                        #[trigger] self.suit_perms@[j],
                    ),
                out@ == fixing(self.suit_perms@, dealt.list(), k as int),
            decreases self.suit_perms@.len() - k,
        {
            let pm: [u8; 4] = self.suit_perms[k];
            let mut keeps: bool = true;
            let mut i: usize = 0;
            let n: usize = dealt.len as usize;
            assert(cards::is_perm(pm));
            while i < n
                invariant
                    i <= n,
                    n == dealt.list().len(),
                    dealt.wf(),
                    game::all_cards(dealt.list()),
                    cards::is_perm(pm),
                    keeps == game::fixes(pm, dealt.list().take(i as int)),
                decreases n - i,
            {
                let c: u8 = dealt.cards[i];
                assert(c == dealt.list()[i as int]);
                let ghost before = dealt.list().take(i as int);
                let ghost after = dealt.list().take(i + 1);
                let stays: bool = permute_card(c, &pm) == c;
                proof {
                    assert(after =~= before.push(c));
                    assert(forall|m: int| 0 <= m < before.len() ==> before[m] == after[m]);
                    if keeps && stays {
                        assert(game::fixes(pm, after));
                    } else if game::fixes(pm, after) {
                        assert(after[i as int] == c);
                        assert forall|m: int| 0 <= m < before.len() implies cards::permuted(
                            #[trigger] before[m] as int,
                            pm,
                        ) == before[m] by {
                            assert(after[m] == before[m]);
                        }
                        assert(false);
                    }
                }
                if !stays {
                    keeps = false;
                }
                i = i + 1;
            }
            assert(dealt.list().take(n as int) =~= dealt.list());
            if keeps {
                out.push(k);
            }
            k = k + 1;
        }
        out
    }

    /// Estimated memory for solver arenas, in bytes (full storage).
    pub fn arena_bytes(&self) -> (r: u64)
        requires
            self.wf(),
        ensures
            r == arena_size(Storage::F32, self.entries(), self.tree.nodes@.len() as int),
    {
        self.arena_bytes_for(Storage::F32)
    }

    /// Estimated memory for solver arenas under a given storage mode.
    pub fn arena_bytes_for(&self, storage: Storage) -> (r: u64)
        requires
            self.wf(),
        ensures
            r == arena_size(storage, self.entries(), self.tree.nodes@.len() as int),
    {
        proof {
            self.lemma_sizes();
        }
        let entries: u64 = self.tree.data_size[0] + self.tree.data_size[1];
        match storage {
            Storage::F32 => entries * 2 * 4,
            // 2 bytes per entry plus four per-node scale arrays
            Storage::Compressed => entries * 2 * 2 + self.tree.nodes.len() as u64 * 16,
        }
    }

    /// Rough VRAM needed to solve this spot on the GPU: per-node hand staging
    /// buffers, regret and strategy arenas of 4 bytes per entry, and slack for
    /// river/lock tables.
    pub fn vram_estimate_bytes(&self) -> (r: u64)
        requires
            self.wf(),
        ensures
            r == {
                let h0 = self.hands[0]@.len();
                let h1 = self.hands[1]@.len();
                let top = if h0 < h1 {
                    h1
                } else {
                    h0
                };
                self.tree.nodes@.len() * (h0 + h1 + top) * 4 + self.entries() * 8 + 536870912
            },
    {
        proof {
            self.lemma_sizes();
        }
        let n: u64 = self.tree.nodes.len() as u64;
        let nh0: u64 = self.hands[0].len() as u64;
        let nh1: u64 = self.hands[1].len() as u64;
        let nh_max: u64 = if nh0 < nh1 {
            nh1
        } else {
            nh0
        };
        assert(n * (nh0 + nh1 + nh_max) <= 4294967295 * 3978) by (nonlinear_arith)
            requires
                n <= 4294967295,
                nh0 + nh1 + nh_max <= 3978,
        ;
        let staging: u64 = n * (nh0 + nh1 + nh_max) * 4;
        let arenas: u64 = (self.tree.data_size[0] + self.tree.data_size[1]) * 2 * 4;
        staging + arenas + 512 * 1024 * 1024
    }

    /// How many decisions the tree has.
    pub fn num_action_nodes(&self) -> (r: usize)
        ensures
            r == decisions(self.tree.nodes@),
    {
        let mut count: usize = 0;
        let mut i: usize = 0;
        assert(self.tree.nodes@.take(0) =~= Seq::<Node<N>>::empty());
        while i < self.tree.nodes.len()
            invariant
                i <= self.tree.nodes@.len(),
                count == decisions(self.tree.nodes@.take(i as int)),
                count <= i,
            decreases self.tree.nodes@.len() - i,
        {
            assert(self.tree.nodes@.take(i + 1).drop_last() =~= self.tree.nodes@.take(i as int));
            if self.tree.nodes[i].kind == KIND_ACTION {
                count = count + 1;
            }
            i = i + 1;
        }
        assert(self.tree.nodes@.take(i as int) =~= self.tree.nodes@);
        count
    }
}

/// No permutation of the suits comes before the identity.
proof fn lemma_none_before_identity<S: Num>(
    board: Seq<Card>,
    h0: Seq<HandInfo<S>>,
    h1: Seq<HandInfo<S>>,
    n: int,
)
    requires
        n <= 27,
    ensures
        game::symmetries(board, h0, h1, n).len() == 0,
    decreases n,
{
    if n > 0 {
        lemma_none_before_identity(board, h0, h1, n - 1);
        let pm = cards::digits(n - 1);
        assert(!cards::is_perm(pm));
    }
}

proof fn lemma_first_stays<S: Num>(
    board: Seq<Card>,
    h0: Seq<HandInfo<S>>,
    h1: Seq<HandInfo<S>>,
    n: int,
)
    requires
        n >= 28,
        game::symmetries(board, h0, h1, 28).len() > 0,
    ensures
        game::symmetries(board, h0, h1, n).len() > 0,
        game::symmetries(board, h0, h1, n)[0] == game::symmetries(board, h0, h1, 28)[0],
    decreases n,
{
    if n > 28 {
        lemma_first_stays(board, h0, h1, n - 1);
    }
}

/// A weight is as near to itself as it must be to count as unchanged.
pub open spec fn self_near<S: Num>(hands: Seq<HandInfo<S>>) -> bool {
    forall|i: int|
        0 <= i < hands.len() ==> game::near_weight(
            (#[trigger] hands[i]).weight,
            hands[i].weight,
        )
}

/// Law: the first symmetry of a spot is the identity, so that there always is
/// one, and index 0 of the hand tables changes nothing.
pub proof fn law_first_symmetry_is_identity<N: Num, S: Num>(spot: Spot<N, S>)
    requires
        spot.wf(),
        self_near(spot.hands[0]@),
        self_near(spot.hands[1]@),
    ensures
        spot.suit_perms@.len() > 0,
        spot.suit_perms@[0] == [0u8, 1, 2, 3],
        forall|p: int, i: int|
            #![trigger spot.hand_perm[p]@[0]@[i]]
            0 <= p < 2 && 0 <= i < spot.hands[p]@.len() ==> spot.hand_perm[p]@[0]@[i] == i,
{
    let board = spot.board@;
    let h0 = spot.hands[0]@;
    let h1 = spot.hands[1]@;
    let id = cards::digits(27);
    assert(id =~= [0u8, 1, 2, 3]);
    assert(cards::is_perm(id));
    lemma_identity_images(h0, id);
    lemma_identity_images(h1, id);
    assert(game::fixes(id, board));
    lemma_none_before_identity(board, h0, h1, 27);
    lemma_first_stays(board, h0, h1, 256);
    assert forall|p: int, i: int|
        #![trigger spot.hand_perm[p]@[0]@[i]]
        0 <= p < 2 && 0 <= i < spot.hands[p]@.len() implies spot.hand_perm[p]@[0]@[i] == i by {
        let hands = spot.hands[p]@;
        let table = spot.hand_perm[p]@[0]@;
        assert(game::image_table(table, hands, spot.suit_perms@[0]));
        assert(game::is_image(hands, id, i, table[i] as int));
        lemma_identity_image(hands, id, i, table[i] as int);
    }
}

/// Under the identity a hand is its own image.
proof fn lemma_identity_images<S: Num>(hands: Seq<HandInfo<S>>, id: [u8; 4])
    requires
        id == [0u8, 1, 2, 3],
        game::listed(hands, NUM_COMBOS as int),
        self_near(hands),
    ensures
        game::symmetric(hands, id),
{
    assert forall|i: int| 0 <= i < hands.len() implies game::has_image(hands, id, i) by {
        assert(game::is_image(hands, id, i, i));
    }
}

/// Under the identity a hand is its only image.
proof fn lemma_identity_image<S: Num>(hands: Seq<HandInfo<S>>, id: [u8; 4], i: int, j: int)
    requires
        id == [0u8, 1, 2, 3],
        game::listed(hands, NUM_COMBOS as int),
        0 <= i < hands.len(),
        game::is_image(hands, id, i, j),
    ensures
        i == j,
{
}

} // verus!
