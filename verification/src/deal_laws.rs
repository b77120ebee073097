//! Which hands are dealt: those of the range that the board leaves, each once
//! and with its weight.

use crate::cards;
use crate::cards::{Card, NUM_COMBOS};
use crate::game;
use crate::game::HandInfo;
use crate::nano;
use crate::nano::Nano;
use crate::num::Num;
use crate::value_laws;
use vstd::prelude::*;

verus! {

proof fn lemma_two_bits(m: u64, a: u64, b: u64)
    by (bit_vector)
    requires
        a < 64,
        b < 64,
    ensures
        ((1u64 << a) | (1u64 << b)) & m == 0 <==> (m & (1u64 << a) == 0 && m & (1u64 << b) == 0),
{
}

/// Whether a list holds the hand of two cards in place `i`.
pub open spec fn dealt_at(hands: Seq<HandInfo<Nano>>, a: Card, b: Card, i: int) -> bool {
    0 <= i < hands.len() && hands[i].c1 == a && hands[i].c2 == b
}

proof fn lemma_upto(weights: Seq<Nano>, mask: u64, n: int, a: Card, b: Card) -> (i: int)
    requires
        0 <= n <= NUM_COMBOS,
        b < a < 52,
    ensures
        ({
            let hands = game::hands_upto(weights, mask, n);
            let k = cards::combo_number(a as int, b as int);
            &&& k < n && game::playable(weights, mask, k) ==> dealt_at(hands, a, b, i) && hands[i]
                == game::hand_at(weights, k)
            &&& forall|j: int|
                #[trigger] dealt_at(hands, a, b, j) ==> k < n && game::playable(weights, mask, k)
                    && j == i
        }),
    decreases n,
{
    let k = cards::combo_number(a as int, b as int);
    if n <= 0 {
        0
    } else {
        let before = game::hands_upto(weights, mask, n - 1);
        let hands = game::hands_upto(weights, mask, n);
        let i = lemma_upto(weights, mask, n - 1, a, b);
        cards::law_combo_cards(n - 1);
        let (c, d) = cards::combo_cards(n - 1);
        if c == a && d == b {
            assert(k == n - 1);
        }
        if k == n - 1 {
            cards::law_combo_number_is_injective(a as int, b as int, c as int, d as int);
        }
        if game::playable(weights, mask, n - 1) {
            assert(hands == before.push(game::hand_at(weights, n - 1)));
            let r = if k == n - 1 {
                before.len() as int
            } else {
                i
            };
            assert forall|j: int| #[trigger] dealt_at(hands, a, b, j) implies k < n
                && game::playable(weights, mask, k) && j == r by {
                if j < before.len() {
                    assert(dealt_at(before, a, b, j));
                }
            }
            if k < n - 1 && game::playable(weights, mask, k) {
                assert(dealt_at(before, a, b, i));
            }
            r
        } else {
            assert(hands == before);
            i
        }
    }
}

/// Law: the hands of a range on a board are those of its combos that weigh
/// something and hold no card of the board, each in one place and with its
/// weight.
pub proof fn law_ranges_are_dealt_around_the_board(
    weights: Seq<Nano>,
    board: Seq<Card>,
    a: Card,
    b: Card,
) -> (i: int)
    requires
        game::all_cards(board),
        b < a < 52,
    ensures
        ({
            let hands = game::hands_of(weights, cards::mask_of(board));
            let weight = weights[cards::combo_number(a as int, b as int)];
            &&& weight.count > 0 && !board.contains(a) && !board.contains(b) <==> dealt_at(
                hands,
                a,
                b,
                i,
            )
            &&& dealt_at(hands, a, b, i) ==> hands[i].weight == weight
            &&& forall|j: int| #[trigger] dealt_at(hands, a, b, j) ==> j == i
        }),
{
    let mask = cards::mask_of(board);
    let k = cards::combo_number(a as int, b as int);
    assert(nano::ten_to(0) == 1);
    value_laws::lemma_mask_holds(board, a);
    value_laws::lemma_mask_holds(board, b);
    lemma_two_bits(mask, a as u64, b as u64);
    cards::lemma_pairs_step(a as int);
    cards::lemma_pairs_monotone(a as int, a as int);
    cards::lemma_pairs_monotone(a + 1, 52);
    assert(cards::pairs_below(52) == 1326) by (nonlinear_arith);
    cards::law_combo_cards(k);
    let (c, d) = cards::combo_cards(k);
    cards::law_combo_number_is_injective(a as int, b as int, c as int, d as int);
    let i = lemma_upto(weights, mask, NUM_COMBOS as int, a, b);
    i
}

} // verus!
