//! A `Spot` bundles everything needed to solve one postflop scenario:
//! the built tree, both players' hand lists, and precomputed river strengths.

use crate::cards::{
    card_mask, cards_mask, combo_from_index, combo_index, parse_cards, permute_card, Card,
    CardError, NUM_COMBOS,
};
use crate::cards;
use crate::evaluator::evaluate7;
use crate::evaluator;
use crate::num::{magnitude, Num};
use crate::num;
use crate::range::{Range, RangeError, RangeFault};
use crate::range;
use crate::sort::{sort_ranked, Ranked};
use crate::sort;
use crate::tree::{BuildError, Strictness, Tree, TreeBuilder, TreeConfig, KIND_ACTION, SENTINEL};
use crate::tree;
use crate::tree_laws;
use rayon::iter::{IntoParallelRefIterator, ParallelIterator};
use vstd::prelude::*;

verus! {

/// A hand of a player's range.
#[derive(Clone, Copy, Debug)]
pub struct HandInfo<S> {
    pub c1: Card,
    pub c2: Card,
    pub weight: S,
    pub mask: u64,
}

#[derive(Clone, Debug)]
pub struct SpotConfig<N> {
    pub board: String,
    pub range_oop: String,
    pub range_ip: String,
    pub tree: TreeConfig<N>,
}

/// Per-river-board sorted hand strengths for both players.
/// Hands conflicting with the full 5-card board are excluded.
pub struct RiverBoardEval {
    /// (strength, index into Spot::hands[p]) sorted ascending by strength.
    pub sorted: [Vec<Ranked>; 2],
}

/// Board cards dealt during traversal (beyond the initial board).
#[derive(Clone, Copy, Debug)]
pub struct Dealt {
    pub cards: [Card; 2],
    pub len: u8,
}

impl Dealt {
    /// At most two cards can be dealt.
    pub open spec fn wf(&self) -> bool {
        self.len <= 2
    }

    /// The dealt cards, in order.
    pub open spec fn list(&self) -> Seq<Card> {
        self.cards@.take(self.len as int)
    }

    pub fn push(self, c: Card) -> (r: Self)
        requires
            self.len < 2,
        ensures
            r.wf(),
            r.len == self.len + 1,
            r.list() == self.list().push(c),
    {
        let cards: [Card; 2] = if self.len == 0 {
            [c, self.cards[1]]
        } else {
            [self.cards[0], c]
        };
        let r = Dealt { cards, len: self.len + 1 };
        assert(r.list() =~= self.list().push(c));
        r
    }

    pub fn contains(&self, c: Card) -> (r: bool)
        requires
            self.wf(),
        ensures
            r == self.list().contains(c),
    {
        let r = (self.len > 0 && self.cards[0] == c) || (self.len > 1 && self.cards[1] == c);
        proof {
            let s = self.list();
            if r {
                if self.len > 0 && self.cards[0] == c {
                    assert(s[0] == c);
                } else {
                    assert(s[1] == c);
                }
            } else if s.contains(c) {
                let i = choose|i: int| 0 <= i < s.len() && s[i] == c;
                assert(i == 0 || i == 1);
            }
        }
        r
    }
}

impl Default for Dealt {
    fn default() -> (r: Self)
        ensures
            r.wf(),
            r.list() == Seq::<Card>::empty(),
    {
        let r = Dealt { cards: [0, 0], len: 0 };
        assert(r.list() =~= Seq::<Card>::empty());
        r
    }
}

// ---------------------------------------------------------------------------
// Hands
// ---------------------------------------------------------------------------

pub open spec fn pair_mask(a: Card, b: Card) -> u64 {
    cards::mask_spec(a) | cards::mask_spec(b)
}

/// The hand of a combo number.
pub open spec fn hand_at<S>(weights: Seq<S>, idx: int) -> HandInfo<S> {
    let (a, b) = cards::combo_cards(idx);
    HandInfo { c1: a, c2: b, weight: weights[idx], mask: pair_mask(a, b) }
}

/// Whether a combo is in the range and not blocked by the board.
pub open spec fn playable<S: Num>(weights: Seq<S>, board_mask: u64, idx: int) -> bool {
    &&& !weights[idx].at_most_spec(S::decimal_spec(0, 0))
    &&& hand_at(weights, idx).mask & board_mask == 0
}

/// The playable hands among the first `n` combos, in order.
pub open spec fn hands_upto<S: Num>(weights: Seq<S>, board_mask: u64, n: int) -> Seq<HandInfo<S>>
    decreases n,
{
    if n <= 0 {
        Seq::empty()
    } else if playable(weights, board_mask, n - 1) {
        hands_upto(weights, board_mask, n - 1).push(hand_at(weights, n - 1))
    } else {
        hands_upto(weights, board_mask, n - 1)
    }
}

/// The hands that a range leaves on a board.
pub open spec fn hands_of<S: Num>(weights: Seq<S>, board_mask: u64) -> Seq<HandInfo<S>> {
    hands_upto(weights, board_mask, NUM_COMBOS as int)
}

/// The combo number of a hand.
pub open spec fn hand_number<S>(h: HandInfo<S>) -> int {
    cards::combo_number(h.c1 as int, h.c2 as int)
}

/// A hand list: real hands below `n` in ascending order of combo number.
pub open spec fn listed<S>(hands: Seq<HandInfo<S>>, n: int) -> bool {
    &&& forall|i: int|
        0 <= i < hands.len() ==> {
            let h = #[trigger] hands[i];
            &&& h.c2 < h.c1 < 52
            &&& h.mask == pair_mask(h.c1, h.c2)
            &&& 0 <= hand_number(h) < n
        }
    &&& forall|i: int, j: int|
        0 <= i < j < hands.len() ==> hand_number(#[trigger] hands[i]) < hand_number(
            #[trigger] hands[j],
        )
}

proof fn lemma_hands_listed<S: Num>(weights: Seq<S>, board_mask: u64, n: int)
    requires
        0 <= n <= NUM_COMBOS,
    ensures
        listed(hands_upto(weights, board_mask, n), n),
        hands_upto(weights, board_mask, n).len() <= n,
    decreases n,
{
    if n > 0 {
        lemma_hands_listed(weights, board_mask, n - 1);
        cards::law_combo_cards(n - 1);
    }
}

fn collect_hands<S: Num>(range: &Range<S>, board_mask: u64) -> (r: Vec<HandInfo<S>>)
    requires
        range.wf(),
    ensures
        r@ == hands_of(range.weights@, board_mask),
        listed(r@, NUM_COMBOS as int),
        r@.len() <= NUM_COMBOS,
{
    let zero = S::decimal(0, 0);
    let mut out: Vec<HandInfo<S>> = Vec::new();
    let mut idx: usize = 0;
    while idx < NUM_COMBOS
        invariant
            idx <= NUM_COMBOS,
            range.wf(),
            zero == S::decimal_spec(0, 0),
            out@ == hands_upto(range.weights@, board_mask, idx as int),
        decreases NUM_COMBOS - idx,
    {
        let w = range.weights[idx];
        let (c1, c2) = combo_from_index(idx);
        let mask: u64 = card_mask(c1) | card_mask(c2);
        if !w.at_most(zero) && mask & board_mask == 0 {
            out.push(HandInfo { c1, c2, weight: w, mask });
        }
        idx = idx + 1;
    }
    proof {
        lemma_hands_listed(range.weights@, board_mask, NUM_COMBOS as int);
    }
    out
}

/// Where each combo number stands in a hand list, `SENTINEL` for those that
/// are not in it.
pub open spec fn locates<S>(table: Seq<u32>, hands: Seq<HandInfo<S>>) -> bool {
    &&& table.len() == NUM_COMBOS
    &&& forall|i: int| 0 <= i < hands.len() ==> table[hand_number(#[trigger] hands[i])] == i
    &&& forall|k: int|
        0 <= k < NUM_COMBOS && #[trigger] table[k] != SENTINEL ==> table[k] < hands.len()
            && hand_number(hands[table[k] as int]) == k
}

fn locate<S: Num>(hands: &Vec<HandInfo<S>>) -> (r: Vec<u32>)
    requires
        listed(hands@, NUM_COMBOS as int),
        hands@.len() <= NUM_COMBOS,
    ensures
        locates(r@, hands@),
{
    let mut table: Vec<u32> = Vec::new();
    let mut k: usize = 0;
    while k < NUM_COMBOS
        invariant
            k <= NUM_COMBOS,
            table@.len() == k,
            forall|m: int| 0 <= m < k ==> table@[m] == SENTINEL,
        decreases NUM_COMBOS - k,
    {
        table.push(SENTINEL);
        k = k + 1;
    }
    let mut i: usize = 0;
    while i < hands.len()
        invariant
            i <= hands@.len() <= NUM_COMBOS,
            listed(hands@, NUM_COMBOS as int),
            table@.len() == NUM_COMBOS,
            forall|j: int| 0 <= j < i ==> table@[hand_number(#[trigger] hands@[j])] == j,
            forall|m: int|
                0 <= m < NUM_COMBOS && #[trigger] table@[m] != SENTINEL ==> table@[m] < i
                    && hand_number(hands@[table@[m] as int]) == m,
        decreases hands@.len() - i,
    {
        let h = hands[i];
        assert(h.c2 < h.c1 < 52);
        let at: usize = combo_index(h.c1, h.c2);
        let ghost before = table@;
        table.set(at, i as u32);
        assert forall|j: int| 0 <= j < i + 1 implies table@[hand_number(#[trigger] hands@[j])]
            == j by {
            if j < i {
                assert(hand_number(hands@[j]) < hand_number(hands@[i as int]));
                assert(before[hand_number(hands@[j])] == j);
            }
        }
        i = i + 1;
    }
    table
}

/// For each hand, where the opponent holds the same combo.
pub open spec fn cross_indexed<S>(
    same: Seq<u32>,
    mine: Seq<HandInfo<S>>,
    opp: Seq<HandInfo<S>>,
) -> bool {
    &&& same.len() == mine.len()
    &&& forall|i: int|
        0 <= i < mine.len() ==> {
            let j = #[trigger] same[i];
            if j == SENTINEL {
                forall|k: int|
                    0 <= k < opp.len() ==> hand_number(#[trigger] opp[k]) != hand_number(mine[i])
            } else {
                j < opp.len() && hand_number(opp[j as int]) == hand_number(mine[i])
            }
        }
}

fn cross_index<S: Num>(mine: &Vec<HandInfo<S>>, opp: &Vec<HandInfo<S>>, table: &Vec<u32>) -> (r: Vec<
    u32,
>)
    requires
        listed(mine@, NUM_COMBOS as int),
        opp@.len() <= NUM_COMBOS,
        locates(table@, opp@),
    ensures
        cross_indexed(r@, mine@, opp@),
{
    let mut out: Vec<u32> = Vec::new();
    let mut i: usize = 0;
    while i < mine.len()
        invariant
            i <= mine@.len(),
            listed(mine@, NUM_COMBOS as int),
            opp@.len() <= NUM_COMBOS,
            locates(table@, opp@),
            cross_indexed(out@, mine@.take(i as int), opp@),
        decreases mine@.len() - i,
    {
        let h = mine[i];
        assert(h.c2 < h.c1 < 52);
        let at: usize = combo_index(h.c1, h.c2);
        let j: u32 = table[at];
        proof {
            if j == SENTINEL {
                assert forall|k: int| 0 <= k < opp@.len() implies hand_number(#[trigger] opp@[k])
                    != hand_number(h) by {
                    assert(table@[hand_number(opp@[k])] == k);
                }
            }
        }
        out.push(j);
        assert forall|m: int| 0 <= m < i + 1 implies ({
            let j = #[trigger] out@[m];
            if j == SENTINEL {
                forall|k: int|
                    0 <= k < opp@.len() ==> hand_number(#[trigger] opp@[k]) != hand_number(
                        mine@.take(i + 1)[m],
                    )
            } else {
                j < opp@.len() && hand_number(opp@[j as int]) == hand_number(mine@.take(i + 1)[m])
            }
        }) by {
            if m < i {
                assert(mine@.take(i as int)[m] == mine@.take(i + 1)[m]);
            }
        }
        i = i + 1;
    }
    assert(mine@.take(mine@.len() as int) =~= mine@);
    out
}

// ---------------------------------------------------------------------------
// Suit symmetry
// ---------------------------------------------------------------------------

/// Whether two weights are less than 1e-6 apart.
pub open spec fn near_weight<S: Num>(a: S, b: S) -> bool {
    num::magnitude_of(a.minus_spec(b)).below_spec(S::decimal_spec(1, 6))
}

/// Hand `j` is hand `i` with the suits renamed, and weighs the same.
pub open spec fn is_image<S: Num>(hands: Seq<HandInfo<S>>, pm: [u8; 4], i: int, j: int) -> bool {
    &&& 0 <= j < hands.len()
    &&& hand_number(hands[j]) == cards::combo_number(
        cards::permuted(hands[i].c1 as int, pm),
        cards::permuted(hands[i].c2 as int, pm),
    )
    &&& near_weight(hands[j].weight, hands[i].weight)
}

/// Hand `i` has an image.
pub open spec fn has_image<S: Num>(hands: Seq<HandInfo<S>>, pm: [u8; 4], i: int) -> bool {
    exists|j: int| is_image(hands, pm, i, j)
}

/// Renaming the suits maps the hand list onto itself.
pub open spec fn symmetric<S: Num>(hands: Seq<HandInfo<S>>, pm: [u8; 4]) -> bool {
    forall|i: int| 0 <= i < hands.len() ==> #[trigger] has_image(hands, pm, i)
}

/// Renaming the suits leaves every card of a list as it is.
pub open spec fn fixes(pm: [u8; 4], cs: Seq<Card>) -> bool {
    forall|i: int| 0 <= i < cs.len() ==> cards::permuted(#[trigger] cs[i] as int, pm) == cs[i]
}

/// Whether a renaming is a symmetry of the board and both ranges.
pub open spec fn is_symmetry<S: Num>(
    pm: [u8; 4],
    board: Seq<Card>,
    oop: Seq<HandInfo<S>>,
    ip: Seq<HandInfo<S>>,
) -> bool {
    cards::is_perm(pm) && fixes(pm, board) && symmetric(oop, pm) && symmetric(ip, pm)
}

/// The symmetries among the first `k` renamings, in lexicographic order.
pub open spec fn symmetries<S: Num>(
    board: Seq<Card>,
    oop: Seq<HandInfo<S>>,
    ip: Seq<HandInfo<S>>,
    k: int,
) -> Seq<[u8; 4]>
    decreases k,
{
    if k <= 0 {
        Seq::empty()
    } else if is_symmetry(cards::digits(k - 1), board, oop, ip) {
        symmetries(board, oop, ip, k - 1).push(cards::digits(k - 1))
    } else {
        symmetries(board, oop, ip, k - 1)
    }
}

/// A table of images: entry `i` is the index of the image of hand `i`.
pub open spec fn image_table<S: Num>(table: Seq<u16>, hands: Seq<HandInfo<S>>, pm: [u8; 4]) -> bool {
    &&& table.len() == hands.len()
    &&& forall|i: int| 0 <= i < hands.len() ==> is_image(hands, pm, i, #[trigger] table[i] as int)
}

fn fixes_all(pm: &[u8; 4], cs: &[Card]) -> (r: bool)
    requires
        cards::is_perm(*pm),
        forall|i: int| 0 <= i < cs@.len() ==> cs@[i] < 52,
    ensures
        r == fixes(*pm, cs@),
{
    let mut i: usize = 0;
    while i < cs.len()
        invariant
            i <= cs@.len(),
            cards::is_perm(*pm),
            forall|i: int| 0 <= i < cs@.len() ==> cs@[i] < 52,
            forall|k: int| 0 <= k < i ==> cards::permuted(#[trigger] cs@[k] as int, *pm) == cs@[k],
        decreases cs@.len() - i,
    {
        if permute_card(cs[i], pm) != cs[i] {
            return false;
        }
        i = i + 1;
    }
    true
}

/// The images of all hands, if every hand has one.
fn find_images<S: Num>(hands: &Vec<HandInfo<S>>, table: &Vec<u32>, pm: &[u8; 4]) -> (r: Option<
    Vec<u16>,
>)
    requires
        listed(hands@, NUM_COMBOS as int),
        hands@.len() <= NUM_COMBOS,
        locates(table@, hands@),
        cards::is_perm(*pm),
    ensures
        match r {
            Some(v) => symmetric(hands@, *pm) && image_table(v@, hands@, *pm),
            None => !symmetric(hands@, *pm),
        },
{
    let mut out: Vec<u16> = Vec::new();
    let mut i: usize = 0;
    while i < hands.len()
        invariant
            i <= hands@.len() <= NUM_COMBOS,
            listed(hands@, NUM_COMBOS as int),
            locates(table@, hands@),
            cards::is_perm(*pm),
            out@.len() == i,
            forall|k: int| 0 <= k < i ==> is_image(hands@, *pm, k, #[trigger] out@[k] as int),
        decreases hands@.len() - i,
    {
        let h = hands[i];
        assert(h.c2 < h.c1 < 52);
        let p1: Card = permute_card(h.c1, pm);
        let p2: Card = permute_card(h.c2, pm);
        proof {
            if p1 == p2 {
                cards::law_permuted_is_injective(*pm, h.c1 as int, h.c2 as int);
            }
        }
        let at: usize = combo_index(p1, p2);
        let j: u32 = table[at];
        let found: bool = j != SENTINEL && magnitude(hands[j as usize].weight.minus(h.weight)).below(
            S::decimal(1, 6),
        );
        if !found {
            proof {
                if symmetric(hands@, *pm) {
                    assert(has_image(hands@, *pm, i as int));
                    let k = choose|k: int| is_image(hands@, *pm, i as int, k);
                    assert(table@[hand_number(hands@[k])] == k);
                    assert(false);
                }
            }
            return None;
        }
        out.push(j as u16);
        i = i + 1;
    }
    proof {
        assert forall|i: int| 0 <= i < hands@.len() implies #[trigger] has_image(
            hands@,
            *pm,
            i,
        ) by {
            assert(is_image(hands@, *pm, i, out@[i] as int));
        }
    }
    Some(out)
}

// ---------------------------------------------------------------------------
// River strengths
// ---------------------------------------------------------------------------

/// The board, the cards dealt to it and a hand: seven cards.
pub open spec fn seven<S>(board: Seq<Card>, extra: Seq<Card>, h: HandInfo<S>) -> Seq<Card> {
    (board + extra).push(h.c1).push(h.c2)
}

/// The strengths of the first `n` hands that hold none of the dealt cards.
pub open spec fn ranked<S>(
    hands: Seq<HandInfo<S>>,
    board: Seq<Card>,
    extra: Seq<Card>,
    n: int,
) -> Seq<Ranked>
    decreases n,
{
    if n <= 0 {
        Seq::empty()
    } else {
        let rest = ranked(hands, board, extra, n - 1);
        let h = hands[n - 1];
        if h.mask & cards::mask_of(extra) == 0 {
            rest.push((evaluator::strength7(seven(board, extra, h)) as u32, (n - 1) as u16))
        } else {
            rest
        }
    }
}

/// The hands that hold none of the dealt cards, sorted by strength.
pub open spec fn strength_list<S>(
    v: Seq<Ranked>,
    hands: Seq<HandInfo<S>>,
    board: Seq<Card>,
    extra: Seq<Card>,
) -> bool {
    &&& sort::in_order(v)
    &&& v.to_multiset() == ranked(hands, board, extra, hands.len() as int).to_multiset()
}

/// Both players' strengths once `extra` has been dealt.
pub open spec fn evaluates<S>(
    eval: RiverBoardEval,
    hands: [Vec<HandInfo<S>>; 2],
    board: Seq<Card>,
    extra: Seq<Card>,
) -> bool {
    &&& strength_list(eval.sorted[0]@, hands[0]@, board, extra)
    &&& strength_list(eval.sorted[1]@, hands[1]@, board, extra)
}

pub open spec fn all_cards(s: Seq<Card>) -> bool {
    forall|i: int| 0 <= i < s.len() ==> #[trigger] s[i] < 52
}

/// What the evaluation of a runout needs.
pub open spec fn evaluable<S>(
    hands: [Vec<HandInfo<S>>; 2],
    board: Seq<Card>,
    dealt: Dealt,
) -> bool {
    &&& dealt.wf()
    &&& board.len() + dealt.len == 5
    &&& all_cards(board)
    &&& all_cards(dealt.list())
    &&& listed(hands[0]@, NUM_COMBOS as int)
    &&& listed(hands[1]@, NUM_COMBOS as int)
    &&& hands[0]@.len() <= NUM_COMBOS
    &&& hands[1]@.len() <= NUM_COMBOS
}

fn rank_hands<S: Num>(hands: &Vec<HandInfo<S>>, board: &[Card], dealt: &Dealt) -> (r: Vec<Ranked>)
    requires
        dealt.wf(),
        board@.len() + dealt.len == 5,
        all_cards(board@),
        all_cards(dealt.list()),
        listed(hands@, NUM_COMBOS as int),
        hands@.len() <= NUM_COMBOS,
    ensures
        strength_list(r@, hands@, board@, dealt.list()),
{
    let ghost extra = dealt.list();
    let ghost five = board@ + extra;
    let n: usize = board.len();
    let c3: Card = if n > 3 {
        board[3]
    } else {
        dealt.cards[0]
    };
    let c4: Card = if n > 4 {
        board[4]
    } else if n > 3 {
        dealt.cards[0]
    } else {
        dealt.cards[1]
    };
    assert(five =~= seq![board@[0], board@[1], board@[2], c3, c4]);
    assert(c3 < 52 && c4 < 52) by {
        assert(five[3] == c3 && five[4] == c4);
        if n <= 3 {
            assert(extra[0] < 52 && extra[1] < 52);
        } else if n <= 4 {
            assert(extra[0] < 52);
        }
    }
    let mut gone: u64 = 0;
    assert(extra.take(0) =~= Seq::<Card>::empty());
    let mut k: u8 = 0;
    while k < dealt.len
        invariant
            k <= dealt.len <= 2,
            extra == dealt.list(),
            all_cards(extra),
            gone == cards::mask_of(extra.take(k as int)),
        decreases dealt.len - k,
    {
        assert(extra.take(k + 1).drop_last() =~= extra.take(k as int));
        assert(extra[k as int] < 52);
        gone = gone | card_mask(dealt.cards[k as usize]);
        k = k + 1;
    }
    assert(extra.take(extra.len() as int) =~= extra);
    let mut v: Vec<Ranked> = Vec::new();
    let mut i: usize = 0;
    while i < hands.len()
        invariant
            i <= hands@.len() <= NUM_COMBOS,
            n == board@.len() >= 3,
            all_cards(board@),
            extra == dealt.list(),
            five == board@ + extra,
            five == seq![board@[0], board@[1], board@[2], c3, c4],
            c3 < 52,
            c4 < 52,
            gone == cards::mask_of(extra),
            listed(hands@, NUM_COMBOS as int),
            v@ == ranked(hands@, board@, extra, i as int),
        decreases hands@.len() - i,
    {
        let h = hands[i];
        assert(h.c2 < h.c1 < 52);
        if h.mask & gone == 0 {
            let full: [Card; 7] = [board[0], board[1], board[2], c3, c4, h.c1, h.c2];
            assert(full@ =~= seven(board@, extra, h));
            v.push((evaluate7(&full), i as u16));
        }
        i = i + 1;
    }
    sort_ranked(v.as_slice())
}

/// The strengths of all hands on one runout.
fn eval_board<S: Num>(hands: &[Vec<HandInfo<S>>; 2], board: &[Card], dealt: &Dealt) -> (r:
    RiverBoardEval)
    requires
        evaluable(*hands, board@, *dealt),
    ensures
        evaluates(r, *hands, board@, dealt.list()),
{
    RiverBoardEval {
        sorted: [rank_hands(&hands[0], board, dealt), rank_hands(&hands[1], board, dealt)],
    }
}

/// Evaluates runouts on the thread pool: rayon's parallel `map` applies
/// [`eval_board`] to each runout, and `collect` puts the results into a vector
/// in the order of the runouts.
#[verifier::external_body]
fn eval_runouts<S: Num + Send + Sync>(
    hands: &[Vec<HandInfo<S>>; 2],
    board: &[Card],
    runouts: &Vec<Dealt>,
) -> (r: Vec<RiverBoardEval>)
    requires
        forall|i: int| 0 <= i < runouts@.len() ==> evaluable(*hands, board@, #[trigger] runouts@[i]),
    ensures
        r@.len() == runouts@.len(),
        forall|i: int|
            0 <= i < r@.len() ==> evaluates(
                #[trigger] r@[i],
                *hands,
                board@,
                runouts@[i].list(),
            ),
{
    runouts.par_iter().map(|d| eval_board(hands, board, d)).collect()
}

/// Precomputed strengths for every river runout.
pub struct RiverTable {
    pub(crate) root_street: u8,
    /// root_street 0: indexed lo*52+hi (lo < hi); 1: indexed by river card; 2: index 0.
    pub(crate) entries: Vec<Option<RiverBoardEval>>,
}

/// The runouts of a table, in the order of their keys. Key `k` of a flop
/// stands for the cards `k / 52` and `k % 52`.
pub open spec fn runout_at(root_street: u8, k: int) -> Seq<Card> {
    if root_street == 2 {
        Seq::empty()
    } else if root_street == 1 {
        seq![k as u8]
    } else {
        seq![(k / 52) as u8, (k % 52) as u8]
    }
}

/// Whether a key stands for a runout that can come.
pub open spec fn runout_comes(root_street: u8, board_mask: u64, k: int) -> bool {
    if root_street == 2 {
        k == 0
    } else if root_street == 1 {
        !cards::in_mask(board_mask, k)
    } else {
        &&& k / 52 < k % 52
        &&& !cards::in_mask(board_mask, k / 52)
        &&& !cards::in_mask(board_mask, k % 52)
    }
}

pub open spec fn table_size(root_street: u8) -> int {
    if root_street == 2 {
        1
    } else if root_street == 1 {
        52
    } else {
        2704
    }
}

/// The table holds the strengths of exactly the runouts that can come.
pub open spec fn tabulates<S>(
    t: RiverTable,
    hands: [Vec<HandInfo<S>>; 2],
    board: Seq<Card>,
    board_mask: u64,
) -> bool {
    &&& t.street() == board.len() - 3
    &&& t.slots().len() == table_size(t.street())
    &&& forall|k: int|
        0 <= k < t.slots().len() ==> match #[trigger] t.slots()[k] {
            Some(eval) => runout_comes(t.street(), board_mask, k) && evaluates(
                eval,
                hands,
                board,
                runout_at(t.street(), k),
            ),
            None => !runout_comes(t.street(), board_mask, k),
        }
}

/// The key of the dealt cards.
pub open spec fn runout_key(root_street: u8, dealt: Dealt) -> int {
    if root_street == 2 {
        0
    } else if root_street == 1 {
        dealt.cards[0] as int
    } else if dealt.cards[0] < dealt.cards[1] {
        dealt.cards[0] * 52 + dealt.cards[1]
    } else {
        dealt.cards[1] * 52 + dealt.cards[0]
    }
}

impl RiverTable {
    pub closed spec fn street(&self) -> u8 {
        self.root_street
    }

    pub closed spec fn slots(&self) -> Seq<Option<RiverBoardEval>> {
        self.entries@
    }

    /// Linear key for a set of dealt cards.
    pub(crate) fn key(&self, dealt: &Dealt) -> (r: usize)
        ensures
            r == runout_key(self.street(), *dealt),
    {
        if self.root_street == 2 {
            0
        } else if self.root_street == 1 {
            dealt.cards[0] as usize
        } else {
            let a: u8 = dealt.cards[0];
            let b: u8 = dealt.cards[1];
            if a < b {
                a as usize * 52 + b as usize
            } else {
                b as usize * 52 + a as usize
            }
        }
    }

    /// How many keys the table has.
    pub fn len(&self) -> (r: usize)
        ensures
            r == self.slots().len(),
    {
        self.entries.len()
    }

    /// The strengths of the runout with key `k`, if it can come.
    pub fn entry(&self, k: usize) -> (r: Option<&RiverBoardEval>)
        requires
            k < self.slots().len(),
        ensures
            match r {
                Some(eval) => self.slots()[k as int] == Some(*eval),
                None => self.slots()[k as int] is None,
            },
    {
        match &self.entries[k] {
            Some(eval) => Some(eval),
            None => None,
        }
    }

    /// The strengths once the given cards have been dealt.
    pub fn get(&self, dealt: &Dealt) -> (r: &RiverBoardEval)
        requires
            runout_key(self.street(), *dealt) < self.slots().len(),
            self.slots()[runout_key(self.street(), *dealt)] is Some,
        ensures
            *r == self.slots()[runout_key(self.street(), *dealt)]->Some_0,
    {
        let k: usize = self.key(dealt);
        match &self.entries[k] {
            Some(eval) => eval,
            None => {
                assert(false);
                vstd::pervasive::unreached()
            },
        }
    }
}

/// Which cards a key stands for, if they can come.
fn runout_of(root_street: u8, board_mask: u64, k: usize) -> (r: Option<Dealt>)
    requires
        root_street <= 2,
        k < table_size(root_street),
    ensures
        match r {
            Some(d) => {
                &&& runout_comes(root_street, board_mask, k as int)
                &&& d.wf()
                &&& d.len == 2 - root_street
                &&& d.list() == runout_at(root_street, k as int)
                &&& all_cards(d.list())
            },
            None => !runout_comes(root_street, board_mask, k as int),
        },
{
    let none = Dealt { cards: [0, 0], len: 0 };
    if root_street == 2 {
        assert(none.list() =~= runout_at(root_street, k as int));
        return Some(none);
    }
    if root_street == 1 {
        let c: u8 = k as u8;
        if board_mask & (1u64 << (c as u64)) != 0 {
            return None;
        }
        let d = Dealt { cards: [c, 0], len: 1 };
        assert(d.list() =~= runout_at(root_street, k as int));
        return Some(d);
    }
    let a: u8 = (k / 52) as u8;
    let b: u8 = (k % 52) as u8;
    if a >= b || board_mask & (1u64 << (a as u64)) != 0 || board_mask & (1u64 << (b as u64)) != 0 {
        return None;
    }
    let d = Dealt { cards: [a, b], len: 2 };
    assert(d.list() =~= runout_at(root_street, k as int));
    Some(d)
}

/// The number of runouts among the first `n` keys.
spec fn runouts_before(root_street: u8, board_mask: u64, n: int) -> int
    decreases n,
{
    if n <= 0 {
        0
    } else if runout_comes(root_street, board_mask, n - 1) {
        runouts_before(root_street, board_mask, n - 1) + 1
    } else {
        runouts_before(root_street, board_mask, n - 1)
    }
}

fn build_river_table<S: Num + Send + Sync>(
    board: &[Card],
    board_mask: u64,
    hands: &[Vec<HandInfo<S>>; 2],
) -> (r: RiverTable)
    requires
        3 <= board@.len() <= 5,
        all_cards(board@),
        listed(hands[0]@, NUM_COMBOS as int),
        listed(hands[1]@, NUM_COMBOS as int),
        hands[0]@.len() <= NUM_COMBOS,
        hands[1]@.len() <= NUM_COMBOS,
    ensures
        tabulates(r, *hands, board@, board_mask),
{
    let root_street: u8 = (board.len() - 3) as u8;
    let size: usize = if root_street == 2 {
        1
    } else if root_street == 1 {
        52
    } else {
        2704
    };
    let mut runouts: Vec<Dealt> = Vec::new();
    let mut k: usize = 0;
    while k < size
        invariant
            k <= size,
            size == table_size(root_street),
            root_street <= 2,
            root_street == board@.len() - 3,
            all_cards(board@),
            listed(hands[0]@, NUM_COMBOS as int),
            listed(hands[1]@, NUM_COMBOS as int),
            hands[0]@.len() <= NUM_COMBOS,
            hands[1]@.len() <= NUM_COMBOS,
            runouts@.len() == runouts_before(root_street, board_mask, k as int),
            forall|i: int|
                0 <= i < runouts@.len() ==> evaluable(*hands, board@, #[trigger] runouts@[i]),
            forall|m: int|
                0 <= m < k && #[trigger] runout_comes(root_street, board_mask, m) ==> {
                    let i = runouts_before(root_street, board_mask, m);
                    0 <= i < runouts@.len() && runouts@[i].list() == runout_at(root_street, m)
                },
        decreases size - k,
    {
        match runout_of(root_street, board_mask, k) {
            Some(d) => runouts.push(d),
            None => {},
        }
        k = k + 1;
    }
    let mut evals = eval_runouts(hands, board, &runouts);
    let ghost all = evals@;
    let mut entries: Vec<Option<RiverBoardEval>> = Vec::new();
    let mut j: usize = 0;
    assert(all.skip(0) =~= all);
    while j < size
        invariant
            j <= size,
            size == table_size(root_street),
            root_street <= 2,
            root_street == board@.len() - 3,
            all.len() == runouts@.len(),
            forall|i: int|
                0 <= i < all.len() ==> evaluates(
                    #[trigger] all[i],
                    *hands,
                    board@,
                    runouts@[i].list(),
                ),
            forall|m: int|
                0 <= m < size && #[trigger] runout_comes(root_street, board_mask, m) ==> {
                    let i = runouts_before(root_street, board_mask, m);
                    0 <= i < runouts@.len() && runouts@[i].list() == runout_at(root_street, m)
                },
            evals@ == all.skip(runouts_before(root_street, board_mask, j as int)),
            0 <= runouts_before(root_street, board_mask, j as int) <= all.len(),
            entries@.len() == j,
            forall|m: int|
                0 <= m < j ==> match #[trigger] entries@[m] {
                    Some(eval) => runout_comes(root_street, board_mask, m) && evaluates(
                        eval,
                        *hands,
                        board@,
                        runout_at(root_street, m),
                    ),
                    None => !runout_comes(root_street, board_mask, m),
                },
        decreases size - j,
    {
        match runout_of(root_street, board_mask, j) {
            Some(_) => {
                assert(runout_comes(root_street, board_mask, j as int));
                let ghost before = evals@;
                let e = evals.remove(0);
                assert(e == all[runouts_before(root_street, board_mask, j as int)]);
                assert(evals@ =~= all.skip(runouts_before(root_street, board_mask, j + 1)));
                entries.push(Some(e));
            },
            None => entries.push(None),
        }
        j = j + 1;
    }
    RiverTable { root_street, entries }
}

// ---------------------------------------------------------------------------
// Spots
// ---------------------------------------------------------------------------

/// Why a spot cannot be solved.
#[derive(Debug)]
#[allow(inconsistent_fields)]
pub enum SpotError<N> {
    /// The rake is a fraction of the pot; this looks like a percentage.
    RakeIsPercent { pct: N },
    /// The rake must not be negative.
    RakeNegative { pct: N },
    /// The rake cap must not be negative.
    CapNegative { cap: N },
    /// The board does not name cards.
    Board { error: CardError },
    /// The board does not have 3 to 5 cards.
    BoardLength,
    /// A range cannot be read.
    Range { error: RangeError },
    /// A player's range has no combos left after board card removal.
    NoCombos { player: u8 },
    /// The tree cannot be built.
    Tree { error: BuildError<N> },
}

/// A [`SpotError`], with its texts as sequences.
#[allow(inconsistent_fields)]
pub enum SpotFault<N> {
    RakeIsPercent { pct: N },
    RakeNegative { pct: N },
    CapNegative { cap: N },
    Board { error: CardError },
    BoardLength,
    Range { fault: RangeFault, text: Seq<char> },
    NoCombos { player: u8 },
    Tree { error: BuildError<N> },
}

impl<N> SpotError<N> {
    pub open spec fn fault(&self) -> SpotFault<N> {
        match *self {
            SpotError::RakeIsPercent { pct } => SpotFault::RakeIsPercent { pct },
            SpotError::RakeNegative { pct } => SpotFault::RakeNegative { pct },
            SpotError::CapNegative { cap } => SpotFault::CapNegative { cap },
            SpotError::Board { error } => SpotFault::Board { error },
            SpotError::BoardLength => SpotFault::BoardLength,
            SpotError::Range { error } => SpotFault::Range { fault: error.fault, text: error.text@ },
            SpotError::NoCombos { player } => SpotFault::NoCombos { player },
            SpotError::Tree { error } => SpotFault::Tree { error },
        }
    }
}

/// What a range text denotes.
pub open spec fn range_read<S: Num>(text: Seq<char>) -> range::Read<Seq<S>> {
    range::tokens_applied(range::empty_weights::<S>(), text)
}

/// The hands that a range text leaves on a board, if it can be read.
pub open spec fn hands_read<S: Num>(text: Seq<char>, board: Seq<Card>) -> Seq<HandInfo<S>> {
    hands_of(range_read::<S>(text)->Ok_0, cards::mask_of(board))
}

/// The first thing that is wrong with a spot, if anything is.
pub open spec fn spot_fault<N: Num, S: Num>(
    config: SpotConfig<N>,
    max_nodes: Option<usize>,
    strictness: Strictness,
) -> Option<SpotFault<N>> {
    let zero = N::decimal_spec(0, 0);
    let pct = config.tree.rake_pct;
    let cap = config.tree.rake_cap;
    let board = cards::text_cards(config.board@);
    let oop = range_read::<S>(config.range_oop@);
    let ip = range_read::<S>(config.range_ip@);
    if N::decimal_spec(1, 0).at_most_spec(pct) {
        Some(SpotFault::RakeIsPercent { pct })
    } else if pct.below_spec(zero) {
        Some(SpotFault::RakeNegative { pct })
    } else if cap.below_spec(zero) {
        Some(SpotFault::CapNegative { cap })
    } else if board is Err {
        Some(SpotFault::Board { error: board->Err_0 })
    } else if !(3 <= board->Ok_0.len() <= 5) {
        Some(SpotFault::BoardLength)
    } else if oop is Err {
        Some(SpotFault::Range { fault: (oop->Err_0).0, text: (oop->Err_0).1 })
    } else if ip is Err {
        Some(SpotFault::Range { fault: (ip->Err_0).0, text: (ip->Err_0).1 })
    } else {
        let h0 = hands_read::<S>(config.range_oop@, board->Ok_0);
        let h1 = hands_read::<S>(config.range_ip@, board->Ok_0);
        let grown = tree::built(
            config.tree,
            board->Ok_0,
            [h0.len() as usize, h1.len() as usize],
            max_nodes,
            strictness,
        );
        if h0.len() == 0 {
            Some(SpotFault::NoCombos { player: 0 })
        } else if h1.len() == 0 {
            Some(SpotFault::NoCombos { player: 1 })
        } else if grown is Err {
            Some(SpotFault::Tree { error: grown->Err_0 })
        } else {
            None
        }
    }
}

/// Everything needed to solve one postflop scenario.
pub struct Spot<N, S> {
    pub config: SpotConfig<N>,
    pub board: Vec<Card>,
    pub board_mask: u64,
    pub tree: Tree<N>,
    pub hands: [Vec<HandInfo<S>>; 2],
    /// Initial range weights per hand (reach vector at the root).
    pub weights: [Vec<S>; 2],
    /// For each hand of player p, index in the opponent's list holding the
    /// identical combo (SENTINEL if the opponent range lacks it).
    pub same_combo: [Vec<u32>; 2],
    pub river: RiverTable,
    /// Suit permutations under which the board (pointwise) and both ranges
    /// are invariant.
    pub suit_perms: Vec<[u8; 4]>,
    /// hand_perm[p][k][i] = index in hands[p] of suit_perms[k] applied to
    /// hands[p][i].
    pub hand_perm: [Vec<Vec<u16>>; 2],
}

/// The weights of a hand list.
pub open spec fn weights_of<S>(hands: Seq<HandInfo<S>>) -> Seq<S> {
    Seq::new(hands.len(), |i: int| hands[i].weight)
}

/// One image table for each symmetry.
pub open spec fn image_tables<S: Num>(
    tables: Seq<Vec<u16>>,
    hands: Seq<HandInfo<S>>,
    perms: Seq<[u8; 4]>,
) -> bool {
    &&& tables.len() == perms.len()
    &&& forall|k: int|
        0 <= k < perms.len() ==> image_table((#[trigger] tables[k])@, hands, perms[k])
}

impl<N: Num, S: Num> Spot<N, S> {
    /// The parts of a spot belong together.
    pub open spec fn wf(&self) -> bool {
        &&& 3 <= self.board@.len() <= 5
        &&& all_cards(self.board@)
        &&& self.board_mask == cards::mask_of(self.board@)
        &&& listed(self.hands[0]@, NUM_COMBOS as int)
        &&& listed(self.hands[1]@, NUM_COMBOS as int)
        &&& 0 < self.hands[0]@.len() <= NUM_COMBOS
        &&& 0 < self.hands[1]@.len() <= NUM_COMBOS
        &&& self.weights[0]@ == weights_of(self.hands[0]@)
        &&& self.weights[1]@ == weights_of(self.hands[1]@)
        &&& cross_indexed(self.same_combo[0]@, self.hands[0]@, self.hands[1]@)
        &&& cross_indexed(self.same_combo[1]@, self.hands[1]@, self.hands[0]@)
        &&& tabulates(self.river, self.hands, self.board@, self.board_mask)
        &&& self.suit_perms@ == symmetries(self.board@, self.hands[0]@, self.hands[1]@, 256)
        &&& image_tables(self.hand_perm[0]@, self.hands[0]@, self.suit_perms@)
        &&& image_tables(self.hand_perm[1]@, self.hands[1]@, self.suit_perms@)
        &&& self.tree.root_street == self.board@.len() - 3
        &&& 0 < self.tree.nodes@.len() <= SENTINEL
        &&& self.tree.nodes@[0].kind == KIND_ACTION
        &&& self.tree.nodes@[0].street == self.tree.root_street
        &&& tree_laws::sound_from(self.tree.arena(), self.board_mask, 0)
        &&& tree_laws::measured(
            self.tree.arena(),
            [self.hands[0]@.len() as u64, self.hands[1]@.len() as u64],
        )
    }

    /// The spot is the one that a configuration describes.
    pub open spec fn describes(&self, max_nodes: Option<usize>, strictness: Strictness) -> bool {
        let config = self.config;
        &&& cards::text_cards(config.board@) == Ok::<Seq<Card>, CardError>(self.board@)
        &&& self.hands[0]@ == hands_read::<S>(config.range_oop@, self.board@)
        &&& self.hands[1]@ == hands_read::<S>(config.range_ip@, self.board@)
        &&& tree::same_config(self.tree.config, config.tree)
        &&& tree::built(
            config.tree,
            self.board@,
            [self.hands[0]@.len() as usize, self.hands[1]@.len() as usize],
            max_nodes,
            strictness,
        ) == tree::Growth::<N>::Ok((self.tree.arena(), 0))
    }
}

fn collect_weights<S: Num>(hands: &Vec<HandInfo<S>>) -> (r: Vec<S>)
    ensures
        r@ == weights_of(hands@),
{
    let mut out: Vec<S> = Vec::new();
    let mut i: usize = 0;
    while i < hands.len()
        invariant
            i <= hands@.len(),
            out@ == weights_of(hands@).take(i as int),
        decreases hands@.len() - i,
    {
        out.push(hands[i].weight);
        assert(out@ =~= weights_of(hands@).take(i + 1));
        i = i + 1;
    }
    assert(out@ =~= weights_of(hands@));
    out
}

/// The symmetries of a board and two hand lists, each with its image tables.
fn find_symmetries<S: Num>(
    board: &[Card],
    hands: &[Vec<HandInfo<S>>; 2],
    tables: &[Vec<u32>; 2],
) -> (r: (Vec<[u8; 4]>, [Vec<Vec<u16>>; 2]))
    requires
        all_cards(board@),
        listed(hands[0]@, NUM_COMBOS as int),
        listed(hands[1]@, NUM_COMBOS as int),
        hands[0]@.len() <= NUM_COMBOS,
        hands[1]@.len() <= NUM_COMBOS,
        locates(tables[0]@, hands[0]@),
        locates(tables[1]@, hands[1]@),
    ensures
        r.0@ == symmetries(board@, hands[0]@, hands[1]@, 256),
        image_tables(r.1[0]@, hands[0]@, r.0@),
        image_tables(r.1[1]@, hands[1]@, r.0@),
{
    let mut perms: Vec<[u8; 4]> = Vec::new();
    let mut oop: Vec<Vec<u16>> = Vec::new();
    let mut ip: Vec<Vec<u16>> = Vec::new();
    let mut k: usize = 0;
    while k < 256
        invariant
            k <= 256,
            all_cards(board@),
            listed(hands[0]@, NUM_COMBOS as int),
            listed(hands[1]@, NUM_COMBOS as int),
            hands[0]@.len() <= NUM_COMBOS,
            hands[1]@.len() <= NUM_COMBOS,
            locates(tables[0]@, hands[0]@),
            locates(tables[1]@, hands[1]@),
            perms@ == symmetries(board@, hands[0]@, hands[1]@, k as int),
            image_tables(oop@, hands[0]@, perms@),
            image_tables(ip@, hands[1]@, perms@),
        decreases 256 - k,
    {
        let pm: [u8; 4] = [
            (k / 64 % 4) as u8,
            (k / 16 % 4) as u8,
            (k / 4 % 4) as u8,
            (k % 4) as u8,
        ];
        assert(pm == cards::digits(k as int));
        let shuffles: bool = pm[0] != pm[1] && pm[0] != pm[2] && pm[0] != pm[3] && pm[1] != pm[2]
            && pm[1] != pm[3] && pm[2] != pm[3];
        assert(shuffles == cards::is_perm(pm));
        if shuffles && fixes_all(&pm, board) {
            match find_images(&hands[0], &tables[0], &pm) {
                Some(t0) => match find_images(&hands[1], &tables[1], &pm) {
                    Some(t1) => {
                        perms.push(pm);
                        oop.push(t0);
                        ip.push(t1);
                    },
                    None => {},
                },
                None => {},
            }
        }
        k = k + 1;
    }
    (perms, [oop, ip])
}

impl<N: Num, S: Num + Send + Sync> Spot<N, S> {
    /// The spot of a new configuration, without a node budget.
    pub fn new(config: SpotConfig<N>) -> (r: Result<Self, SpotError<N>>)
        ensures
            match r {
                Ok(spot) => {
                    &&& spot_fault::<N, S>(config, None, Strictness::Strict) is None
                    &&& spot.config == config
                    &&& spot.describes(None, Strictness::Strict)
                    &&& spot.wf()
                },
                Err(e) => spot_fault::<N, S>(config, None, Strictness::Strict) == Some(e.fault()),
            },
    {
        Self::new_with_limit(config, None)
    }

    /// [`Spot::new`] with a tree node budget.
    pub fn new_with_limit(config: SpotConfig<N>, max_nodes: Option<usize>) -> (r: Result<
        Self,
        SpotError<N>,
    >)
        ensures
            match r {
                Ok(spot) => {
                    &&& spot_fault::<N, S>(config, max_nodes, Strictness::Strict) is None
                    &&& spot.config == config
                    &&& spot.describes(max_nodes, Strictness::Strict)
                    &&& spot.wf()
                    &&& max_nodes matches Some(cap) ==> spot.tree.nodes@.len() <= cap
                },
                Err(e) => spot_fault::<N, S>(config, max_nodes, Strictness::Strict) == Some(
                    e.fault(),
                ),
            },
    {
        Self::new_impl(config, max_nodes, Strictness::Strict)
    }

    /// [`Spot::new`] for rebuilding a spot from a saved configuration: a
    /// raise-only size in a bet or donk list is dropped, as it was when the
    /// file was written.
    pub fn new_lenient(config: SpotConfig<N>) -> (r: Result<Self, SpotError<N>>)
        ensures
            match r {
                Ok(spot) => {
                    &&& spot_fault::<N, S>(config, None, Strictness::LenientLoad) is None
                    &&& spot.config == config
                    &&& spot.describes(None, Strictness::LenientLoad)
                    &&& spot.wf()
                },
                Err(e) => spot_fault::<N, S>(config, None, Strictness::LenientLoad) == Some(
                    e.fault(),
                ),
            },
    {
        Self::new_impl(config, None, Strictness::LenientLoad)
    }

    /// [`Spot::new_lenient`] with a tree node budget.
    pub fn new_lenient_with_limit(config: SpotConfig<N>, max_nodes: Option<usize>) -> (r: Result<
        Self,
        SpotError<N>,
    >)
        ensures
            match r {
                Ok(spot) => {
                    &&& spot_fault::<N, S>(config, max_nodes, Strictness::LenientLoad) is None
                    &&& spot.config == config
                    &&& spot.describes(max_nodes, Strictness::LenientLoad)
                    &&& spot.wf()
                    &&& max_nodes matches Some(cap) ==> spot.tree.nodes@.len() <= cap
                },
                Err(e) => spot_fault::<N, S>(config, max_nodes, Strictness::LenientLoad) == Some(
                    e.fault(),
                ),
            },
    {
        Self::new_impl(config, max_nodes, Strictness::LenientLoad)
    }

    fn new_impl(config: SpotConfig<N>, max_nodes: Option<usize>, strictness: Strictness) -> (r:
        Result<Self, SpotError<N>>)
        ensures
            match r {
                Ok(spot) => {
                    &&& spot_fault::<N, S>(config, max_nodes, strictness) is None
                    &&& spot.config == config
                    &&& spot.describes(max_nodes, strictness)
                    &&& spot.wf()
                    &&& max_nodes matches Some(cap) ==> spot.tree.nodes@.len() <= cap
                },
                Err(e) => spot_fault::<N, S>(config, max_nodes, strictness) == Some(e.fault()),
            },
    {
        let zero = N::decimal(0, 0);
        let pct = config.tree.rake_pct;
        let cap = config.tree.rake_cap;
        if N::decimal(1, 0).at_most(pct) {
            return Err(SpotError::RakeIsPercent { pct });
        }
        if pct.below(zero) {
            return Err(SpotError::RakeNegative { pct });
        }
        if cap.below(zero) {
            return Err(SpotError::CapNegative { cap });
        }
        let board = match parse_cards(config.board.as_str()) {
            Ok(board) => board,
            Err(error) => return Err(SpotError::Board { error }),
        };
        if board.len() < 3 || board.len() > 5 {
            return Err(SpotError::BoardLength);
        }
        let board_mask: u64 = cards_mask(board.as_slice());
        let oop = match Range::<S>::parse(config.range_oop.as_str()) {
            Ok(range) => range,
            Err(error) => return Err(SpotError::Range { error }),
        };
        let ip = match Range::<S>::parse(config.range_ip.as_str()) {
            Ok(range) => range,
            Err(error) => return Err(SpotError::Range { error }),
        };
        let hands: [Vec<HandInfo<S>>; 2] = [
            collect_hands(&oop, board_mask),
            collect_hands(&ip, board_mask),
        ];
        if hands[0].len() == 0 {
            return Err(SpotError::NoCombos { player: 0 });
        }
        if hands[1].len() == 0 {
            return Err(SpotError::NoCombos { player: 1 });
        }
        let tables: [Vec<u32>; 2] = [locate(&hands[0]), locate(&hands[1])];
        let same_combo: [Vec<u32>; 2] = [
            cross_index(&hands[0], &hands[1], &tables[1]),
            cross_index(&hands[1], &hands[0], &tables[0]),
        ];
        let weights: [Vec<S>; 2] = [collect_weights(&hands[0]), collect_weights(&hands[1])];
        let num_hands: [usize; 2] = [hands[0].len(), hands[1].len()];
        let tree = match TreeBuilder::build_with_options(
            &config.tree,
            board.as_slice(),
            num_hands,
            max_nodes,
            strictness,
        ) {
            Ok(tree) => tree,
            Err(error) => return Err(SpotError::Tree { error }),
        };
        proof {
            tree_laws::law_tree_is_sound(config.tree, board@, num_hands, max_nodes, strictness);
            tree_laws::law_arena_blocks(config.tree, board@, num_hands, max_nodes, strictness);
        }
        let river = build_river_table(board.as_slice(), board_mask, &hands);
        let (suit_perms, hand_perm) = find_symmetries(board.as_slice(), &hands, &tables);
        Ok(
            Spot {
                config,
                board,
                board_mask,
                tree,
                hands,
                weights,
                same_combo,
                river,
                suit_perms,
                hand_perm,
            },
        )
    }
}

} // verus!
