//! What hands are worth where a hand ends or a card is dealt, in exact numbers.

use crate::cards;
use crate::cards::{Card, NUM_COMBOS};
use crate::cfr;
use crate::cfr::Solver;
use crate::game;
use crate::game::HandInfo;
use crate::nano;
use crate::nano::{Nano, BILLION};
use crate::num::Num;
use crate::play_laws;
use crate::removal_laws;
use crate::response_laws;
use crate::strategy;
use crate::tree;
use crate::tree::{Node, TreeConfig, KIND_CHANCE, KIND_TERM_FOLD, KIND_TERM_SHOWDOWN};
use crate::tree_laws;
use crate::weigh_laws;
use crate::weigh_laws::size;
use crate::zero_sum_laws;
use vstd::prelude::*;

verus! {

// ---------------------------------------------------------------------------
// The rake
// ---------------------------------------------------------------------------

/// Whether a rake is what is due after the flop: the share of the pot that the
/// spot names, up to rounding, and no more than the cap where there is one.
pub open spec fn rakes(share: Nano, cap: Nano, pot: int, rake: int) -> bool {
    &&& 0 <= rake <= pot
    &&& cap.count > 0 ==> rake <= cap.count
    &&& BILLION * rake <= share.count * pot
    &&& rake != cap.count || cap.count <= 0 ==> share.count * pot < BILLION * rake + BILLION
}

/// Law: the rake after the flop is a share of the pot, up to the cap; a cap of
/// zero caps nothing.
pub proof fn law_rake_is_a_share_of_the_pot(cfg: TreeConfig<Nano>, pot: Nano)
    requires
        0 <= cfg.rake_pct.count <= BILLION,
        0 <= cfg.rake_cap.count,
        0 <= pot.count,
    ensures
        rakes(
            cfg.rake_pct,
            cfg.rake_cap,
            pot.count as int,
            tree::rake_of(cfg, pot).count as int,
        ),
{
    let b = BILLION as int;
    assert(nano::ten_to(0) == 1);
    let (x, y) = (pot.count as int, cfg.rake_pct.count as int);
    let z = y * x;
    assert(0 <= z <= x * b) by (nonlinear_arith)
        requires
            z == y * x,
            0 <= x,
            0 <= y <= b,
    ;
    weigh_laws::lemma_times_near(cfg.rake_pct, pot, x);
    vstd::arithmetic::div_mod::lemma_fundamental_div_mod(z, b);
    vstd::arithmetic::div_mod::lemma_mod_bound(z, b);
    vstd::arithmetic::div_mod::lemma_div_pos_is_pos(z, b);
    let due = z / b;
    let rake = tree::rake_of(cfg, pot).count as int;
    assert(rake <= due);
    assert(b * rake <= b * due) by (nonlinear_arith)
        requires
            rake <= due,
            0 < b,
    ;
}

// ---------------------------------------------------------------------------
// Folds
// ---------------------------------------------------------------------------

/// Whether nothing that an end of a hand pays is more than `top` billionths.
pub open spec fn pays_at_most(n: Node<Nano>, top: int) -> bool {
    &&& size(n.t_win.count as int) <= top
    &&& size(n.t_lose.count as int) <= top
    &&& size(n.t_tie.count as int) <= top
}

/// Law: at a fold the player who folds loses the stake and the other wins it,
/// for every unit of reach that shares no card with the hand, whatever the
/// hands are.
pub proof fn law_the_folder_pays(
    s: Solver<Nano>,
    best: bool,
    idx: int,
    p: int,
    reach: Seq<Nano>,
    dealt: Seq<Card>,
    i: int,
    top: int,
)
    requires
        response_laws::arrives(s, idx, p, reach, dealt, i),
        s.node(idx).kind == KIND_TERM_FOLD,
        0 <= top,
        pays_at_most(s.node(idx), top),
        zero_sum_laws::bearable(reach, top),
    ensures
        ({
            let n = s.node(idx);
            let amount = if n.player == p {
                n.t_lose
            } else {
                n.t_win
            };
            size(
                BILLION * s.worth(best, idx, p, reach, dealt)[i].count - amount.count
                    * zero_sum_laws::meets(s, p, reach, i),
            ) <= BILLION
        }),
{
    let n = s.node(idx);
    let b = BILLION as int;
    let m = zero_sum_laws::meets(s, p, reach, i);
    let r = play_laws::counted(reach);
    zero_sum_laws::lemma_sides(s, p, reach, dealt, i);
    let amount = if n.player == p {
        n.t_lose
    } else {
        n.t_win
    };
    let met = Nano { count: m as i64 };
    removal_laws::law_fold_value_is_exact(s, p, reach, amount, i, met);
    let a = amount.count as int;
    let y = a * m;
    assert(size(y) <= top * m) by (nonlinear_arith)
        requires
            y == a * m,
            -top <= a <= top,
            0 <= m,
            size(y) == y || size(y) == -y,
    ;
    assert(top * m <= i64::MAX * b) by (nonlinear_arith)
        requires
            0 <= m <= r,
            0 <= top,
            5 * top * r <= i64::MAX * b,
    ;
    weigh_laws::lemma_times_near(amount, met, i64::MAX as int);
    weigh_laws::lemma_cut_near(y, b);
}

// ---------------------------------------------------------------------------
// Showdowns
// ---------------------------------------------------------------------------

/// The opponent reach in play that shares no card with hand `i` and is as
/// strong.
pub open spec fn ties(s: Solver<Nano>, p: int, reach: Seq<Nano>, dealt: Seq<Card>, i: int) -> int {
    let own = removal_laws::strong(
        s.spot.hands[p]@,
        s.spot.board@,
        removal_laws::runout(s, dealt),
        i,
    );
    removal_laws::rivals(s, p, reach, dealt, i, |x: u32| x == own)
}

/// Three ways to stand to a strength.
proof fn lemma_three_ways(
    s: Solver<Nano>,
    p: int,
    reach: Seq<Nano>,
    dealt: Seq<Card>,
    i: int,
    own: u32,
    n: int,
)
    requires
        n <= reach.len(),
    ensures
        ({
            let hands = s.spot.hands[1 - p]@;
            let extra = removal_laws::runout(s, dealt);
            let h = s.spot.hands[p]@[i];
            let board = s.spot.board@;
            let in_it = |j: int|
                removal_laws::in_play(hands, extra, j) && removal_laws::apart(hands[j], h);
            removal_laws::reach_where(
                reach,
                n,
                |j: int| in_it(j) && removal_laws::strong(hands, board, extra, j) < own,
            ) + removal_laws::reach_where(
                reach,
                n,
                |j: int| in_it(j) && removal_laws::strong(hands, board, extra, j) > own,
            ) + removal_laws::reach_where(
                reach,
                n,
                |j: int| in_it(j) && removal_laws::strong(hands, board, extra, j) == own,
            ) == removal_laws::reach_where(reach, n, in_it)
        }),
    decreases n,
{
    if n > 0 {
        lemma_three_ways(s, p, reach, dealt, i, own, n - 1);
    }
}

/// Law: at a showdown a hand in play wins the stake from the weaker hands, loses
/// it to the stronger ones and ties with those as strong, for every unit of
/// their reach that shares no card with it. A hand that a dealt card takes is
/// worth nothing.
pub proof fn law_the_stronger_hand_wins(
    s: Solver<Nano>,
    best: bool,
    idx: int,
    p: int,
    reach: Seq<Nano>,
    dealt: Seq<Card>,
    i: int,
    top: int,
)
    requires
        response_laws::arrives(s, idx, p, reach, dealt, i),
        s.node(idx).kind == KIND_TERM_SHOWDOWN,
        0 <= top,
        pays_at_most(s.node(idx), top),
        zero_sum_laws::bearable(reach, top),
    ensures
        ({
            let n = s.node(idx);
            let v = s.worth(best, idx, p, reach, dealt)[i].count;
            if removal_laws::in_play(s.spot.hands[p]@, removal_laws::runout(s, dealt), i) {
                size(
                    BILLION * v - n.t_win.count * zero_sum_laws::side(s, p, reach, dealt, i, true)
                        - n.t_lose.count * zero_sum_laws::side(s, p, reach, dealt, i, false)
                        - n.t_tie.count * ties(s, p, reach, dealt, i),
                ) <= 3 * BILLION
            } else {
                v == 0
            }
        }),
{
    let n = s.node(idx);
    let b = BILLION as int;
    assert(tree_laws::node_sound(s.spot.tree.arena(), s.spot.board_mask, idx));
    assert(tree_laws::node_sound(s.spot.tree.arena(), s.spot.board_mask, 0));
    assert(nano::ten_to(0) == 1);
    assert(removal_laws::runs_out(s, dealt));
    let d = s.face_off(p, reach, dealt);
    let zeros = s.zeros(p);
    let extra = removal_laws::runout(s, dealt);
    let mine = s.spot.hands[p]@;
    let hands = s.spot.hands[1 - p]@;
    let board = s.spot.board@;
    let (win, lose, tie) = (n.t_win, n.t_lose, n.t_tie);
    removal_laws::lemma_entries(s, p, reach, dealt);
    assert forall|k: int, m: int| 0 <= k < d.mine.len() && 0 <= m < d.mine.len() && k
        != m implies (#[trigger] d.mine[k]).1 != (#[trigger] d.mine[m]).1 by {
        assert(d.mine[k] != d.mine[m]);
    }
    zero_sum_laws::lemma_settled_at(d, zeros, 0, win, lose, tie, i);
    zero_sum_laws::lemma_sides(s, p, reach, dealt, i);
    let lo = zero_sum_laws::side(s, p, reach, dealt, i, true);
    let hi = zero_sum_laws::side(s, p, reach, dealt, i, false);
    let r = play_laws::counted(reach);
    if removal_laws::in_play(mine, extra, i) {
        let e = removal_laws::entry_of(mine, board, extra, i);
        assert(d.mine.contains(e));
        let k = choose|k: int| 0 <= k < d.mine.len() && d.mine[k] == e;
        assert(d.mine[k].1 == i);
        removal_laws::law_showdown_reach_is_exact(s, p, reach, dealt, k);
        let own = removal_laws::strong(mine, board, extra, i);
        let (low, high) = (d.beaten(k), d.beating(k));
        assert(low.count == lo && high.count == hi);
        let valid = d.met(k).plus_spec(d.twin(k));
        let rest = valid.minus_spec(low).minus_spec(high);
        let t = ties(s, p, reach, dealt, i);
        let nn = s.nh(1 - p);
        let in_it = |j: int|
            removal_laws::in_play(hands, extra, j) && removal_laws::apart(hands[j], mine[i]);
        lemma_three_ways(s, p, reach, dealt, i, own, nn);
        let (less, more, even, every) = (
            |x: u32| x < own,
            |x: u32| x > own,
            |x: u32| x == own,
            |x: u32| true,
        );
        removal_laws::lemma_same_where(
            reach,
            nn,
            |j: int| in_it(j) && removal_laws::strong(hands, board, extra, j) < own,
            |j: int|
                removal_laws::in_play(hands, extra, j) && removal_laws::apart(hands[j], mine[i])
                    && less(removal_laws::strong(hands, board, extra, j)),
        );
        removal_laws::lemma_same_where(
            reach,
            nn,
            |j: int| in_it(j) && removal_laws::strong(hands, board, extra, j) > own,
            |j: int|
                removal_laws::in_play(hands, extra, j) && removal_laws::apart(hands[j], mine[i])
                    && more(removal_laws::strong(hands, board, extra, j)),
        );
        removal_laws::lemma_same_where(
            reach,
            nn,
            |j: int| in_it(j) && removal_laws::strong(hands, board, extra, j) == own,
            |j: int|
                removal_laws::in_play(hands, extra, j) && removal_laws::apart(hands[j], mine[i])
                    && even(removal_laws::strong(hands, board, extra, j)),
        );
        removal_laws::lemma_same_where(
            reach,
            nn,
            in_it,
            |j: int|
                removal_laws::in_play(hands, extra, j) && removal_laws::apart(hands[j], mine[i])
                    && every(removal_laws::strong(hands, board, extra, j)),
        );
        removal_laws::lemma_where_bound(reach, nn, in_it);
        removal_laws::lemma_where_bound(
            reach,
            nn,
            |j: int| in_it(j) && removal_laws::strong(hands, board, extra, j) == own,
        );
        assert(lo + hi + t == valid.count);
        assert(rest.count == t);
        lemma_weigh_in(win, low, top, r);
        lemma_weigh_in(lose, high, top, r);
        lemma_weigh_in(tie, rest, top, r);
        let (x, y, z) = (
            win.times_spec(low).count as int,
            lose.times_spec(high).count as int,
            tie.times_spec(rest).count as int,
        );
        assert(d.value(k, win, lose, tie).count == x + y + z);
    } else {
        assert forall|k: int| 0 <= k < d.mine.len() implies (#[trigger] d.mine[k]).1 != i by {
            assert(removal_laws::in_play(mine, extra, d.mine[k].1 as int));
        }
    }
}

/// An amount against reach, with room for three of them.
proof fn lemma_weigh_in(amount: Nano, met: Nano, top: int, r: int)
    requires
        size(amount.count as int) <= top,
        0 <= met.count <= r,
        0 <= top,
        5 * top * r <= i64::MAX * BILLION,
    ensures
        size(BILLION * amount.times_spec(met).count - amount.count * met.count) <= BILLION,
        5 * size(amount.times_spec(met).count as int) <= i64::MAX,
{
    let b = BILLION as int;
    let (a, m) = (amount.count as int, met.count as int);
    let y = a * m;
    assert(5 * size(y) <= i64::MAX * b) by (nonlinear_arith)
        requires
            y == a * m,
            -top <= a <= top,
            0 <= m <= r,
            0 <= top,
            5 * top * r <= i64::MAX * b,
            size(y) == y || size(y) == -y,
    ;
    weigh_laws::lemma_times_near(amount, met, i64::MAX as int);
    weigh_laws::lemma_cut_near(y, b);
    let q = size(amount.times_spec(met).count as int);
    assert(5 * q <= i64::MAX) by (nonlinear_arith)
        requires
            b * q <= size(y),
            5 * size(y) <= i64::MAX * b,
            0 < b,
    ;
}

// ---------------------------------------------------------------------------
// Cards
// ---------------------------------------------------------------------------

proof fn lemma_bit(m: u64, x: u64, c: u64)
    requires
        x < 64,
        c < 64,
    ensures
        (m | (1u64 << x)) & (1u64 << c) != 0 <==> m & (1u64 << c) != 0 || x == c,
{
    assert((m | (1u64 << x)) & (1u64 << c) != 0 <==> m & (1u64 << c) != 0 || x == c)
        by (bit_vector)
        requires
            x < 64,
            c < 64,
    ;
}

pub(crate) proof fn lemma_mask_holds(list: Seq<Card>, c: Card)
    requires
        game::all_cards(list),
        c < 52,
    ensures
        cards::in_mask(cards::mask_of(list), c as int) <==> list.contains(c),
    decreases list.len(),
{
    if list.len() == 0 {
        assert(0u64 & (1u64 << (c as u64)) == 0) by (bit_vector);
    } else {
        let rest = list.drop_last();
        let x = list.last();
        assert(x == list[list.len() - 1]);
        assert forall|i: int| 0 <= i < rest.len() implies #[trigger] rest[i] < 52 by {
            assert(rest[i] == list[i]);
        }
        lemma_mask_holds(rest, c);
        lemma_bit(cards::mask_of(rest), x as u64, c as u64);
        if rest.contains(c) {
            let i = choose|i: int| 0 <= i < rest.len() && rest[i] == c;
            assert(list[i] == c);
        }
        if list.contains(c) && x != c {
            let i = choose|i: int| 0 <= i < list.len() && list[i] == c;
            assert(rest[i] == c);
        }
    }
}

/// A hand holds its two cards and no other.
pub(crate) proof fn lemma_holds(hands: Seq<HandInfo<Nano>>, j: int, c: int)
    requires
        game::listed(hands, NUM_COMBOS as int),
        0 <= j < hands.len(),
        0 <= c < 52,
    ensures
        cfr::holds(hands[j], c) <==> removal_laws::has(hands[j], c as u8),
{
    let h = hands[j];
    assert(h.c2 < h.c1 < 52);
    lemma_bit(0, h.c1 as u64, c as u64);
    lemma_bit(cards::mask_spec(h.c1), h.c2 as u64, c as u64);
    let a = cards::mask_spec(h.c1);
    assert(0u64 | a == a) by (bit_vector);
    assert(0u64 & (1u64 << (c as u64)) == 0) by (bit_vector);
}

/// One for each card.
spec fn ones(n: nat) -> Seq<Nano> {
    strategy::level(n, Nano { count: 1 })
}

proof fn lemma_all_asked(n: int, asked: spec_fn(int) -> bool)
    requires
        0 <= n <= 52,
        forall|c: int| 0 <= c < n ==> #[trigger] asked(c),
    ensures
        removal_laws::reach_where(ones(52), n, asked) == n,
    decreases n,
{
    if n > 0 {
        lemma_all_asked(n - 1, asked);
        assert(asked(n - 1));
    }
}

/// How many cards are not among those that are gone.
proof fn lemma_cards_left(gone: Seq<Card>)
    requires
        gone.no_duplicates(),
        game::all_cards(gone),
    ensures
        removal_laws::reach_where(ones(52), 52, |c: int| !gone.contains(c as u8)) == 52
            - gone.len(),
    decreases gone.len(),
{
    let asked = |c: int| !gone.contains(c as u8);
    if gone.len() == 0 {
        lemma_all_asked(52, asked);
    } else {
        let rest = gone.drop_last();
        let x = gone.last();
        assert(x == gone[gone.len() - 1]);
        assert forall|i: int| 0 <= i < rest.len() implies #[trigger] rest[i] < 52 by {
            assert(rest[i] == gone[i]);
        }
        assert forall|i: int, j: int| 0 <= i < rest.len() && 0 <= j < rest.len() && i
            != j implies rest[i] != rest[j] by {
            assert(gone[i] != gone[j]);
        }
        lemma_cards_left(rest);
        let before = |c: int| !rest.contains(c as u8);
        assert(!rest.contains(x)) by {
            if rest.contains(x) {
                let i = choose|i: int| 0 <= i < rest.len() && rest[i] == x;
                assert(gone[i] == gone[gone.len() - 1]);
            }
        }
        assert(gone.contains(x));
        assert forall|c: int| 0 <= c < 52 && c != x implies #[trigger] asked(c) == before(c) by {
            if gone.contains(c as u8) {
                let i = choose|i: int| 0 <= i < gone.len() && gone[i] == c as u8;
                assert(rest[i] == c as u8);
            }
            if rest.contains(c as u8) {
                let i = choose|i: int| 0 <= i < rest.len() && rest[i] == c as u8;
                assert(gone[i] == c as u8);
            }
        }
        removal_laws::lemma_one_more(ones(52), 52, asked, before, x as int);
    }
}

/// Whether a hand can be there: it holds no card of the board, and none that
/// was dealt.
pub open spec fn possible(s: Solver<Nano>, h: HandInfo<Nano>, dealt: Seq<Card>) -> bool {
    forall|c: Card|
        removal_laws::has(h, c) ==> !(#[trigger] s.spot.board@.contains(c)) && !dealt.contains(c)
}

/// Whether a card comes at a chance node and neither of two hands holds it.
pub open spec fn comes_for(
    s: Solver<Nano>,
    idx: int,
    dealt: Seq<Card>,
    h: HandInfo<Nano>,
    g: HandInfo<Nano>,
    c: int,
) -> bool {
    s.comes(idx, dealt, c) && !cfr::holds(h, c) && !cfr::holds(g, c)
}

/// As many cards can come for two hands as the node says.
proof fn lemma_cards_for(s: Solver<Nano>, idx: int, p: int, dealt: Seq<Card>, i: int, j: int)
    requires
        s.wf(),
        s.dealt_to(idx, dealt),
        s.node(idx).kind == KIND_CHANCE,
        s.spot.board@.no_duplicates(),
        0 <= p < 2,
        0 <= i < s.nh(p),
        0 <= j < s.nh(1 - p),
        removal_laws::apart(s.spot.hands[1 - p]@[j], s.spot.hands[p]@[i]),
        possible(s, s.spot.hands[p]@[i], dealt),
        possible(s, s.spot.hands[1 - p]@[j], dealt),
    ensures
        removal_laws::reach_where(
            ones(52),
            52,
            |c: int| comes_for(s, idx, dealt, s.spot.hands[p]@[i], s.spot.hands[1 - p]@[j], c),
        ) == 46 - s.node(idx).street,
{
    let board = s.spot.board@;
    let h = s.spot.hands[p]@[i];
    let g = s.spot.hands[1 - p]@[j];
    s.lemma_chance(idx);
    s.lemma_hands(p);
    s.lemma_hands(1 - p);
    assert(game::listed(s.spot.hands[p]@, NUM_COMBOS as int));
    assert(game::listed(s.spot.hands[1 - p]@, NUM_COMBOS as int));
    assert(h.c2 < h.c1 < 52 && g.c2 < g.c1 < 52);
    let own = seq![h.c1, h.c2, g.c1, g.c2];
    let seen = board + dealt;
    let gone = seen + own;
    assert(removal_laws::has(h, h.c1) && removal_laws::has(h, h.c2));
    assert(removal_laws::has(g, g.c1) && removal_laws::has(g, g.c2));
    assert(!board.contains(h.c1) && !board.contains(h.c2));
    assert(!board.contains(g.c1) && !board.contains(g.c2));
    assert forall|a: int, b: int| 0 <= a < seen.len() && 0 <= b < seen.len() && a
        != b implies seen[a] != seen[b] by {
        if a < board.len() && b >= board.len() {
            lemma_mask_holds(board, dealt[b - board.len()]);
            assert(board.contains(board[a]));
        } else if b < board.len() && a >= board.len() {
            lemma_mask_holds(board, dealt[a - board.len()]);
            assert(board.contains(board[b]));
        } else if a >= board.len() {
            assert(dealt[a - board.len()] != dealt[b - board.len()]);
        }
    }
    assert forall|a: int, b: int| 0 <= a < gone.len() && 0 <= b < gone.len() && a
        != b implies gone[a] != gone[b] by {
        if a < seen.len() && b < seen.len() {
            assert(seen[a] != seen[b]);
        } else if a < seen.len() {
            lemma_seen_apart(board, dealt, own, a, b - seen.len());
        } else if b < seen.len() {
            lemma_seen_apart(board, dealt, own, b, a - seen.len());
        }
    }
    assert forall|a: int| 0 <= a < gone.len() implies #[trigger] gone[a] < 52 by {
        if a < board.len() {
            assert(board[a] < 52);
        } else if a < seen.len() {
            assert(dealt[a - board.len()] < 52);
        }
    }
    lemma_cards_left(gone);
    let asked = |c: int| comes_for(s, idx, dealt, h, g, c);
    assert forall|c: int| 0 <= c < 52 implies #[trigger] asked(c) == !gone.contains(c as u8) by {
        let x = c as u8;
        lemma_mask_holds(board, x);
        lemma_holds(s.spot.hands[p]@, i, c);
        lemma_holds(s.spot.hands[1 - p]@, j, c);
        assert(s.child(idx, c) == s.child(idx, c));
        if gone.contains(x) {
            let a = choose|a: int| 0 <= a < gone.len() && gone[a] == x;
            if a < board.len() {
                assert(board[a] == x);
            } else if a < seen.len() {
                assert(dealt[a - board.len()] == x);
            }
        }
        if board.contains(x) {
            let a = choose|a: int| 0 <= a < board.len() && board[a] == x;
            assert(gone[a] == x);
        }
        if dealt.contains(x) {
            let a = choose|a: int| 0 <= a < dealt.len() && dealt[a] == x;
            assert(gone[board.len() + a] == x);
        }
        let k = seen.len() as int;
        assert(gone[k] == h.c1 && gone[k + 1] == h.c2);
        assert(gone[k + 2] == g.c1 && gone[k + 3] == g.c2);
    }
    removal_laws::lemma_same_where(ones(52), 52, asked, |c: int| !gone.contains(c as u8));
}

proof fn lemma_seen_apart(board: Seq<Card>, dealt: Seq<Card>, own: Seq<Card>, a: int, b: int)
    requires
        0 <= a < board.len() + dealt.len(),
        0 <= b < own.len(),
        !board.contains(own[b]),
        !dealt.contains(own[b]),
    ensures
        (board + dealt)[a] != own[b],
{
    if a < board.len() {
        assert(board.contains(board[a]));
    } else {
        assert(dealt.contains(dealt[a - board.len()]));
    }
}

/// Met reach behind each of the first `k` cards, added up: every opponent hand
/// counts once for each card that can come for both hands.
proof fn lemma_met_behind(
    s: Solver<Nano>,
    idx: int,
    p: int,
    reach: Seq<Nano>,
    dealt: Seq<Card>,
    i: int,
    k: int,
)
    requires
        reach.len() == s.nh(1 - p),
        0 <= k <= 52,
    ensures
        met_behind(s, idx, p, reach, dealt, i, k) == weigh_laws::weighed(
            reach,
            s.nh(1 - p),
            |j: int|
                if removal_laws::apart(s.spot.hands[1 - p]@[j], s.spot.hands[p]@[i]) {
                    removal_laws::reach_where(
                        ones(52),
                        k,
                        |c: int|
                            comes_for(
                                s,
                                idx,
                                dealt,
                                s.spot.hands[p]@[i],
                                s.spot.hands[1 - p]@[j],
                                c,
                            ),
                    )
                } else {
                    0
                },
        ),
    decreases k,
{
    let n = s.nh(1 - p);
    let hands = s.spot.hands[1 - p]@;
    let h = s.spot.hands[p]@[i];
    let f = |x: int| |j: int|
        if removal_laws::apart(hands[j], h) {
            removal_laws::reach_where(
                ones(52),
                x,
                |c: int| comes_for(s, idx, dealt, h, hands[j], c),
            )
        } else {
            0
        };
    if k > 0 {
        lemma_met_behind(s, idx, p, reach, dealt, i, k - 1);
        let c = k - 1;
        let one = |j: int|
            if removal_laws::apart(hands[j], h) && comes_for(s, idx, dealt, h, hands[j], c) {
                1int
            } else {
                0int
            };
        let (was, now) = (f(k - 1), f(k));
        assert forall|j: int| 0 <= j < n implies #[trigger] now(j) == 1 * was(j) + 1 * one(j) by {
            assert(ones(52)[c].count == 1);
        }
        weigh_laws::lemma_weighed_linear(reach, n, was, one, now, 1, 1);
        weigh_laws::lemma_weighed_same(
            reach,
            n,
            now,
            |j: int|
                if removal_laws::apart(s.spot.hands[1 - p]@[j], s.spot.hands[p]@[i]) {
                    removal_laws::reach_where(
                        ones(52),
                        k,
                        |x: int|
                            comes_for(
                                s,
                                idx,
                                dealt,
                                s.spot.hands[p]@[i],
                                s.spot.hands[1 - p]@[j],
                                x,
                            ),
                    )
                } else {
                    0
                },
        );
        weigh_laws::lemma_weighed_same(
            reach,
            n,
            was,
            |j: int|
                if removal_laws::apart(s.spot.hands[1 - p]@[j], s.spot.hands[p]@[i]) {
                    removal_laws::reach_where(
                        ones(52),
                        k - 1,
                        |x: int|
                            comes_for(
                                s,
                                idx,
                                dealt,
                                s.spot.hands[p]@[i],
                                s.spot.hands[1 - p]@[j],
                                x,
                            ),
                    )
                } else {
                    0
                },
        );
        if s.comes(idx, dealt, c) && !cfr::holds(h, c) {
            let past = cfr::reach_past(hands, reach, c);
            lemma_past_met(hands, reach, h, c, n);
            weigh_laws::lemma_weighed_same(
                reach,
                n,
                one,
                |j: int|
                    if removal_laws::apart(hands[j], h) && !cfr::holds(hands[j], c) {
                        1int
                    } else {
                        0int
                    },
            );
        } else {
            weigh_laws::lemma_weighed_linear(reach, n, one, one, one, 0, 0);
        }
    } else {
        let zero = f(0);
        weigh_laws::lemma_weighed_linear(reach, n, zero, zero, zero, 0, 0);
        weigh_laws::lemma_weighed_same(
            reach,
            n,
            zero,
            |j: int|
                if removal_laws::apart(s.spot.hands[1 - p]@[j], s.spot.hands[p]@[i]) {
                    removal_laws::reach_where(
                        ones(52),
                        0,
                        |x: int|
                            comes_for(
                                s,
                                idx,
                                dealt,
                                s.spot.hands[p]@[i],
                                s.spot.hands[1 - p]@[j],
                                x,
                            ),
                    )
                } else {
                    0
                },
        );
    }
}

/// Met reach past a card.
proof fn lemma_past_met(
    hands: Seq<HandInfo<Nano>>,
    reach: Seq<Nano>,
    h: HandInfo<Nano>,
    c: int,
    n: int,
)
    requires
        n <= reach.len(),
    ensures
        removal_laws::reach_where(
            cfr::reach_past(hands, reach, c),
            n,
            |j: int| removal_laws::apart(hands[j], h),
        ) == weigh_laws::weighed(
            reach,
            n,
            |j: int|
                if removal_laws::apart(hands[j], h) && !cfr::holds(hands[j], c) {
                    1int
                } else {
                    0int
                },
        ),
    decreases n,
{
    assert(nano::ten_to(0) == 1);
    if n > 0 {
        lemma_past_met(hands, reach, h, c, n - 1);
        let r = reach[n - 1].count as int;
        assert(r * 1 == r && r * 0 == 0) by (nonlinear_arith);
    }
}

/// The reach that hand `i` meets behind each of the first `k` cards that can
/// come for it, added up.
pub open spec fn met_behind(
    s: Solver<Nano>,
    idx: int,
    p: int,
    reach: Seq<Nano>,
    dealt: Seq<Card>,
    i: int,
    k: int,
) -> int
    decreases k,
{
    if k <= 0 {
        0
    } else {
        met_behind(s, idx, p, reach, dealt, i, k - 1) + if s.comes(idx, dealt, k - 1)
            && !cfr::holds(s.spot.hands[p]@[i], k - 1) {
            zero_sum_laws::meets(
                s,
                p,
                cfr::reach_past(s.spot.hands[1 - p]@, reach, k - 1),
                i,
            )
        } else {
            0
        }
    }
}

/// Whether hand `i` and all of the opponent's reach can be there.
pub open spec fn clear(
    s: Solver<Nano>,
    p: int,
    reach: Seq<Nano>,
    dealt: Seq<Card>,
    i: int,
) -> bool {
    &&& s.spot.board@.no_duplicates()
    &&& possible(s, s.spot.hands[p]@[i], dealt)
    &&& forall|j: int|
        0 <= j < reach.len() && (#[trigger] reach[j]).count != 0 ==> possible(
            s,
            s.spot.hands[1 - p]@[j],
            dealt,
        )
}

/// Law: behind the cards that can come, each opponent hand is met once for every
/// card that is left to the two hands.
pub proof fn law_every_card_left_counts_once(
    s: Solver<Nano>,
    idx: int,
    p: int,
    reach: Seq<Nano>,
    dealt: Seq<Card>,
    i: int,
)
    requires
        response_laws::arrives(s, idx, p, reach, dealt, i),
        s.node(idx).kind == KIND_CHANCE,
        clear(s, p, reach, dealt, i),
    ensures
        met_behind(s, idx, p, reach, dealt, i, 52) == (46 - s.node(idx).street)
            * zero_sum_laws::meets(s, p, reach, i),
{
    let n = s.nh(1 - p);
    let hands = s.spot.hands[1 - p]@;
    let h = s.spot.hands[p]@[i];
    let left = 46 - s.node(idx).street;
    lemma_met_behind(s, idx, p, reach, dealt, i, 52);
    let f = |j: int|
        if removal_laws::apart(s.spot.hands[1 - p]@[j], s.spot.hands[p]@[i]) {
            removal_laws::reach_where(
                ones(52),
                52,
                |c: int|
                    comes_for(s, idx, dealt, s.spot.hands[p]@[i], s.spot.hands[1 - p]@[j], c),
            )
        } else {
            0
        };
    assert forall|j: int| 0 <= j < n && reach[j].count != 0 implies #[trigger] f(j) == left * if
        removal_laws::apart(hands[j], h) {
        1int
    } else {
        0int
    } by {
        assert(possible(s, hands[j], dealt));
        if removal_laws::apart(hands[j], h) {
            lemma_cards_for(s, idx, p, dealt, i, j);
        }
    }
    lemma_left_times(reach, hands, h, f, left, n);
}

proof fn lemma_left_times(
    reach: Seq<Nano>,
    hands: Seq<HandInfo<Nano>>,
    h: HandInfo<Nano>,
    f: spec_fn(int) -> int,
    left: int,
    n: int,
)
    requires
        n <= reach.len(),
        forall|j: int|
            0 <= j < n && reach[j].count != 0 ==> #[trigger] f(j) == left * if removal_laws::apart(
                hands[j],
                h,
            ) {
                1int
            } else {
                0int
            },
    ensures
        weigh_laws::weighed(reach, n, f) == left * removal_laws::reach_where(
            reach,
            n,
            |j: int| removal_laws::apart(hands[j], h),
        ),
    decreases n,
{
    if n > 0 {
        lemma_left_times(reach, hands, h, f, left, n - 1);
        let r = reach[n - 1].count as int;
        let w = removal_laws::reach_where(
            reach,
            n - 1,
            |j: int| removal_laws::apart(hands[j], h),
        );
        let x = f(n - 1);
        if r == 0 {
            assert(r * x == 0 && left * (w + r) == left * w) by (nonlinear_arith)
                requires
                    r == 0,
            ;
        } else if removal_laws::apart(hands[n - 1], h) {
            assert(r * (left * 1) == left * r && left * (w + r) == left * w + left * r)
                by (nonlinear_arith);
        } else {
            assert(r * (left * 0) == 0) by (nonlinear_arith);
        }
    } else {
        assert(left * 0 == 0);
    }
}

/// Law: cards are averaged over. Where every card leaves a hand worth an amount
/// for each unit of reach that it meets behind the card, the hand is worth that
/// amount for each unit that it meets before it, up to rounding.
pub proof fn law_cards_are_averaged_over(
    s: Solver<Nano>,
    idx: int,
    p: int,
    reach: Seq<Nano>,
    dealt: Seq<Card>,
    i: int,
    top: int,
    amount: int,
    off: int,
)
    requires
        response_laws::arrives(s, idx, p, reach, dealt, i),
        zero_sum_laws::fair_play(s, top),
        zero_sum_laws::bearable(reach, top),
        s.node(idx).kind == KIND_CHANCE,
        clear(s, p, reach, dealt, i),
        0 <= off,
        forall|c: int|
            0 <= c < 52 && s.comes(idx, dealt, c) && !cfr::holds(s.spot.hands[p]@[i], c)
                ==> #[trigger] pays_each(s, idx, p, reach, dealt, i, amount, off, c),
    ensures
        (46 - s.node(idx).street) * size(
            BILLION * s.worth(false, idx, p, reach, dealt)[i].count - amount
                * zero_sum_laws::meets(s, p, reach, i),
        ) <= 52 * (BILLION * (46 - s.node(idx).street) + off),
{
    let b = BILLION as int;
    s.lemma_chance(idx);
    let left = 46 - s.node(idx).street;
    law_every_card_left_counts_once(s, idx, p, reach, dealt, i);
    lemma_cards_summed(s, idx, p, reach, dealt, i, top, amount, off, 52);
    let v = s.worth(false, idx, p, reach, dealt)[i].count as int;
    let m = zero_sum_laws::meets(s, p, reach, i);
    let z = b * v - amount * m;
    assert(left * z == left * (b * v) - amount * (left * m)) by (nonlinear_arith)
        requires
            z == b * v - amount * m,
    ;
    assert(size(left * z) == left * size(z)) by (nonlinear_arith)
        requires
            0 <= left,
            z < 0 ==> size(z) == -z,
            z >= 0 ==> size(z) == z,
            left * z < 0 ==> size(left * z) == -(left * z),
            left * z >= 0 ==> size(left * z) == left * z,
    ;
}

/// Whether card `c` leaves hand `i` worth `amount` for each unit of reach that
/// it meets behind the card, but for `off`.
pub open spec fn pays_each(
    s: Solver<Nano>,
    idx: int,
    p: int,
    reach: Seq<Nano>,
    dealt: Seq<Card>,
    i: int,
    amount: int,
    off: int,
    c: int,
) -> bool {
    let past = cfr::reach_past(s.spot.hands[1 - p]@, reach, c);
    let v = s.worth(false, s.child(idx, c), p, past, dealt.push(c as u8))[i].count;
    size(BILLION * v - amount * zero_sum_laws::meets(s, p, past, i)) <= off
}

proof fn lemma_cards_summed(
    s: Solver<Nano>,
    idx: int,
    p: int,
    reach: Seq<Nano>,
    dealt: Seq<Card>,
    i: int,
    top: int,
    amount: int,
    off: int,
    k: int,
)
    requires
        response_laws::arrives(s, idx, p, reach, dealt, i),
        zero_sum_laws::fair_play(s, top),
        zero_sum_laws::bearable(reach, top),
        s.node(idx).kind == KIND_CHANCE,
        0 <= off,
        0 <= k <= 52,
        forall|c: int|
            0 <= c < 52 && s.comes(idx, dealt, c) && !cfr::holds(s.spot.hands[p]@[i], c)
                ==> #[trigger] pays_each(s, idx, p, reach, dealt, i, amount, off, c),
    ensures
        ({
            let left = 46 - s.node(idx).street;
            let v = s.worth_dealt(false, idx, p, reach, dealt, k as nat)[i].count;
            size(left * (BILLION * v) - amount * met_behind(s, idx, p, reach, dealt, i, k)) <= k * (
            BILLION * left + off)
        }),
    decreases k,
{
    let b = BILLION as int;
    s.lemma_chance(idx);
    let left = 46 - s.node(idx).street;
    let unit = b * left + off;
    assert(nano::ten_to(0) == 1);
    if k > 0 {
        let c = k - 1;
        lemma_cards_summed(s, idx, p, reach, dealt, i, top, amount, off, c);
        assert(k * unit == c * unit + unit && 0 <= unit) by (nonlinear_arith)
            requires
                k == c + 1,
                unit == b * left + off,
                0 <= left,
                0 < b,
                0 <= off,
        ;
        let was = s.worth_dealt(false, idx, p, reach, dealt, c as nat)[i].count as int;
        let now = s.worth_dealt(false, idx, p, reach, dealt, k as nat)[i].count as int;
        zero_sum_laws::lemma_backed_dealt(s, idx, p, reach, dealt, i, k as nat, top);
        if s.comes(idx, dealt, c) {
            s.lemma_deal(idx, dealt, c);
            let part = zero_sum_laws::dealt_part(s, idx, p, reach, dealt, c);
            assert(part.len() == s.nh(p));
            assert(zero_sum_laws::sums_up(s, idx, p, reach, dealt, i, c));
            assert(now == was + part[i].count);
            if !cfr::holds(s.spot.hands[p]@[i], c) {
                assert(pays_each(s, idx, p, reach, dealt, i, amount, off, c));
                let past = cfr::reach_past(s.spot.hands[1 - p]@, reach, c);
                let v = s.worth(false, s.child(idx, c), p, past, dealt.push(c as u8))[i];
                assert(idx < s.child(idx, c) < s.spot.tree.nodes@.len());
                assert(part[i] == v.over_spec(Nano::decimal_spec(left as i64, 0)));
                zero_sum_laws::lemma_shared_near(v, left);
                let (x, y) = (part[i].count as int, v.count as int);
                let m = zero_sum_laws::meets(s, p, past, i);
                let before = met_behind(s, idx, p, reach, dealt, i, c);
                let e = left * x - y;
                assert(left * (b * (was + x)) == left * (b * was) + b * e + b * y)
                    by (nonlinear_arith)
                    requires
                        e == left * x - y,
                ;
                assert(amount * (before + m) == amount * before + amount * m) by (nonlinear_arith);
                assert(size(b * e) <= b * left) by (nonlinear_arith)
                    requires
                        -left <= e <= left,
                        0 < b,
                        size(b * e) == b * e || size(b * e) == -(b * e),
                ;
            }
        }
    } else {
        assert(left * (b * 0) == 0 && amount * 0 == 0 && 0 * unit == 0) by (nonlinear_arith);
    }
}

} // verus!
