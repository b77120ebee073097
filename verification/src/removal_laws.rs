//! Card removal, in exact numbers: what a hand meets is the reach of the
//! opponent hands that share no card with it, each counted once.

use crate::cards;
use crate::cards::{Card, NUM_COMBOS};
use crate::cfr;
use crate::cfr::Solver;
use crate::evaluator;
use crate::game;
use crate::game::HandInfo;
use crate::nano;
use crate::nano::Nano;
use crate::num::Num;
use crate::play_laws;
use crate::sort::Ranked;
use crate::terminal;
use crate::tree::SENTINEL;
use vstd::prelude::*;

verus! {

// ---------------------------------------------------------------------------
// Sums over hands
// ---------------------------------------------------------------------------

/// The reach of those of the first `n` hands that are asked for, without an
/// end to its range.
pub open spec fn reach_where(reach: Seq<Nano>, n: int, asked: spec_fn(int) -> bool) -> int
    decreases n,
{
    if n <= 0 {
        0
    } else {
        reach_where(reach, n - 1, asked) + if asked(n - 1) {
            reach[n - 1].count as int
        } else {
            0
        }
    }
}

/// Whether two hands share no card.
pub open spec fn apart<S>(g: HandInfo<S>, h: HandInfo<S>) -> bool {
    g.c1 != h.c1 && g.c1 != h.c2 && g.c2 != h.c1 && g.c2 != h.c2
}

/// Whether a hand holds a card.
pub open spec fn has<S>(h: HandInfo<S>, c: Card) -> bool {
    h.c1 == c || h.c2 == c
}

/// Whether reach is not negative, and adds up in range.
pub open spec fn summable(reach: Seq<Nano>) -> bool {
    play_laws::none_negative(reach) && play_laws::counted(reach) <= i64::MAX
}

pub(crate) proof fn lemma_same_where(
    reach: Seq<Nano>,
    n: int,
    a: spec_fn(int) -> bool,
    b: spec_fn(int) -> bool,
)
    requires
        forall|j: int| 0 <= j < n ==> #[trigger] a(j) == b(j),
    ensures
        reach_where(reach, n, a) == reach_where(reach, n, b),
    decreases n,
{
    if n > 0 {
        lemma_same_where(reach, n - 1, a, b);
        assert(a(n - 1) == b(n - 1));
    }
}

pub(crate) proof fn lemma_none_where(reach: Seq<Nano>, n: int, a: spec_fn(int) -> bool)
    requires
        forall|j: int| 0 <= j < n ==> !(#[trigger] a(j)),
    ensures
        reach_where(reach, n, a) == 0,
    decreases n,
{
    if n > 0 {
        lemma_none_where(reach, n - 1, a);
        assert(!a(n - 1));
    }
}

/// Asking for one hand more adds its reach.
pub(crate) proof fn lemma_one_more(
    reach: Seq<Nano>,
    n: int,
    a: spec_fn(int) -> bool,
    b: spec_fn(int) -> bool,
    x: int,
)
    requires
        0 <= x < n,
        !a(x),
        b(x),
        forall|j: int| 0 <= j < n && j != x ==> #[trigger] a(j) == b(j),
    ensures
        reach_where(reach, n, b) == reach_where(reach, n, a) + reach[x].count,
    decreases n,
{
    if x == n - 1 {
        lemma_same_where(reach, n - 1, a, b);
    } else {
        lemma_one_more(reach, n - 1, a, b, x);
        assert(a(n - 1) == b(n - 1));
    }
}

/// The reach of some hands is not negative, and part of the whole.
pub(crate) proof fn lemma_where_bound(reach: Seq<Nano>, n: int, a: spec_fn(int) -> bool)
    requires
        summable(reach),
        0 <= n <= reach.len(),
    ensures
        0 <= reach_where(reach, n, a) <= play_laws::reach_counted(reach, n),
        play_laws::reach_counted(reach, n) <= play_laws::counted(reach),
    decreases n,
{
    play_laws::lemma_taken_bound(reach, n);
    if n > 0 {
        lemma_where_bound(reach, n - 1, a);
        assert(reach.take(n).drop_last() =~= reach.take(n - 1));
        assert(reach[n - 1].count >= 0);
    } else {
        assert(reach.take(0) =~= Seq::<Nano>::empty());
    }
}

/// Taking out who holds one of two cards takes out who holds both twice.
proof fn lemma_split(
    hands: Seq<HandInfo<Nano>>,
    reach: Seq<Nano>,
    n: int,
    a: spec_fn(int) -> bool,
    h: HandInfo<Nano>,
)
    requires
        n <= hands.len(),
        game::listed(hands, NUM_COMBOS as int),
        h.c2 < h.c1,
    ensures
        reach_where(reach, n, a) - reach_where(reach, n, |j: int| a(j) && has(hands[j], h.c1))
            - reach_where(reach, n, |j: int| a(j) && has(hands[j], h.c2)) == reach_where(
            reach,
            n,
            |j: int| a(j) && apart(hands[j], h),
        ) - reach_where(reach, n, |j: int| a(j) && hands[j].c1 == h.c1 && hands[j].c2 == h.c2),
    decreases n,
{
    if n > 0 {
        lemma_split(hands, reach, n - 1, a, h);
        let g = hands[n - 1];
        assert(g.c2 < g.c1);
    }
}

// ---------------------------------------------------------------------------
// The sums that are kept
// ---------------------------------------------------------------------------

/// The hands that a list of numbers asks for.
pub open spec fn among(order: Seq<int>) -> spec_fn(int) -> bool {
    |j: int| order.contains(j)
}

/// Whether a list numbers hands below `n`, each once at most.
pub open spec fn numbers_hands(order: Seq<int>, n: int) -> bool {
    &&& order.no_duplicates()
    &&& forall|k: int| 0 <= k < order.len() ==> 0 <= #[trigger] order[k] < n
}

proof fn lemma_amassed(hands: Seq<HandInfo<Nano>>, reach: Seq<Nano>, order: Seq<int>)
    requires
        game::listed(hands, NUM_COMBOS as int),
        reach.len() == hands.len(),
        summable(reach),
        numbers_hands(order, hands.len() as int),
    ensures
        ({
            let m = terminal::amassed::<Nano>(hands, reach, order);
            let n = hands.len() as int;
            &&& m.by_card.len() == 52
            &&& m.all.count == reach_where(reach, n, among(order))
            &&& forall|c: Card|
                c < 52 ==> (#[trigger] m.by_card[c as int]).count == reach_where(
                    reach,
                    n,
                    |j: int| among(order)(j) && has(hands[j], c),
                )
        }),
    decreases order.len(),
{
    let n = hands.len() as int;
    assert(nano::ten_to(0) == 1);
    let m = terminal::amassed::<Nano>(hands, reach, order);
    if order.len() == 0 {
        lemma_none_where(reach, n, among(order));
        assert forall|c: Card| c < 52 implies (#[trigger] m.by_card[c as int]).count
            == reach_where(reach, n, |j: int| among(order)(j) && has(hands[j], c)) by {
            lemma_none_where(reach, n, |j: int| among(order)(j) && has(hands[j], c));
        }
    } else {
        let rest = order.drop_last();
        let x = order.last();
        assert(x == order[order.len() - 1]);
        assert(rest.no_duplicates()) by {
            assert forall|i: int, j: int| 0 <= i < rest.len() && 0 <= j < rest.len() && i
                != j implies rest[i] != rest[j] by {
                assert(order[i] != order[j]);
            }
        }
        assert forall|k: int| 0 <= k < rest.len() implies 0 <= #[trigger] rest[k] < n by {
            assert(rest[k] == order[k]);
        }
        lemma_amassed(hands, reach, rest);
        let was = terminal::amassed::<Nano>(hands, reach, rest);
        assert(!rest.contains(x)) by {
            if rest.contains(x) {
                let i = choose|i: int| 0 <= i < rest.len() && rest[i] == x;
                assert(order[i] == order[order.len() - 1]);
            }
        }
        assert forall|j: int| j != x implies #[trigger] rest.contains(j) == order.contains(j) by {
            if order.contains(j) {
                let i = choose|i: int| 0 <= i < order.len() && order[i] == j;
                assert(rest[i] == j);
            }
            if rest.contains(j) {
                let i = choose|i: int| 0 <= i < rest.len() && rest[i] == j;
                assert(order[i] == j);
            }
        }
        assert(order.contains(x));
        let h = hands[x];
        let r = reach[x];
        assert(h.c2 < h.c1 < 52);
        lemma_one_more(reach, n, among(rest), among(order), x);
        lemma_where_bound(reach, n, among(order));
        lemma_where_bound(reach, n, among(rest));
        assert(m.all == was.all.plus_spec(r));
        assert forall|c: Card| c < 52 implies (#[trigger] m.by_card[c as int]).count
            == reach_where(reach, n, |j: int| among(order)(j) && has(hands[j], c)) by {
            let a = |j: int| among(rest)(j) && has(hands[j], c);
            let b = |j: int| among(order)(j) && has(hands[j], c);
            assert(was.by_card[c as int].count == reach_where(reach, n, a));
            if has(h, c) {
                lemma_one_more(reach, n, a, b, x);
                lemma_where_bound(reach, n, a);
                lemma_where_bound(reach, n, b);
                assert(m.by_card[c as int] == was.by_card[c as int].plus_spec(r));
            } else {
                lemma_same_where(reach, n, a, b);
                assert(m.by_card[c as int] == was.by_card[c as int]);
            }
        }
    }
}

/// What is left of the sums once blocked hands are taken out: who shares no
/// card, less who holds both cards.
proof fn lemma_unblocked(
    hands: Seq<HandInfo<Nano>>,
    reach: Seq<Nano>,
    order: Seq<int>,
    h: HandInfo<Nano>,
)
    requires
        game::listed(hands, NUM_COMBOS as int),
        reach.len() == hands.len(),
        summable(reach),
        numbers_hands(order, hands.len() as int),
        h.c2 < h.c1 < 52,
    ensures
        terminal::unblocked::<Nano>(
            terminal::amassed::<Nano>(hands, reach, order),
            h,
        ).count == reach_where(
            reach,
            hands.len() as int,
            |j: int| among(order)(j) && apart(hands[j], h),
        ) - reach_where(
            reach,
            hands.len() as int,
            |j: int| among(order)(j) && hands[j].c1 == h.c1 && hands[j].c2 == h.c2,
        ),
{
    let n = hands.len() as int;
    let a = among(order);
    lemma_amassed(hands, reach, order);
    lemma_split(hands, reach, n, a, h);
    lemma_where_bound(reach, n, a);
    lemma_where_bound(reach, n, |j: int| a(j) && has(hands[j], h.c1));
    lemma_where_bound(reach, n, |j: int| a(j) && has(hands[j], h.c2));
    lemma_where_bound(reach, n, |j: int| a(j) && apart(hands[j], h));
    lemma_where_bound(reach, n, |j: int| a(j) && hands[j].c1 == h.c1 && hands[j].c2 == h.c2);
    let m = terminal::amassed::<Nano>(hands, reach, order);
    assert(m.by_card[h.c1 as int].count == reach_where(
        reach,
        n,
        |j: int| a(j) && has(hands[j], h.c1),
    ));
    assert(m.by_card[h.c2 as int].count == reach_where(
        reach,
        n,
        |j: int| a(j) && has(hands[j], h.c2),
    ));
}

/// The hand with both cards is the one that the cross index names.
proof fn lemma_twin(
    mine: Seq<HandInfo<Nano>>,
    hands: Seq<HandInfo<Nano>>,
    same: Seq<u32>,
    i: int,
    j: int,
)
    requires
        game::listed(mine, NUM_COMBOS as int),
        game::listed(hands, NUM_COMBOS as int),
        game::cross_indexed(same, mine, hands),
        0 <= i < mine.len(),
        0 <= j < hands.len() < SENTINEL,
    ensures
        (hands[j].c1 == mine[i].c1 && hands[j].c2 == mine[i].c2) <==> j == same[i],
{
    let h = mine[i];
    assert(h.c2 < h.c1 < 52);
    assert(hands[j].c2 < hands[j].c1 < 52);
    let t = same[i];
    if t != SENTINEL {
        let g = hands[t as int];
        assert(g.c2 < g.c1 < 52);
        cards::law_combo_number_is_injective(
            g.c1 as int,
            g.c2 as int,
            h.c1 as int,
            h.c2 as int,
        );
        if hands[j].c1 == h.c1 && hands[j].c2 == h.c2 && j != t {
            if j < t {
                assert(game::hand_number(hands[j]) < game::hand_number(hands[t as int]));
            } else {
                assert(game::hand_number(hands[t as int]) < game::hand_number(hands[j]));
            }
        }
    }
}

/// The reach of the hand with both cards, where the list has it.
proof fn lemma_twin_reach(
    mine: Seq<HandInfo<Nano>>,
    hands: Seq<HandInfo<Nano>>,
    same: Seq<u32>,
    reach: Seq<Nano>,
    a: spec_fn(int) -> bool,
    i: int,
)
    requires
        game::listed(mine, NUM_COMBOS as int),
        game::listed(hands, NUM_COMBOS as int),
        game::cross_indexed(same, mine, hands),
        reach.len() == hands.len() < SENTINEL,
        0 <= i < mine.len(),
    ensures
        reach_where(
            reach,
            hands.len() as int,
            |j: int| a(j) && hands[j].c1 == mine[i].c1 && hands[j].c2 == mine[i].c2,
        ) == if same[i] != SENTINEL && a(same[i] as int) {
            terminal::twin_reach(reach, same[i]).count as int
        } else {
            0
        },
{
    let n = hands.len() as int;
    let both = |j: int| a(j) && hands[j].c1 == mine[i].c1 && hands[j].c2 == mine[i].c2;
    let none = |j: int| false;
    lemma_none_where(reach, n, none);
    assert forall|j: int| 0 <= j < n implies #[trigger] both(j) == (j == same[i] && a(j)) by {
        lemma_twin(mine, hands, same, i, j);
    }
    if same[i] != SENTINEL && a(same[i] as int) {
        assert(0 <= same[i] < n);
        assert(both(same[i] as int));
        lemma_one_more(reach, n, none, both, same[i] as int);
    } else {
        lemma_none_where(reach, n, both);
    }
}

// ---------------------------------------------------------------------------
// Folds
// ---------------------------------------------------------------------------

/// Law: what a hand meets is the reach of the opponent hands that share no
/// card with it.
pub proof fn law_met_reach_is_exact(s: Solver<Nano>, p: int, reach: Seq<Nano>, i: int)
    requires
        s.wf(),
        0 <= p < 2,
        0 <= i < s.nh(p),
        reach.len() == s.nh(1 - p),
        summable(reach),
    ensures
        terminal::met_reach::<Nano>(
            s.spot.hands[p]@,
            s.spot.hands[1 - p]@,
            reach,
            s.spot.same_combo[p]@,
        )[i].count == reach_where(
            reach,
            s.nh(1 - p),
            |j: int| apart(s.spot.hands[1 - p]@[j], s.spot.hands[p]@[i]),
        ),
{
    lemma_met(s, p, reach, i);
}

proof fn lemma_met(s: Solver<Nano>, p: int, reach: Seq<Nano>, i: int)
    requires
        s.wf(),
        0 <= p < 2,
        0 <= i < s.nh(p),
        reach.len() == s.nh(1 - p),
        summable(reach),
    ensures
        ({
            let hands = s.spot.hands[1 - p]@;
            let left = terminal::unblocked::<Nano>(
                terminal::amassed::<Nano>(hands, reach, terminal::upto(hands.len())),
                s.spot.hands[p]@[i],
            );
            left.plus_spec(terminal::twin_reach(reach, s.spot.same_combo[p]@[i])).count
                == reach_where(
                reach,
                s.nh(1 - p),
                |j: int| apart(hands[j], s.spot.hands[p]@[i]),
            )
        }),
{
    let mine = s.spot.hands[p]@;
    let hands = s.spot.hands[1 - p]@;
    let same = s.spot.same_combo[p]@;
    let n = hands.len() as int;
    let order = terminal::upto(hands.len());
    let all = among(order);
    let h = mine[i];
    assert(game::listed(mine, NUM_COMBOS as int));
    assert(game::listed(hands, NUM_COMBOS as int));
    assert(game::cross_indexed(same, mine, hands));
    assert(h.c2 < h.c1 < 52);
    assert(nano::ten_to(0) == 1);
    assert forall|j: int| 0 <= j < n implies #[trigger] all(j) by {
        assert(order[j] == j);
    }
    lemma_unblocked(hands, reach, order, h);
    lemma_twin_reach(mine, hands, same, reach, all, i);
    lemma_same_where(
        reach,
        n,
        |j: int| all(j) && apart(hands[j], h),
        |j: int| apart(hands[j], h),
    );
    lemma_where_bound(reach, n, |j: int| apart(hands[j], h));
    lemma_where_bound(
        reach,
        n,
        |j: int| all(j) && hands[j].c1 == h.c1 && hands[j].c2 == h.c2,
    );
    if same[i] != SENTINEL {
        assert(all(same[i] as int));
    }
}

/// Law: at a fold a hand gets the amount for every unit of reach that shares
/// no card with it.
pub proof fn law_fold_value_is_exact(
    s: Solver<Nano>,
    p: int,
    reach: Seq<Nano>,
    amount: Nano,
    i: int,
    met: Nano,
)
    requires
        s.wf(),
        0 <= p < 2,
        0 <= i < s.nh(p),
        reach.len() == s.nh(1 - p),
        summable(reach),
        met.count == reach_where(
            reach,
            s.nh(1 - p),
            |j: int| apart(s.spot.hands[1 - p]@[j], s.spot.hands[p]@[i]),
        ),
    ensures
        terminal::fold_value::<Nano>(
            s.spot.hands[p]@,
            s.spot.hands[1 - p]@,
            reach,
            s.spot.same_combo[p]@,
            amount,
            i,
        ) == amount.times_spec(met),
{
    lemma_met(s, p, reach, i);
}

// ---------------------------------------------------------------------------
// Showdowns
// ---------------------------------------------------------------------------

/// Whether hand `j` holds none of the dealt cards.
pub open spec fn in_play(hands: Seq<HandInfo<Nano>>, extra: Seq<Card>, j: int) -> bool {
    hands[j].mask & cards::mask_of(extra) == 0
}

/// How strong hand `j` is once the given cards have been dealt.
pub open spec fn strong(
    hands: Seq<HandInfo<Nano>>,
    board: Seq<Card>,
    extra: Seq<Card>,
    j: int,
) -> u32 {
    evaluator::strength7(game::seven(board, extra, hands[j])) as u32
}

/// The entry of hand `j` in a strength list.
pub open spec fn entry_of(
    hands: Seq<HandInfo<Nano>>,
    board: Seq<Card>,
    extra: Seq<Card>,
    j: int,
) -> Ranked {
    (strong(hands, board, extra, j), j as u16)
}

proof fn lemma_ranked(hands: Seq<HandInfo<Nano>>, board: Seq<Card>, extra: Seq<Card>, n: int)
    requires
        0 <= n <= hands.len() <= NUM_COMBOS,
    ensures
        ({
            let all = game::ranked(hands, board, extra, n);
            &&& forall|k: int|
                0 <= k < all.len() ==> {
                    let j = (#[trigger] all[k]).1 as int;
                    j < n && in_play(hands, extra, j) && all[k] == entry_of(hands, board, extra, j)
                }
            &&& forall|j: int|
                0 <= j < n && in_play(hands, extra, j) ==> all.contains(
                    #[trigger] entry_of(hands, board, extra, j),
                )
            &&& all.no_duplicates()
        }),
    decreases n,
{
    let all = game::ranked(hands, board, extra, n);
    if n > 0 {
        lemma_ranked(hands, board, extra, n - 1);
        let rest = game::ranked(hands, board, extra, n - 1);
        assert forall|k: int| 0 <= k < all.len() implies {
            let j = (#[trigger] all[k]).1 as int;
            j < n && in_play(hands, extra, j) && all[k] == entry_of(hands, board, extra, j)
        } by {
            if k < rest.len() {
                assert(all[k] == rest[k]);
            }
        }
        assert forall|j: int| 0 <= j < n && in_play(hands, extra, j) implies all.contains(
            #[trigger] entry_of(hands, board, extra, j),
        ) by {
            let e = entry_of(hands, board, extra, j);
            if j < n - 1 {
                assert(rest.contains(e));
                let k = choose|k: int| 0 <= k < rest.len() && rest[k] == e;
                assert(all[k] == e);
            } else {
                assert(all[all.len() - 1] == e);
            }
        }
        assert forall|x: int, y: int| 0 <= x < all.len() && 0 <= y < all.len() && x
            != y implies all[x] != all[y] by {
            if x < rest.len() && y < rest.len() {
                assert(rest[x] != rest[y]);
            } else if x < rest.len() {
                assert(rest[x].1 < n - 1);
            } else {
                assert(rest[y].1 < n - 1);
            }
        }
    }
}

/// A strength list has one entry for each hand in play.
proof fn lemma_strength_list(
    v: Seq<Ranked>,
    hands: Seq<HandInfo<Nano>>,
    board: Seq<Card>,
    extra: Seq<Card>,
)
    requires
        hands.len() <= NUM_COMBOS,
        game::strength_list(v, hands, board, extra),
    ensures
        forall|k: int|
            0 <= k < v.len() ==> {
                let j = (#[trigger] v[k]).1 as int;
                j < hands.len() && in_play(hands, extra, j) && v[k] == entry_of(
                    hands,
                    board,
                    extra,
                    j,
                )
            },
        forall|j: int|
            0 <= j < hands.len() && in_play(hands, extra, j) ==> v.contains(
                #[trigger] entry_of(hands, board, extra, j),
            ),
        v.no_duplicates(),
{
    let all = game::ranked(hands, board, extra, hands.len() as int);
    lemma_ranked(hands, board, extra, hands.len() as int);
    broadcast use vstd::seq_lib::group_to_multiset_ensures;

    all.lemma_multiset_has_no_duplicates();
    assert forall|k: int| 0 <= k < v.len() implies all.contains(#[trigger] v[k]) by {
        assert(v.contains(v[k]));
        assert(v.to_multiset().count(v[k]) > 0);
    }
    assert forall|k: int| 0 <= k < v.len() implies {
        let j = (#[trigger] v[k]).1 as int;
        j < hands.len() && in_play(hands, extra, j) && v[k] == entry_of(hands, board, extra, j)
    } by {
        assert(all.contains(v[k]));
        let m = choose|m: int| 0 <= m < all.len() && all[m] == v[k];
        assert(all[m].1 == v[k].1);
    }
    assert forall|j: int| 0 <= j < hands.len() && in_play(hands, extra, j) implies v.contains(
        #[trigger] entry_of(hands, board, extra, j),
    ) by {
        let e = entry_of(hands, board, extra, j);
        assert(all.contains(e));
        assert(all.to_multiset().count(e) > 0);
        assert(v.to_multiset().count(e) > 0);
    }
    assert forall|e: Ranked| v.to_multiset().contains(e) implies #[trigger] v.to_multiset().count(e)
        == 1 by {
        assert(all.to_multiset().contains(e));
    }
    v.lemma_multiset_has_no_duplicates_conv();
}

/// What is filtered out of a list is part of it, each entry once.
proof fn lemma_filtered(v: Seq<Ranked>, keep: spec_fn(Ranked) -> bool)
    requires
        v.no_duplicates(),
    ensures
        v.filter(keep).no_duplicates(),
        forall|e: Ranked| #[trigger] v.filter(keep).contains(e) <==> v.contains(e) && keep(e),
    decreases v.len(),
{
    reveal(Seq::filter);
    let out = v.filter(keep);
    if v.len() > 0 {
        let rest = v.drop_last();
        let some = rest.filter(keep);
        let last = v.last();
        assert forall|i: int, j: int| 0 <= i < rest.len() && 0 <= j < rest.len() && i
            != j implies rest[i] != rest[j] by {
            assert(v[i] != v[j]);
        }
        lemma_filtered(rest, keep);
        assert(!rest.contains(last)) by {
            if rest.contains(last) {
                let i = choose|i: int| 0 <= i < rest.len() && rest[i] == last;
                assert(v[i] == v[v.len() - 1]);
            }
        }
        assert forall|e: Ranked| v.contains(e) == (rest.contains(e) || e == last) by {
            if v.contains(e) {
                let i = choose|i: int| 0 <= i < v.len() && v[i] == e;
                if i < rest.len() {
                    assert(rest[i] == e);
                }
            }
            if rest.contains(e) {
                let i = choose|i: int| 0 <= i < rest.len() && rest[i] == e;
                assert(v[i] == e);
            }
            if e == last {
                assert(v[v.len() - 1] == e);
            }
        }
        if keep(last) {
            assert forall|e: Ranked| out.contains(e) == (some.contains(e) || e == last) by {
                if out.contains(e) {
                    let i = choose|i: int| 0 <= i < out.len() && out[i] == e;
                    if i < some.len() {
                        assert(some[i] == e);
                    }
                }
                if some.contains(e) {
                    let i = choose|i: int| 0 <= i < some.len() && some[i] == e;
                    assert(out[i] == e);
                }
                if e == last {
                    assert(out[out.len() - 1] == e);
                }
            }
            assert(!some.contains(last));
            assert forall|i: int, j: int| 0 <= i < out.len() && 0 <= j < out.len() && i
                != j implies out[i] != out[j] by {
                if i < some.len() && j < some.len() {
                    assert(some[i] != some[j]);
                } else if i < some.len() {
                    assert(some.contains(some[i]));
                } else {
                    assert(some.contains(some[j]));
                }
            }
        }
    }
}

/// Whether a list holds the entries of the hands that are asked for, each
/// once.
pub open spec fn lists(
    part: Seq<Ranked>,
    hands: Seq<HandInfo<Nano>>,
    board: Seq<Card>,
    extra: Seq<Card>,
    asked: spec_fn(int) -> bool,
) -> bool {
    &&& part.no_duplicates()
    &&& forall|e: Ranked| #[trigger]
        part.contains(e) <==> {
            let j = e.1 as int;
            &&& j < hands.len()
            &&& in_play(hands, extra, j)
            &&& e == entry_of(hands, board, extra, j)
            &&& asked(j)
        }
}

proof fn lemma_numbers(
    part: Seq<Ranked>,
    hands: Seq<HandInfo<Nano>>,
    board: Seq<Card>,
    extra: Seq<Card>,
    asked: spec_fn(int) -> bool,
)
    requires
        lists(part, hands, board, extra, asked),
        hands.len() <= NUM_COMBOS,
    ensures
        numbers_hands(terminal::numbers(part), hands.len() as int),
        forall|j: int|
            0 <= j < hands.len() ==> #[trigger] among(terminal::numbers(part))(j) == (in_play(
                hands,
                extra,
                j,
            ) && asked(j)),
{
    let order = terminal::numbers(part);
    assert forall|k: int| 0 <= k < order.len() implies 0 <= #[trigger] order[k] < hands.len() by {
        assert(part.contains(part[k]));
    }
    assert forall|x: int, y: int| 0 <= x < order.len() && 0 <= y < order.len() && x
        != y implies order[x] != order[y] by {
        assert(part.contains(part[x]) && part.contains(part[y]));
        assert(part[x] != part[y]);
    }
    assert forall|j: int| 0 <= j < hands.len() implies #[trigger] among(order)(j) == (in_play(
        hands,
        extra,
        j,
    ) && asked(j)) by {
        let e = entry_of(hands, board, extra, j);
        if order.contains(j) {
            let k = choose|k: int| 0 <= k < order.len() && order[k] == j;
            assert(part.contains(part[k]));
        }
        if in_play(hands, extra, j) && asked(j) {
            assert(e.1 == j);
            assert(part.contains(e));
            let k = choose|k: int| 0 <= k < part.len() && part[k] == e;
            assert(order[k] == j);
        }
    }
}

/// Whether a runout is what a showdown is settled on.
pub open spec fn runs_out(s: Solver<Nano>, dealt: Seq<Card>) -> bool {
    &&& dealt.len() == 2 - s.spot.tree.root_street
    &&& game::all_cards(dealt)
    &&& dealt.no_duplicates()
    &&& forall|i: int|
        0 <= i < dealt.len() ==> !cards::in_mask(s.spot.board_mask, (#[trigger] dealt[i]) as int)
}

/// The dealt cards, as the table of strengths keeps them.
pub open spec fn runout(s: Solver<Nano>, dealt: Seq<Card>) -> Seq<Card> {
    game::runout_at(s.spot.tree.root_street, cfr::river_key(s.spot.tree.root_street, dealt))
}

/// The reach of the opponent hands in play that share no card with hand `i`
/// and stand to it as asked: what is asked of is the opponent's strength.
pub open spec fn rivals(
    s: Solver<Nano>,
    p: int,
    reach: Seq<Nano>,
    dealt: Seq<Card>,
    i: int,
    asked: spec_fn(u32) -> bool,
) -> int {
    let hands = s.spot.hands[1 - p]@;
    let extra = runout(s, dealt);
    reach_where(
        reach,
        s.nh(1 - p),
        |j: int|
            in_play(hands, extra, j) && apart(hands[j], s.spot.hands[p]@[i]) && asked(
                strong(hands, s.spot.board@, extra, j),
            ),
    )
}

/// What an entry of the list of a player's hands says.
pub(crate) proof fn lemma_entries(s: Solver<Nano>, p: int, reach: Seq<Nano>, dealt: Seq<Card>)
    requires
        s.wf(),
        0 <= p < 2,
        reach.len() == s.nh(1 - p),
        runs_out(s, dealt),
    ensures
        ({
            let d = s.face_off(p, reach, dealt);
            let extra = runout(s, dealt);
            let mine = s.spot.hands[p]@;
            let hands = s.spot.hands[1 - p]@;
            let board = s.spot.board@;
            &&& d.wf()
            &&& game::strength_list(d.mine, mine, board, extra)
            &&& game::strength_list(d.opps, hands, board, extra)
            &&& d.mine.no_duplicates()
            &&& forall|k: int|
                0 <= k < d.mine.len() ==> {
                    let j = (#[trigger] d.mine[k]).1 as int;
                    j < mine.len() && in_play(mine, extra, j) && d.mine[k] == entry_of(
                        mine,
                        board,
                        extra,
                        j,
                    )
                }
            &&& forall|j: int|
                0 <= j < mine.len() && in_play(mine, extra, j) ==> d.mine.contains(
                    #[trigger] entry_of(mine, board, extra, j),
                )
            &&& d.opps.no_duplicates()
        }),
{
    s.lemma_strengths(p, reach, dealt);
    let k = cfr::river_key(s.spot.tree.root_street, dealt);
    let extra = runout(s, dealt);
    let eval = s.spot.river.slots()[k]->Some_0;
    assert(s.spot.river.street() == s.spot.tree.root_street);
    assert(game::evaluates(eval, s.spot.hands, s.spot.board@, extra));
    lemma_strength_list(eval.sorted[p]@, s.spot.hands[p]@, s.spot.board@, extra);
    lemma_strength_list(eval.sorted[1 - p]@, s.spot.hands[1 - p]@, s.spot.board@, extra);
}

proof fn lemma_opps_part(
    s: Solver<Nano>,
    p: int,
    reach: Seq<Nano>,
    dealt: Seq<Card>,
    part: Seq<Ranked>,
    asked: spec_fn(u32) -> bool,
    keep: spec_fn(Ranked) -> bool,
)
    requires
        s.wf(),
        0 <= p < 2,
        reach.len() == s.nh(1 - p),
        runs_out(s, dealt),
        part.no_duplicates(),
        forall|e: Ranked| #[trigger] keep(e) == asked(e.0),
        forall|e: Ranked| #[trigger]
            part.contains(e) <==> s.face_off(p, reach, dealt).opps.contains(e) && keep(e),
    ensures
        lists(
            part,
            s.spot.hands[1 - p]@,
            s.spot.board@,
            runout(s, dealt),
            |j: int| asked(strong(s.spot.hands[1 - p]@, s.spot.board@, runout(s, dealt), j)),
        ),
{
    let hands = s.spot.hands[1 - p]@;
    let board = s.spot.board@;
    let extra = runout(s, dealt);
    let opps = s.face_off(p, reach, dealt).opps;
    lemma_entries(s, p, reach, dealt);
    lemma_strength_list(opps, hands, board, extra);
    assert forall|e: Ranked| #[trigger] part.contains(e) <==> {
        let j = e.1 as int;
        &&& j < hands.len()
        &&& in_play(hands, extra, j)
        &&& e == entry_of(hands, board, extra, j)
        &&& asked(strong(hands, board, extra, j))
    } by {
        let j = e.1 as int;
        if part.contains(e) {
            assert(opps.contains(e) && keep(e));
            let k = choose|k: int| 0 <= k < opps.len() && opps[k] == e;
            assert(opps[k].1 == e.1);
        }
        if j < hands.len() && in_play(hands, extra, j) && e == entry_of(hands, board, extra, j)
            && asked(strong(hands, board, extra, j)) {
            assert(opps.contains(entry_of(hands, board, extra, j)));
            assert(keep(e));
        }
    }
}

/// Unblocked reach of part of the opponents, before the hand with the same two
/// cards is put back.
proof fn lemma_part_reach(
    s: Solver<Nano>,
    p: int,
    reach: Seq<Nano>,
    dealt: Seq<Card>,
    i: int,
    part: Seq<Ranked>,
    asked: spec_fn(u32) -> bool,
)
    requires
        s.wf(),
        0 <= p < 2,
        reach.len() == s.nh(1 - p),
        summable(reach),
        runs_out(s, dealt),
        0 <= i < s.nh(p),
        in_play(s.spot.hands[p]@, runout(s, dealt), i),
        lists(
            part,
            s.spot.hands[1 - p]@,
            s.spot.board@,
            runout(s, dealt),
            |j: int| asked(strong(s.spot.hands[1 - p]@, s.spot.board@, runout(s, dealt), j)),
        ),
    ensures
        terminal::unblocked::<Nano>(
            terminal::amassed::<Nano>(
                s.spot.hands[1 - p]@,
                reach,
                terminal::numbers(part),
            ),
            s.spot.hands[p]@[i],
        ).count == rivals(s, p, reach, dealt, i, asked) - (if asked(
            strong(s.spot.hands[p]@, s.spot.board@, runout(s, dealt), i),
        ) {
            terminal::twin_reach(reach, s.spot.same_combo[p]@[i]).count as int
        } else {
            0
        }),
{
    let mine = s.spot.hands[p]@;
    let hands = s.spot.hands[1 - p]@;
    let same = s.spot.same_combo[p]@;
    let board = s.spot.board@;
    let extra = runout(s, dealt);
    let order = terminal::numbers(part);
    let n = hands.len() as int;
    let h = mine[i];
    let a = among(order);
    assert(nano::ten_to(0) == 1);
    assert(game::listed(mine, NUM_COMBOS as int));
    assert(game::listed(hands, NUM_COMBOS as int));
    assert(game::cross_indexed(same, mine, hands));
    assert(h.c2 < h.c1 < 52);
    lemma_numbers(
        part,
        hands,
        board,
        extra,
        |j: int| asked(strong(hands, board, extra, j)),
    );
    lemma_unblocked(hands, reach, order, h);
    lemma_twin_reach(mine, hands, same, reach, a, i);
    lemma_same_where(
        reach,
        n,
        |j: int| a(j) && apart(hands[j], h),
        |j: int|
            in_play(hands, extra, j) && apart(hands[j], h) && asked(
                strong(hands, board, extra, j),
            ),
    );
    if same[i] != SENTINEL {
        let t = same[i] as int;
        lemma_twin(mine, hands, same, i, t);
        assert(hands[t].c1 == h.c1 && hands[t].c2 == h.c2);
        assert(hands[t].mask == h.mask);
        assert(game::seven(board, extra, hands[t]) =~= game::seven(board, extra, h));
        assert(a(t) == (in_play(hands, extra, t) && asked(strong(hands, board, extra, t))));
    }
}

/// Law: at a showdown a hand beats the reach of the weaker hands that share no
/// card with it, is beaten by that of the stronger ones, and meets that of all.
pub proof fn law_showdown_reach_is_exact(
    s: Solver<Nano>,
    p: int,
    reach: Seq<Nano>,
    dealt: Seq<Card>,
    k: int,
)
    requires
        s.wf(),
        0 <= p < 2,
        reach.len() == s.nh(1 - p),
        summable(reach),
        runs_out(s, dealt),
        0 <= k < s.face_off(p, reach, dealt).mine.len(),
    ensures
        ({
            let d = s.face_off(p, reach, dealt);
            let (own, i) = (d.mine[k].0, d.mine[k].1 as int);
            &&& d.beaten(k).count == rivals(s, p, reach, dealt, i, |x: u32| x < own)
            &&& d.beating(k).count == rivals(s, p, reach, dealt, i, |x: u32| x > own)
            &&& d.met(k).plus_spec(d.twin(k)).count == rivals(
                s,
                p,
                reach,
                dealt,
                i,
                |x: u32| true,
            )
        }),
{
    let d = s.face_off(p, reach, dealt);
    let (own, i) = (d.mine[k].0, d.mine[k].1 as int);
    lemma_entries(s, p, reach, dealt);
    let up = |e: Ranked| e.0 < own;
    let down = |e: Ranked| e.0 > own;
    lemma_filtered(d.opps, up);
    lemma_filtered(d.opps, down);
    lemma_opps_part(s, p, reach, dealt, terminal::weaker(d.opps, own), |x: u32| x < own, up);
    lemma_part_reach(s, p, reach, dealt, i, terminal::weaker(d.opps, own), |x: u32| x < own);
    let over = d.opps.filter(down);
    let back = terminal::stronger(d.opps, own);
    assert(back =~= over.reverse());
    assert forall|e: Ranked| #[trigger] back.contains(e) <==> d.opps.contains(e) && down(e) by {
        assert(over.contains(e) <==> d.opps.contains(e) && down(e));
        if back.contains(e) {
            let x = choose|x: int| 0 <= x < back.len() && back[x] == e;
            assert(over[over.len() - 1 - x] == e);
        }
        if over.contains(e) {
            let x = choose|x: int| 0 <= x < over.len() && over[x] == e;
            assert(back[over.len() - 1 - x] == e);
        }
    }
    assert(back.no_duplicates()) by {
        assert forall|x: int, y: int| 0 <= x < back.len() && 0 <= y < back.len() && x
            != y implies back[x] != back[y] by {
            assert(over[over.len() - 1 - x] != over[over.len() - 1 - y]);
        }
    }
    lemma_opps_part(s, p, reach, dealt, back, |x: u32| x > own, down);
    lemma_part_reach(s, p, reach, dealt, i, back, |x: u32| x > own);
    lemma_opps_part(s, p, reach, dealt, d.opps, |x: u32| true, |e: Ranked| true);
    lemma_part_reach(s, p, reach, dealt, i, d.opps, |x: u32| true);
    let n = s.nh(1 - p);
    let hands = s.spot.hands[1 - p]@;
    let extra = runout(s, dealt);
    let every = |x: u32| true;
    lemma_where_bound(
        reach,
        n,
        |j: int|
            in_play(hands, extra, j) && apart(hands[j], s.spot.hands[p]@[i]) && every(
                strong(hands, s.spot.board@, extra, j),
            ),
    );
}

} // verus!
