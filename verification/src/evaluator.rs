//! Hand strength.
//!
//! A strength is a number: of two hands the better one has the higher
//! strength, and hands that tie have the same.

use crate::cards::Card;
use crate::cards;
use vstd::prelude::*;

verus! {

/// How many of the cards have rank `r`.
pub open spec fn count_rank(s: Seq<Card>, r: int) -> int
    decreases s.len(),
{
    if s.len() == 0 {
        0
    } else {
        count_rank(s.drop_last(), r) + if s.last() / 4 == r {
            1int
        } else {
            0int
        }
    }
}

/// What a card weighs in its hand: first how often its rank occurs there,
/// then the rank.
pub open spec fn weight(s: Seq<Card>, i: int) -> int {
    13 * count_rank(s, s[i] as int / 4) + s[i] as int / 4
}

pub open spec fn weights(s: Seq<Card>) -> Seq<int> {
    Seq::new(s.len(), |i: int| weight(s, i))
}

/// `s`, in descending order, with `x` put behind everything not smaller.
pub open spec fn sunk(s: Seq<int>, x: int) -> Seq<int>
    decreases s.len(),
{
    if s.len() > 0 && s.last() < x {
        sunk(s.drop_last(), x).push(s.last())
    } else {
        s.push(x)
    }
}

/// `s` in descending order.
pub open spec fn descending(s: Seq<int>) -> Seq<int>
    decreases s.len(),
{
    if s.len() == 0 {
        s
    } else {
        sunk(descending(s.drop_last()), s.last())
    }
}

/// All cards have one suit.
pub open spec fn is_flush(s: Seq<Card>) -> bool {
    forall|i: int| 0 <= i < s.len() ==> #[trigger] s[i] % 4 == s[0] % 4
}

/// The rank that a straight reaches up to, given the five weights in
/// descending order. The ace also counts below the deuce.
pub open spec fn straight_high(w: Seq<int>) -> Option<int> {
    if w[0] - 1 == w[1] && w[1] - 1 == w[2] && w[2] - 1 == w[3] && w[3] - 1 == w[4] && w[0] < 26 {
        Some(w[0] - 13)
    } else if w == seq![25int, 16, 15, 14, 13] {
        Some(3int)
    } else {
        None
    }
}

/// The kind of a five-card hand, from high card (0) to straight flush (8),
/// given its weights in descending order.
pub open spec fn hand_kind(w: Seq<int>, flush: bool) -> int {
    let straight = straight_high(w) is Some;
    if flush && straight {
        8
    } else if w[0] >= 52 {
        7
    } else if w[0] >= 39 && w[3] >= 26 {
        6
    } else if flush {
        5
    } else if straight {
        4
    } else if w[0] >= 39 {
        3
    } else if w[0] >= 26 && w[2] >= 26 {
        2
    } else if w[0] >= 26 {
        1
    } else {
        0
    }
}

/// The ranks in descending order of weight, as one number.
pub open spec fn kickers(w: Seq<int>) -> int {
    match straight_high(w) {
        Some(h) => h * 28_561,
        None => (((w[0] % 13 * 13 + w[1] % 13) * 13 + w[2] % 13) * 13 + w[3] % 13) * 13 + w[4] % 13,
    }
}

/// The strength of five cards.
pub open spec fn strength5(s: Seq<Card>) -> int {
    let w = descending(weights(s));
    hand_kind(w, is_flush(s)) * 371_293 + kickers(w)
}

/// Seven cards without those at `i` and `j`, where `i < j`.
pub open spec fn without_two(s: Seq<Card>, i: int, j: int) -> Seq<Card> {
    s.remove(j).remove(i)
}

/// The best strength among the ways to leave out two of seven cards, of which
/// the first `k` are looked at: way `k` leaves out cards `k / 7` and `k % 7`.
pub open spec fn best_of(s: Seq<Card>, k: int) -> int
    decreases k,
{
    if k <= 0 {
        0
    } else {
        let rest = best_of(s, k - 1);
        let (i, j) = ((k - 1) / 7, (k - 1) % 7);
        if i < j && strength5(without_two(s, i, j)) > rest {
            strength5(without_two(s, i, j))
        } else {
            rest
        }
    }
}

/// The strength of seven cards: that of the best five of them.
pub open spec fn strength7(s: Seq<Card>) -> int {
    best_of(s, 49)
}

proof fn lemma_count_bound(s: Seq<Card>, r: int)
    ensures
        0 <= count_rank(s, r) <= s.len(),
    decreases s.len(),
{
    if s.len() > 0 {
        lemma_count_bound(s.drop_last(), r);
    }
}

fn count_of(s: &[Card; 5], r: u8) -> (n: u8)
    ensures
        n == count_rank(s@, r as int),
        n <= 5,
{
    let mut n: u8 = 0;
    let mut i: usize = 0;
    assert(s@.take(0) =~= Seq::<Card>::empty());
    while i < 5
        invariant
            i <= 5,
            n == count_rank(s@.take(i as int), r as int),
            n <= i,
        decreases 5 - i,
    {
        assert(s@.take(i + 1).drop_last() =~= s@.take(i as int));
        if s[i] / 4 == r {
            n = n + 1;
        }
        i = i + 1;
    }
    assert(s@.take(5) =~= s@);
    n
}

spec fn ints(s: Seq<u32>) -> Seq<int> {
    Seq::new(s.len(), |i: int| s[i] as int)
}

/// The weights of five cards in descending order.
fn sorted_weights(s: &[Card; 5]) -> (v: Vec<u32>)
    requires
        forall|i: int| 0 <= i < 5 ==> s@[i] < 52,
    ensures
        v@.len() == 5,
        ints(v@) == descending(weights(s@)),
        forall|i: int| 0 <= i < 5 ==> v@[i] <= 77,
{
    let mut v: Vec<u32> = Vec::new();
    let mut i: usize = 0;
    let ghost all = weights(s@);
    assert(all.take(0) =~= Seq::<int>::empty());
    assert(ints(v@) =~= descending(all.take(0)));
    while i < 5
        invariant
            i <= 5,
            all == weights(s@),
            forall|i: int| 0 <= i < 5 ==> s@[i] < 52,
            v@.len() == i,
            ints(v@) == descending(all.take(i as int)),
            forall|k: int| 0 <= k < i ==> v@[k] <= 77,
        decreases 5 - i,
    {
        let x: u32 = 13 * (count_of(s, s[i] / 4) as u32) + (s[i] / 4) as u32;
        assert(x == all[i as int]);
        let ghost before = ints(v@);
        let mut k: usize = v.len();
        assert(before.take(k as int) =~= before);
        assert(sunk(before, x as int) =~= sunk(before.take(k as int), x as int) + before.skip(
            k as int,
        ));
        while k > 0 && v[k - 1] < x
            invariant
                k <= v.len(),
                ints(v@) == before,
                sunk(before, x as int) == sunk(before.take(k as int), x as int) + before.skip(
                    k as int,
                ),
            decreases k,
        {
            assert(before.take(k as int).drop_last() =~= before.take(k - 1));
            assert(before[k - 1] == v@[k - 1]);
            k = k - 1;
            assert(before.skip(k as int) =~= seq![before[k as int]] + before.skip(k + 1));
            assert(sunk(before, x as int) =~= sunk(before.take(k as int), x as int) + before.skip(
                k as int,
            ));
        }
        if k > 0 {
            assert(before[k - 1] == v@[k - 1]);
        }
        v.insert(k, x);
        assert(ints(v@) =~= before.take(k as int).push(x as int) + before.skip(k as int));
        assert(all.take(i + 1).drop_last() =~= all.take(i as int));
        i = i + 1;
    }
    assert(all.take(5) =~= all);
    v
}

fn evaluate5(s: &[Card; 5]) -> (r: u32)
    requires
        forall|i: int| 0 <= i < 5 ==> s@[i] < 52,
    ensures
        r == strength5(s@),
{
    let w = sorted_weights(s);
    let ghost g = descending(weights(s@));
    assert(g[0] == w@[0] && g[1] == w@[1] && g[2] == w@[2] && g[3] == w@[3] && g[4] == w@[4]);
    let suit: u8 = s[0] % 4;
    let flush: bool = s[1] % 4 == suit && s[2] % 4 == suit && s[3] % 4 == suit && s[4] % 4 == suit;
    proof {
        if flush {
            assert forall|i: int| 0 <= i < s@.len() implies #[trigger] s@[i] % 4 == s@[0] % 4 by {
                assert(i == 0 || i == 1 || i == 2 || i == 3 || i == 4);
            }
        } else {
            assert(s@[1] % 4 != s@[0] % 4 || s@[2] % 4 != s@[0] % 4 || s@[3] % 4 != s@[0] % 4
                || s@[4] % 4 != s@[0] % 4);
        }
        assert(flush == is_flush(s@));
    }
    let run: bool = w[0] == w[1] + 1 && w[1] == w[2] + 1 && w[2] == w[3] + 1 && w[3] == w[4] + 1
        && w[0] < 26;
    let wheel: bool = w[0] == 25 && w[1] == 16 && w[2] == 15 && w[3] == 14 && w[4] == 13;
    proof {
        lemma_weights_floor(s@);
        assert(w@[0] >= 13 && w@[1] >= 13 && w@[2] >= 13 && w@[3] >= 13 && w@[4] >= 13);
        if wheel {
            assert(g =~= seq![25int, 16, 15, 14, 13]);
        }
    }
    let straight: bool = run || wheel;
    let kind: u32 = if flush && straight {
        8
    } else if w[0] >= 52 {
        7
    } else if w[0] >= 39 && w[3] >= 26 {
        6
    } else if flush {
        5
    } else if straight {
        4
    } else if w[0] >= 39 {
        3
    } else if w[0] >= 26 && w[2] >= 26 {
        2
    } else if w[0] >= 26 {
        1
    } else {
        0
    };
    let low: u32 = if run {
        (w[0] - 13) * 28_561
    } else if wheel {
        3 * 28_561
    } else {
        (((w[0] % 13 * 13 + w[1] % 13) * 13 + w[2] % 13) * 13 + w[3] % 13) * 13 + w[4] % 13
    };
    kind * 371_293 + low
}

/// A card in a hand has its own rank at least once there.
proof fn lemma_weights_floor(s: Seq<Card>)
    ensures
        descending(weights(s)).len() == s.len(),
        forall|i: int| 0 <= i < s.len() ==> #[trigger] descending(weights(s))[i] >= 13,
{
    assert forall|i: int| 0 <= i < s.len() implies #[trigger] weights(s)[i] >= 13 by {
        lemma_count_own(s, i);
    }
    lemma_descending_floor(weights(s));
}

proof fn lemma_count_own(s: Seq<Card>, i: int)
    requires
        0 <= i < s.len(),
    ensures
        count_rank(s, s[i] as int / 4) >= 1,
    decreases s.len(),
{
    lemma_count_bound(s.drop_last(), s[i] as int / 4);
    if i < s.len() - 1 {
        lemma_count_own(s.drop_last(), i);
    }
}

proof fn lemma_descending_floor(s: Seq<int>)
    requires
        forall|i: int| 0 <= i < s.len() ==> #[trigger] s[i] >= 13,
    ensures
        descending(s).len() == s.len(),
        forall|i: int| 0 <= i < s.len() ==> #[trigger] descending(s)[i] >= 13,
    decreases s.len(),
{
    if s.len() > 0 {
        lemma_descending_floor(s.drop_last());
        lemma_sunk_floor(descending(s.drop_last()), s.last());
    }
}

proof fn lemma_sunk_floor(s: Seq<int>, x: int)
    requires
        x >= 13,
        forall|i: int| 0 <= i < s.len() ==> #[trigger] s[i] >= 13,
    ensures
        sunk(s, x).len() == s.len() + 1,
        forall|i: int| 0 <= i < sunk(s, x).len() ==> #[trigger] sunk(s, x)[i] >= 13,
    decreases s.len(),
{
    if s.len() > 0 && s.last() < x {
        lemma_sunk_floor(s.drop_last(), x);
    }
}

/// The strength of the best five of seven cards.
#[verifier::rlimit(40)]
#[verifier::spinoff_prover]
pub fn evaluate7(s: &[Card; 7]) -> (r: u32)
    requires
        forall|i: int| 0 <= i < 7 ==> s@[i] < 52,
    ensures
        r == strength7(s@),
{
    let mut best: u32 = 0;
    let mut k: usize = 0;
    while k < 49
        invariant
            k <= 49,
            forall|i: int| 0 <= i < 7 ==> s@[i] < 52,
            best == best_of(s@, k as int),
        decreases 49 - k,
    {
        let i: usize = k / 7;
        let j: usize = k % 7;
        if i < j {
            let five = remaining(s, i, j);
            let v: u32 = evaluate5(&five);
            if v > best {
                best = v;
            }
        }
        k = k + 1;
    }
    best
}

/// The cards that remain without cards `i` and `j`.
fn remaining(s: &[Card; 7], i: usize, j: usize) -> (r: [Card; 5])
    requires
        i < j < 7,
        forall|i: int| 0 <= i < 7 ==> s@[i] < 52,
    ensures
        r@ == without_two(s@, i as int, j as int),
        forall|n: int| 0 <= n < 5 ==> r@[n] < 52,
{
    let five: [Card; 5] = [
        left_out(s, i, j, 0),
        left_out(s, i, j, 1),
        left_out(s, i, j, 2),
        left_out(s, i, j, 3),
        left_out(s, i, j, 4),
    ];
    assert(five@ =~= without_two(s@, i as int, j as int));
    five
}

/// Card `n` of those that remain without cards `i` and `j`.
fn left_out(s: &[Card; 7], i: usize, j: usize, n: usize) -> (c: Card)
    requires
        i < j < 7,
        n < 5,
        forall|i: int| 0 <= i < 7 ==> s@[i] < 52,
    ensures
        c == without_two(s@, i as int, j as int)[n as int],
        c < 52,
{
    let at: usize = if n < i {
        n
    } else if n + 1 < j {
        n + 1
    } else {
        n + 2
    };
    s[at]
}

/// Cards with their suits renamed.
pub open spec fn renamed(s: Seq<Card>, pm: [u8; 4]) -> Seq<Card> {
    Seq::new(s.len(), |i: int| cards::permuted(s[i] as int, pm) as u8)
}

proof fn lemma_permuted_parts(c: int, pm: [u8; 4])
    requires
        cards::is_card(c),
        cards::is_perm(pm),
    ensures
        cards::is_card(cards::permuted(c, pm)),
        cards::permuted(c, pm) / 4 == c / 4,
        cards::permuted(c, pm) % 4 == pm[c % 4],
{
    let s = c % 4;
    assert(s == 0 || s == 1 || s == 2 || s == 3);
}

proof fn lemma_renamed_count(s: Seq<Card>, pm: [u8; 4], r: int)
    requires
        cards::is_perm(pm),
        forall|i: int| 0 <= i < s.len() ==> cards::is_card(#[trigger] s[i] as int),
    ensures
        count_rank(renamed(s, pm), r) == count_rank(s, r),
    decreases s.len(),
{
    if s.len() > 0 {
        assert(renamed(s, pm).drop_last() =~= renamed(s.drop_last(), pm));
        lemma_renamed_count(s.drop_last(), pm, r);
        lemma_permuted_parts(s[s.len() - 1] as int, pm);
    }
}

proof fn lemma_renamed_strength5(s: Seq<Card>, pm: [u8; 4])
    requires
        cards::is_perm(pm),
        s.len() == 5,
        forall|i: int| 0 <= i < s.len() ==> cards::is_card(#[trigger] s[i] as int),
    ensures
        strength5(renamed(s, pm)) == strength5(s),
{
    let t = renamed(s, pm);
    assert forall|i: int| 0 <= i < 5 implies weights(t)[i] == weights(s)[i] by {
        lemma_permuted_parts(s[i] as int, pm);
        lemma_renamed_count(s, pm, s[i] as int / 4);
    }
    assert(weights(t) =~= weights(s));
    assert forall|i: int| #![trigger t[i]] #![trigger s[i]] 0 <= i < 5 implies (t[i] % 4 == t[0] % 4
        <==> s[i] % 4 == s[0] % 4) by {
        lemma_permuted_parts(s[i] as int, pm);
        lemma_permuted_parts(s[0] as int, pm);
        let a = s[i] as int % 4;
        let b = s[0] as int % 4;
        assert(a == 0 || a == 1 || a == 2 || a == 3);
        assert(b == 0 || b == 1 || b == 2 || b == 3);
    }
    if is_flush(t) {
        assert forall|i: int| 0 <= i < s.len() implies #[trigger] s[i] % 4 == s[0] % 4 by {
            assert(t[i] % 4 == t[0] % 4);
        }
    }
    if is_flush(s) {
        assert forall|i: int| 0 <= i < t.len() implies #[trigger] t[i] % 4 == t[0] % 4 by {
            assert(s[i] % 4 == s[0] % 4);
        }
    }
}

proof fn lemma_renamed_best(s: Seq<Card>, pm: [u8; 4], k: int)
    requires
        cards::is_perm(pm),
        s.len() == 7,
        k <= 49,
        forall|i: int| 0 <= i < s.len() ==> cards::is_card(#[trigger] s[i] as int),
    ensures
        best_of(renamed(s, pm), k) == best_of(s, k),
    decreases k,
{
    if k > 0 {
        lemma_renamed_best(s, pm, k - 1);
        let (i, j) = ((k - 1) / 7, (k - 1) % 7);
        if i < j {
            let five = without_two(s, i, j);
            assert(without_two(renamed(s, pm), i, j) =~= renamed(five, pm));
            assert forall|m: int| 0 <= m < five.len() implies cards::is_card(#[trigger] five[m] as int) by {
                let at = if m < i {
                    m
                } else if m + 1 < j {
                    m + 1
                } else {
                    m + 2
                };
                assert(five[m] == s[at]);
            }
            lemma_renamed_strength5(five, pm);
        }
    }
}

/// Renaming the suits of all cards changes no strength.
pub proof fn law_strength_ignores_suit_names(s: Seq<Card>, pm: [u8; 4])
    requires
        cards::is_perm(pm),
        s.len() == 7,
        forall|i: int| 0 <= i < s.len() ==> cards::is_card(#[trigger] s[i] as int),
    ensures
        strength7(renamed(s, pm)) == strength7(s),
{
    lemma_renamed_best(s, pm, 49);
}

} // verus!
