//! How hands rank: by kind, then by their ranks, and seven cards by the best
//! five of them.

use crate::cards::Card;
use crate::evaluator;
use vstd::prelude::*;

verus! {

// ---------------------------------------------------------------------------
// Weights in order
// ---------------------------------------------------------------------------

/// How many numbers of a list are as asked.
pub open spec fn num_where(s: Seq<int>, asked: spec_fn(int) -> bool) -> int
    decreases s.len(),
{
    if s.len() == 0 {
        0
    } else {
        num_where(s.drop_last(), asked) + if asked(s.last()) {
            1int
        } else {
            0
        }
    }
}

/// Whether a list falls, or stays level.
pub open spec fn falling(s: Seq<int>) -> bool {
    forall|i: int, j: int| 0 <= i < j < s.len() ==> #[trigger] s[i] >= #[trigger] s[j]
}

proof fn lemma_sunk(s: Seq<int>, x: int, asked: spec_fn(int) -> bool)
    requires
        falling(s),
    ensures
        falling(evaluator::sunk(s, x)),
        evaluator::sunk(s, x).len() == s.len() + 1,
        num_where(evaluator::sunk(s, x), asked) == num_where(s, asked) + if asked(x) {
            1int
        } else {
            0
        },
        forall|i: int|
            0 <= i < evaluator::sunk(s, x).len() ==> s.contains(#[trigger] evaluator::sunk(s, x)[i])
                || evaluator::sunk(s, x)[i] == x,
    decreases s.len(),
{
    let out = evaluator::sunk(s, x);
    if s.len() > 0 && s.last() < x {
        let rest = s.drop_last();
        assert(falling(rest)) by {
            assert forall|i: int, j: int| 0 <= i < j < rest.len() implies #[trigger] rest[i]
                >= #[trigger] rest[j] by {
                assert(rest[i] == s[i] && rest[j] == s[j]);
            }
        }
        lemma_sunk(rest, x, asked);
        let before = evaluator::sunk(rest, x);
        assert(out == before.push(s.last()));
        assert(out.drop_last() =~= before);
        assert forall|i: int| 0 <= i < out.len() implies s.contains(#[trigger] out[i]) || out[i]
            == x by {
            if i < before.len() {
                assert(out[i] == before[i]);
                if rest.contains(before[i]) {
                    let k = choose|k: int| 0 <= k < rest.len() && rest[k] == before[i];
                    assert(s[k] == before[i]);
                }
            } else {
                assert(s[s.len() - 1] == out[i]);
            }
        }
        assert forall|i: int, j: int| 0 <= i < j < out.len() implies #[trigger] out[i]
            >= #[trigger] out[j] by {
            assert(out[i] == before[i]);
            if j < before.len() {
                assert(out[j] == before[j]);
            } else if before[i] != x {
                assert(rest.contains(before[i]));
                let k = choose|k: int| 0 <= k < rest.len() && rest[k] == before[i];
                assert(s[k] >= s[s.len() - 1]);
            }
        }
    } else {
        assert(out == s.push(x));
        assert(out.drop_last() =~= s);
        assert forall|i: int| 0 <= i < out.len() implies s.contains(#[trigger] out[i]) || out[i]
            == x by {
            if i < s.len() {
                assert(s[i] == out[i]);
            }
        }
        assert forall|i: int, j: int| 0 <= i < j < out.len() implies #[trigger] out[i]
            >= #[trigger] out[j] by {
            assert(out[i] == s[i]);
            if j < s.len() {
                assert(out[j] == s[j]);
            } else {
                assert(s[i] >= s[s.len() - 1]);
            }
        }
    }
}

/// Law: numbers in descending order are the same numbers, each as often.
pub proof fn law_descending_keeps_the_numbers(s: Seq<int>, asked: spec_fn(int) -> bool)
    ensures
        falling(evaluator::descending(s)),
        evaluator::descending(s).len() == s.len(),
        num_where(evaluator::descending(s), asked) == num_where(s, asked),
    decreases s.len(),
{
    if s.len() > 0 {
        law_descending_keeps_the_numbers(s.drop_last(), asked);
        lemma_sunk(evaluator::descending(s.drop_last()), s.last(), asked);
    }
}

/// Five numbers in falling order: how many are as large as a bound tells which.
proof fn lemma_five(w: Seq<int>, t: int)
    requires
        w.len() == 5,
        falling(w),
    ensures
        ({
            let n = num_where(w, |x: int| x >= t);
            &&& w[0] >= t <==> n >= 1
            &&& w[1] >= t <==> n >= 2
            &&& w[2] >= t <==> n >= 3
            &&& w[3] >= t <==> n >= 4
            &&& w[4] >= t <==> n >= 5
        }),
{
    let f = |x: int| x >= t;
    reveal_with_fuel(num_where, 6);
    let (a, b, c, d) = (w.drop_last(), w.drop_last().drop_last(), w.take(2), w.take(1));
    assert(b.drop_last() =~= c && c.drop_last() =~= d && d.drop_last() =~= Seq::<int>::empty());
    assert(w[0] >= w[1] && w[1] >= w[2] && w[2] >= w[3] && w[3] >= w[4]);
}

proof fn lemma_none_or_some(s: Seq<int>, asked: spec_fn(int) -> bool)
    ensures
        0 <= num_where(s, asked) <= s.len(),
        num_where(s, asked) >= 1 <==> exists|i: int| 0 <= i < s.len() && asked(#[trigger] s[i]),
        num_where(s, asked) == s.len() <==> forall|i: int|
            0 <= i < s.len() ==> asked(#[trigger] s[i]),
    decreases s.len(),
{
    if s.len() > 0 {
        let rest = s.drop_last();
        lemma_none_or_some(rest, asked);
        assert(s.last() == s[s.len() - 1]);
        if num_where(rest, asked) >= 1 {
            let i = choose|i: int| 0 <= i < rest.len() && asked(#[trigger] rest[i]);
            assert(asked(s[i]));
        }
        if exists|i: int| 0 <= i < s.len() && asked(#[trigger] s[i]) {
            let i = choose|i: int| 0 <= i < s.len() && asked(#[trigger] s[i]);
            if i < rest.len() {
                assert(asked(rest[i]));
            }
        }
        if num_where(s, asked) == s.len() {
            assert forall|i: int| 0 <= i < s.len() implies asked(#[trigger] s[i]) by {
                if i < rest.len() {
                    assert(asked(rest[i]));
                }
            }
        }
        if forall|i: int| 0 <= i < s.len() ==> asked(#[trigger] s[i]) {
            assert forall|i: int| 0 <= i < rest.len() implies asked(#[trigger] rest[i]) by {
                assert(asked(s[i]));
            }
        }
    }
}

/// Where two numbers are alike, they stand in two places.
proof fn lemma_two_places(s: Seq<int>, t: int) -> (r: (int, int))
    requires
        num_where(s, |x: int| x == t) >= 2,
    ensures
        0 <= r.0 < r.1 < s.len(),
        s[r.0] == t,
        s[r.1] == t,
    decreases s.len(),
{
    let f = |x: int| x == t;
    let rest = s.drop_last();
    if s.last() == t {
        lemma_none_or_some(rest, f);
        let i = choose|i: int| 0 <= i < rest.len() && f(#[trigger] rest[i]);
        (i, s.len() - 1)
    } else {
        let r = lemma_two_places(rest, t);
        r
    }
}

// ---------------------------------------------------------------------------
// Kinds of hands
// ---------------------------------------------------------------------------

/// Five cards.
pub open spec fn five(s: Seq<Card>) -> bool {
    s.len() == 5 && forall|i: int| 0 <= i < 5 ==> #[trigger] s[i] < 52
}

/// The rank of the `i`-th card.
pub open spec fn rank_at(s: Seq<Card>, i: int) -> int {
    s[i] as int / 4
}

/// Whether some rank occurs `k` times or more.
pub open spec fn times(s: Seq<Card>, k: int) -> bool {
    exists|i: int| 0 <= i < s.len() && evaluator::count_rank(s, #[trigger] rank_at(s, i)) >= k
}

/// How many of the first `n` cards share their rank with another.
pub open spec fn paired(s: Seq<Card>, n: int) -> int
    decreases n,
{
    if n <= 0 {
        0
    } else {
        paired(s, n - 1) + if evaluator::count_rank(s, rank_at(s, n - 1)) >= 2 {
            1int
        } else {
            0
        }
    }
}

/// Whether cards run up to rank `h`: no two share their rank, and they are the
/// five ranks up to `h`, or the ace below the deuce and up to the five.
pub open spec fn runs_to(s: Seq<Card>, h: int) -> bool {
    &&& paired(s, 5) == 0
    &&& (exists|i: int| 0 <= i < 5 && #[trigger] rank_at(s, i) == h)
    &&& {
        ||| forall|i: int| 0 <= i < 5 ==> h - 4 <= #[trigger] rank_at(s, i) <= h
        ||| h == 3 && forall|i: int|
            0 <= i < 5 ==> #[trigger] rank_at(s, i) <= 3 || rank_at(s, i) == 12
    }
}

pub open spec fn straight(s: Seq<Card>) -> bool {
    exists|h: int| #[trigger] runs_to(s, h)
}

/// All cards have one suit.
pub open spec fn suited(s: Seq<Card>) -> bool {
    forall|i: int, j: int|
        0 <= i < s.len() && 0 <= j < s.len() ==> #[trigger] s[i] % 4 == #[trigger] s[j] % 4
}

/// What a hand is, from a high card up to a straight flush.
pub open spec fn kind_of(s: Seq<Card>) -> int {
    if suited(s) && straight(s) {
        8
    } else if times(s, 4) {
        7
    } else if times(s, 3) && paired(s, 5) >= 4 {
        6
    } else if suited(s) {
        5
    } else if straight(s) {
        4
    } else if times(s, 3) {
        3
    } else if paired(s, 5) >= 3 {
        2
    } else if paired(s, 5) >= 1 {
        1
    } else {
        0
    }
}

proof fn lemma_counts(s: Seq<Card>, r: int)
    ensures
        0 <= evaluator::count_rank(s, r) <= s.len(),
        forall|i: int| 0 <= i < s.len() && #[trigger] rank_at(s, i) == r ==> evaluator::count_rank(
            s,
            r,
        ) >= 1,
        forall|i: int, j: int|
            0 <= i < j < s.len() && #[trigger] rank_at(s, i) == r && #[trigger] rank_at(s, j) == r
                ==> evaluator::count_rank(s, r) >= 2,
    decreases s.len(),
{
    if s.len() > 0 {
        let rest = s.drop_last();
        lemma_counts(rest, r);
        assert forall|i: int| 0 <= i < s.len() && #[trigger] rank_at(s, i) == r implies
            evaluator::count_rank(s, r) >= 1 by {
            if i < rest.len() {
                assert(rank_at(rest, i) == r);
            }
        }
        assert forall|i: int, j: int|
            0 <= i < j < s.len() && #[trigger] rank_at(s, i) == r && #[trigger] rank_at(s, j)
                == r implies evaluator::count_rank(s, r) >= 2 by {
            assert(rank_at(rest, i) == r);
            if j < rest.len() {
                assert(rank_at(rest, j) == r);
            }
        }
    }
}

/// What a card weighs tells how often its rank occurs.
proof fn lemma_weight(s: Seq<Card>, i: int)
    requires
        five(s),
        0 <= i < 5,
    ensures
        ({
            let n = evaluator::count_rank(s, rank_at(s, i));
            &&& evaluator::weights(s)[i] == 13 * n + rank_at(s, i)
            &&& 1 <= n <= 5
            &&& 0 <= rank_at(s, i) < 13
        }),
{
    lemma_counts(s, rank_at(s, i));
    assert(s[i] < 52);
}

proof fn lemma_paired(s: Seq<Card>, n: int)
    requires
        five(s),
        0 <= n <= 5,
    ensures
        paired(s, n) == num_where(evaluator::weights(s).take(n), |x: int| x >= 26),
    decreases n,
{
    let w = evaluator::weights(s);
    if n > 0 {
        lemma_paired(s, n - 1);
        assert(w.take(n).drop_last() =~= w.take(n - 1));
        assert(w.take(n).last() == w[n - 1]);
        lemma_weight(s, n - 1);
    } else {
        assert(w.take(0) =~= Seq::<int>::empty());
    }
}

proof fn lemma_times(s: Seq<Card>, k: int)
    requires
        five(s),
        1 <= k <= 5,
    ensures
        times(s, k) <==> num_where(evaluator::weights(s), |x: int| x >= 13 * k) >= 1,
{
    let f = |x: int| x >= 13 * k;
    let w = evaluator::weights(s);
    lemma_none_or_some(w, f);
    assert forall|i: int| 0 <= i < 5 implies f(#[trigger] w[i]) == (evaluator::count_rank(
        s,
        rank_at(s, i),
    ) >= k) by {
        lemma_weight(s, i);
    }
    if times(s, k) {
        let i = choose|i: int|
            0 <= i < s.len() && evaluator::count_rank(s, #[trigger] rank_at(s, i)) >= k;
        assert(f(w[i]));
    }
    if exists|i: int| 0 <= i < w.len() && f(#[trigger] w[i]) {
        let i = choose|i: int| 0 <= i < w.len() && f(#[trigger] w[i]);
        assert(evaluator::count_rank(s, rank_at(s, i)) >= k);
    }
}

/// The weights in order, as far as they are told by bounds.
proof fn lemma_bound(s: Seq<Card>, t: int)
    requires
        five(s),
    ensures
        ({
            let w = evaluator::descending(evaluator::weights(s));
            let n = num_where(evaluator::weights(s), |x: int| x >= t);
            &&& w.len() == 5
            &&& falling(w)
            &&& w[0] >= t <==> n >= 1
            &&& w[1] >= t <==> n >= 2
            &&& w[2] >= t <==> n >= 3
            &&& w[3] >= t <==> n >= 4
            &&& w[4] >= t <==> n >= 5
        }),
{
    let all = evaluator::weights(s);
    law_descending_keeps_the_numbers(all, |x: int| x >= t);
    lemma_five(evaluator::descending(all), t);
}

/// Every weight in order is some card's.
proof fn lemma_found(s: Seq<Card>, k: int) -> (i: int)
    requires
        five(s),
        0 <= k < 5,
    ensures
        0 <= i < 5,
        evaluator::descending(evaluator::weights(s))[k] == evaluator::weights(s)[i],
{
    let all = evaluator::weights(s);
    let w = evaluator::descending(all);
    law_descending_keeps_the_numbers(all, |x: int| x == w[k]);
    let f = |x: int| x == w[k];
    lemma_none_or_some(w, f);
    assert(f(w[k]));
    lemma_none_or_some(all, f);
    let i = choose|i: int| 0 <= i < all.len() && f(#[trigger] all[i]);
    i
}

/// Where no two cards share their rank, weights fall strictly.
proof fn lemma_strict(s: Seq<Card>, k: int)
    requires
        five(s),
        paired(s, 5) == 0,
        0 <= k < 4,
    ensures
        ({
            let w = evaluator::descending(evaluator::weights(s));
            w.len() == 5 && w[k] > w[k + 1]
        }),
{
    let all = evaluator::weights(s);
    let w = evaluator::descending(all);
    lemma_bound(s, 0);
    if w[k] == w[k + 1] {
        let t = w[k];
        let f = |x: int| x == t;
        law_descending_keeps_the_numbers(all, f);
        lemma_twice(w, k, t);
        let (i, j) = lemma_two_places(all, t);
        lemma_weight(s, i);
        lemma_weight(s, j);
        let r = rank_at(s, i);
        assert(rank_at(s, j) == r) by {
            assert(all[i] % 13 == r);
            assert(all[j] % 13 == rank_at(s, j));
        }
        lemma_counts(s, r);
        lemma_none_paired(s, i);
    }
}

proof fn lemma_twice(w: Seq<int>, k: int, t: int)
    requires
        0 <= k < w.len() - 1,
        w[k] == t,
        w[k + 1] == t,
    ensures
        num_where(w, |x: int| x == t) >= 2,
    decreases w.len(),
{
    let f = |x: int| x == t;
    let rest = w.drop_last();
    if k + 1 == w.len() - 1 {
        lemma_none_or_some(rest, f);
        assert(f(rest[k]));
    } else {
        lemma_twice(rest, k, t);
        assert(rest[k] == w[k] && rest[k + 1] == w[k + 1]);
    }
}

proof fn lemma_none_paired(s: Seq<Card>, i: int)
    requires
        five(s),
        paired(s, 5) == 0,
        0 <= i < 5,
    ensures
        evaluator::count_rank(s, rank_at(s, i)) == 1,
        evaluator::weights(s)[i] == 13 + rank_at(s, i),
{
    lemma_weight(s, i);
    reveal_with_fuel(paired, 6);
    assert(i == 0 || i == 1 || i == 2 || i == 3 || i == 4);
}

/// Where all weights are below two of a rank, no two cards share their rank.
proof fn lemma_single(s: Seq<Card>)
    requires
        five(s),
        evaluator::descending(evaluator::weights(s))[0] < 26,
    ensures
        paired(s, 5) == 0,
{
    lemma_bound(s, 26);
    lemma_paired(s, 5);
    lemma_none_or_some(evaluator::weights(s), |x: int| x >= 26);
    assert(evaluator::weights(s).take(5) =~= evaluator::weights(s));
}

proof fn lemma_run_found(s: Seq<Card>)
    requires
        five(s),
        evaluator::straight_high(evaluator::descending(evaluator::weights(s))) is Some,
    ensures
        runs_to(
            s,
            evaluator::straight_high(evaluator::descending(evaluator::weights(s)))->Some_0,
        ),
{
    let all = evaluator::weights(s);
    let w = evaluator::descending(all);
    let h = evaluator::straight_high(w)->Some_0;
    lemma_bound(s, 0);
    lemma_single(s);
    if w == seq![25int, 16, 15, 14, 13] && !(w[0] - 1 == w[1]) {
        let i = lemma_found(s, 1);
        lemma_none_paired(s, i);
        assert(rank_at(s, i) == 3);
        assert forall|j: int| 0 <= j < 5 implies #[trigger] rank_at(s, j) <= 3 || rank_at(s, j)
            == 12 by {
            lemma_none_paired(s, j);
            lemma_listed(s, j);
        }
    } else {
        let i = lemma_found(s, 0);
        lemma_none_paired(s, i);
        assert(rank_at(s, i) == h);
        assert forall|j: int| 0 <= j < 5 implies h - 4 <= #[trigger] rank_at(s, j) <= h by {
            lemma_none_paired(s, j);
            lemma_listed(s, j);
        }
    }
}

/// Every card's weight is among those in order.
proof fn lemma_listed(s: Seq<Card>, j: int)
    requires
        five(s),
        0 <= j < 5,
    ensures
        ({
            let w = evaluator::descending(evaluator::weights(s));
            let x = evaluator::weights(s)[j];
            x == w[0] || x == w[1] || x == w[2] || x == w[3] || x == w[4]
        }),
{
    let all = evaluator::weights(s);
    let w = evaluator::descending(all);
    let f = |x: int| x == all[j];
    law_descending_keeps_the_numbers(all, f);
    lemma_none_or_some(all, f);
    assert(f(all[j]));
    lemma_none_or_some(w, f);
    let k = choose|k: int| 0 <= k < w.len() && f(#[trigger] w[k]);
    assert(k == 0 || k == 1 || k == 2 || k == 3 || k == 4);
}

proof fn lemma_run_seen(s: Seq<Card>, h: int)
    requires
        five(s),
        runs_to(s, h),
    ensures
        evaluator::straight_high(evaluator::descending(evaluator::weights(s))) == Some(h),
{
    let all = evaluator::weights(s);
    let w = evaluator::descending(all);
    lemma_bound(s, 0);
    lemma_strict(s, 0);
    lemma_strict(s, 1);
    lemma_strict(s, 2);
    lemma_strict(s, 3);
    let (a, b, c, d, e) = (
        lemma_found(s, 0),
        lemma_found(s, 1),
        lemma_found(s, 2),
        lemma_found(s, 3),
        lemma_found(s, 4),
    );
    lemma_none_paired(s, a);
    lemma_none_paired(s, b);
    lemma_none_paired(s, c);
    lemma_none_paired(s, d);
    lemma_none_paired(s, e);
    lemma_weight(s, a);
    lemma_weight(s, e);
    let i = choose|i: int| 0 <= i < 5 && #[trigger] rank_at(s, i) == h;
    lemma_none_paired(s, i);
    lemma_listed(s, i);
    if forall|x: int| 0 <= x < 5 ==> h - 4 <= #[trigger] rank_at(s, x) <= h {
        assert(h - 4 <= rank_at(s, a) <= h);
        assert(h - 4 <= rank_at(s, e) <= h);
        assert(w[0] == 13 + h);
    } else {
        assert(rank_at(s, a) <= 3 || rank_at(s, a) == 12);
        assert(rank_at(s, b) <= 3 || rank_at(s, b) == 12);
        assert(w =~= seq![25int, 16, 15, 14, 13]);
    }
}

/// Law: hands rank by kind: a straight flush before four of a kind, then a full
/// house, a flush, a straight, three of a kind, two pairs, a pair and a high
/// card.
pub proof fn law_hands_rank_by_kind(s: Seq<Card>)
    requires
        five(s),
    ensures
        kind_of(s) * 371_293 <= evaluator::strength5(s) < (kind_of(s) + 1) * 371_293,
{
    let all = evaluator::weights(s);
    let w = evaluator::descending(all);
    lemma_bound(s, 26);
    lemma_bound(s, 39);
    lemma_bound(s, 52);
    lemma_times(s, 4);
    lemma_times(s, 3);
    lemma_paired(s, 5);
    assert(all.take(5) =~= all);
    assert(suited(s) == evaluator::is_flush(s)) by {
        if evaluator::is_flush(s) {
            assert forall|i: int, j: int| 0 <= i < 5 && 0 <= j < 5 implies #[trigger] s[i] % 4
                == #[trigger] s[j] % 4 by {
                assert(s[i] % 4 == s[0] % 4 && s[j] % 4 == s[0] % 4);
            }
        }
        if suited(s) {
            assert forall|i: int| 0 <= i < s.len() implies #[trigger] s[i] % 4 == s[0] % 4 by {}
        }
    }
    if evaluator::straight_high(w) is Some {
        lemma_run_found(s);
    }
    if straight(s) {
        let h = choose|h: int| #[trigger] runs_to(s, h);
        lemma_run_seen(s, h);
    }
    assert(straight(s) == (evaluator::straight_high(w) is Some));
    lemma_kickers(s);
    assert(evaluator::hand_kind(w, evaluator::is_flush(s)) == kind_of(s));
}

proof fn lemma_kickers(s: Seq<Card>)
    requires
        five(s),
    ensures
        ({
            let w = evaluator::descending(evaluator::weights(s));
            0 <= evaluator::kickers(w) < 371_293
        }),
{
    let w = evaluator::descending(evaluator::weights(s));
    lemma_bound(s, 0);
    match evaluator::straight_high(w) {
        Some(h) => {
            lemma_run_found(s);
            let i = choose|i: int| 0 <= i < 5 && #[trigger] rank_at(s, i) == h;
            lemma_weight(s, i);
        },
        None => {},
    }
}

/// Law: of two straights, or two straight flushes, the one that runs higher is
/// the stronger, and those that run as high are level.
pub proof fn law_straights_rank_by_their_top(s: Seq<Card>, h: int, t: Seq<Card>, k: int)
    requires
        five(s),
        five(t),
        runs_to(s, h),
        runs_to(t, k),
        suited(s) == suited(t),
    ensures
        h > k ==> evaluator::strength5(s) > evaluator::strength5(t),
        h == k ==> evaluator::strength5(s) == evaluator::strength5(t),
{
    lemma_run_seen(s, h);
    lemma_run_seen(t, k);
    lemma_flush(s);
    lemma_flush(t);
    let v = evaluator::descending(evaluator::weights(s));
    let w = evaluator::descending(evaluator::weights(t));
    lemma_bound(s, 26);
    lemma_bound(t, 26);
    assert(evaluator::hand_kind(v, evaluator::is_flush(s)) == evaluator::hand_kind(
        w,
        evaluator::is_flush(t),
    )) by {
        assert(v[0] < 26 && w[0] < 26);
    }
}

proof fn lemma_flush(s: Seq<Card>)
    requires
        five(s),
    ensures
        suited(s) == evaluator::is_flush(s),
{
    if evaluator::is_flush(s) {
        assert forall|i: int, j: int| 0 <= i < 5 && 0 <= j < 5 implies #[trigger] s[i] % 4
            == #[trigger] s[j] % 4 by {
            assert(s[i] % 4 == s[0] % 4 && s[j] % 4 == s[0] % 4);
        }
    }
    if suited(s) {
        assert forall|i: int| 0 <= i < s.len() implies #[trigger] s[i] % 4 == s[0] % 4 by {}
    }
}

/// The ranks of a hand, those that occur more often first, then the higher.
pub open spec fn told(s: Seq<Card>, k: int) -> int {
    evaluator::descending(evaluator::weights(s))[k] % 13
}

/// Law: of two hands of one kind, neither of them a straight, the first rank in
/// which they differ decides, those that occur more often coming first and then
/// the higher; where none differs they are level.
pub proof fn law_the_first_rank_that_differs_decides(s: Seq<Card>, t: Seq<Card>, k: int)
    requires
        five(s),
        five(t),
        kind_of(s) == kind_of(t),
        !straight(s),
        !straight(t),
        0 <= k <= 5,
        forall|j: int| 0 <= j < k ==> #[trigger] told(s, j) == told(t, j),
        k < 5 ==> told(s, k) > told(t, k),
    ensures
        k < 5 ==> evaluator::strength5(s) > evaluator::strength5(t),
        k == 5 ==> evaluator::strength5(s) == evaluator::strength5(t),
{
    law_hands_rank_by_kind(s);
    law_hands_rank_by_kind(t);
    lemma_kickers(s);
    lemma_kickers(t);
    let v = evaluator::descending(evaluator::weights(s));
    let w = evaluator::descending(evaluator::weights(t));
    if evaluator::straight_high(v) is Some {
        lemma_run_found(s);
    }
    if evaluator::straight_high(w) is Some {
        lemma_run_found(t);
    }
    assert(told(s, 0) == v[0] % 13 && told(t, 0) == w[0] % 13);
    assert(told(s, 1) == v[1] % 13 && told(t, 1) == w[1] % 13);
    assert(told(s, 2) == v[2] % 13 && told(t, 2) == w[2] % 13);
    assert(told(s, 3) == v[3] % 13 && told(t, 3) == w[3] % 13);
    assert(told(s, 4) == v[4] % 13 && told(t, 4) == w[4] % 13);
}

// ---------------------------------------------------------------------------
// Seven cards
// ---------------------------------------------------------------------------

proof fn lemma_best_of(s: Seq<Card>, k: int)
    requires
        0 <= k <= 49,
        s.len() == 7,
    ensures
        forall|i: int, j: int|
            0 <= i < j < 7 && 7 * i + j < k ==> evaluator::strength5(
                #[trigger] evaluator::without_two(s, i, j),
            ) <= evaluator::best_of(s, k),
        evaluator::best_of(s, k) == 0 || exists|i: int, j: int|
            0 <= i < j < 7 && 7 * i + j < k && evaluator::best_of(s, k) == evaluator::strength5(
                #[trigger] evaluator::without_two(s, i, j),
            ),
    decreases k,
{
    if k > 0 {
        lemma_best_of(s, k - 1);
        let (a, b) = ((k - 1) / 7, (k - 1) % 7);
        assert(7 * a + b == k - 1);
        assert forall|i: int, j: int| 0 <= i < j < 7 && 7 * i + j < k implies evaluator::strength5(
            #[trigger] evaluator::without_two(s, i, j),
        ) <= evaluator::best_of(s, k) by {
            if 7 * i + j == k - 1 {
                assert(i == a && j == b);
            }
        }
        if evaluator::best_of(s, k) == evaluator::best_of(s, k - 1) {
            if evaluator::best_of(s, k) != 0 {
                let (i, j) = choose|i: int, j: int|
                    0 <= i < j < 7 && 7 * i + j < k - 1 && evaluator::best_of(s, k - 1)
                        == evaluator::strength5(#[trigger] evaluator::without_two(s, i, j));
                assert(evaluator::best_of(s, k) == evaluator::strength5(
                    evaluator::without_two(s, i, j),
                ));
            }
        } else {
            assert(evaluator::best_of(s, k) == evaluator::strength5(
                evaluator::without_two(s, a, b),
            ));
        }
    }
}

/// Law: seven cards are as strong as the best five of them: no five are
/// stronger, and some are as strong.
pub proof fn law_seven_cards_play_the_best_five(s: Seq<Card>, i: int, j: int) -> (r: (int, int))
    requires
        s.len() == 7,
        forall|k: int| 0 <= k < 7 ==> #[trigger] s[k] < 52,
        0 <= i < j < 7,
    ensures
        evaluator::strength5(evaluator::without_two(s, i, j)) <= evaluator::strength7(s),
        0 <= r.0 < r.1 < 7,
        evaluator::strength5(evaluator::without_two(s, r.0, r.1)) == evaluator::strength7(s),
{
    lemma_best_of(s, 49);
    let x = evaluator::without_two(s, i, j);
    assert(7 * i + j < 49);
    assert(evaluator::strength5(x) <= evaluator::strength7(s));
    assert(five(x)) by {
        assert forall|k: int| 0 <= k < 5 implies #[trigger] x[k] < 52 by {
            let y = s.remove(j);
            assert(x[k] == y[k] || x[k] == y[k + 1]);
        }
    }
    if evaluator::strength7(s) == 0 {
        law_hands_rank_by_kind(x);
        (i, j)
    } else {
        let (a, b) = choose|a: int, b: int|
            0 <= a < b < 7 && 7 * a + b < 49 && evaluator::best_of(s, 49) == evaluator::strength5(
                #[trigger] evaluator::without_two(s, a, b),
            );
        (a, b)
    }
}

} // verus!
