//! What holds of strategies, counted in exact numbers: what a hand plays adds
//! up to one, up to the billionths that rounding leaves.

use crate::nano;
use crate::nano::{Nano, BILLION};
use crate::num;
use crate::num::Num;
use crate::runouts;
use crate::strategy;
use vstd::prelude::*;

verus! {

// ---------------------------------------------------------------------------
// Shares of one
// ---------------------------------------------------------------------------

/// The sum of counts, without an end to its range.
pub open spec fn counted(s: Seq<Nano>) -> int
    decreases s.len(),
{
    if s.len() == 0 {
        0
    } else {
        counted(s.drop_last()) + s.last().count
    }
}

/// Whether no number of a list is negative.
pub open spec fn none_negative(s: Seq<Nano>) -> bool {
    forall|a: int| 0 <= a < s.len() ==> (#[trigger] s[a]).count >= 0
}

/// Whether numbers share one unit: none is negative, and they add up to one
/// but for less than a billionth each.
pub open spec fn share_one(s: Seq<Nano>) -> bool {
    &&& none_negative(s)
    &&& BILLION - s.len() < counted(s) <= BILLION
}

pub(crate) proof fn lemma_counted_bound(s: Seq<Nano>)
    requires
        none_negative(s),
    ensures
        0 <= counted(s),
        forall|a: int| 0 <= a < s.len() ==> (#[trigger] s[a]).count <= counted(s),
    decreases s.len(),
{
    if s.len() > 0 {
        let rest = s.drop_last();
        assert forall|a: int| 0 <= a < rest.len() implies (#[trigger] rest[a]).count >= 0 by {
            assert(rest[a] == s[a]);
        }
        lemma_counted_bound(rest);
        assert(s.last() == s[s.len() - 1]);
        assert forall|a: int| 0 <= a < s.len() implies (#[trigger] s[a]).count <= counted(s) by {
            if a < rest.len() {
                assert(rest[a] == s[a]);
            }
        }
    }
}

/// A sum that stays in range is what adding gives.
pub(crate) proof fn lemma_total_counted(s: Seq<Nano>)
    requires
        none_negative(s),
        counted(s) <= i64::MAX,
    ensures
        num::total_of(s).count == counted(s),
    decreases s.len(),
{
    if s.len() > 0 {
        let rest = s.drop_last();
        assert(s.last() == s[s.len() - 1]);
        assert forall|a: int| 0 <= a < rest.len() implies (#[trigger] rest[a]).count >= 0 by {
            assert(rest[a] == s[a]);
        }
        lemma_counted_bound(rest);
        lemma_total_counted(rest);
    } else {
        assert(nano::ten_to(0) == 1);
    }
}

/// What is left over where the numbers of a list are shared out of `t`.
proof fn lemma_shared_out(s: Seq<Nano>, q: Seq<Nano>, t: int)
    requires
        0 < t,
        none_negative(s),
        q.len() == s.len(),
        forall|a: int| 0 <= a < s.len() ==> (#[trigger] q[a]).count == s[a].count * BILLION / t,
    ensures
        none_negative(q),
        0 <= counted(s) * BILLION - counted(q) * t <= s.len() * (t - 1),
    decreases s.len(),
{
    if s.len() > 0 {
        let rest = s.drop_last();
        let upto = q.drop_last();
        assert forall|a: int| 0 <= a < rest.len() implies (#[trigger] rest[a]).count >= 0 by {
            assert(rest[a] == s[a]);
        }
        assert forall|a: int| 0 <= a < rest.len() implies (#[trigger] upto[a]).count
            == rest[a].count * BILLION / t by {
            assert(upto[a] == q[a]);
            assert(rest[a] == s[a]);
        }
        lemma_shared_out(rest, upto, t);
        let n = s.len() - 1;
        let x = s[n].count * BILLION;
        assert(q[n].count == x / t);
        assert(0 <= x - (x / t) * t <= t - 1 && 0 <= x / t) by (nonlinear_arith)
            requires
                0 < t,
                0 <= x,
        ;
        assert(counted(q) * t == counted(upto) * t + (x / t) * t) by (nonlinear_arith)
            requires
                counted(q) == counted(upto) + x / t,
        ;
        assert(s.len() * (t - 1) == rest.len() * (t - 1) + (t - 1)) by (nonlinear_arith)
            requires
                s.len() == rest.len() + 1,
        ;
        assert forall|a: int| 0 <= a < q.len() implies (#[trigger] q[a]).count >= 0 by {
            if a < rest.len() {
                assert(upto[a] == q[a]);
            }
        }
    }
}

/// Numbers that are shared out of their sum share one.
pub(crate) proof fn lemma_shares(s: Seq<Nano>, q: Seq<Nano>)
    requires
        none_negative(s),
        0 < counted(s),
        q.len() == s.len(),
        forall|a: int|
            0 <= a < s.len() ==> (#[trigger] q[a]).count == s[a].count * BILLION / counted(s),
    ensures
        share_one(q),
{
    let t = counted(s);
    let n = s.len() as int;
    let c = counted(q);
    lemma_shared_out(s, q, t);
    assert(BILLION - n < c <= BILLION) by (nonlinear_arith)
        requires
            0 < t,
            0 < n,
            0 <= t * BILLION - c * t <= n * (t - 1),
    ;
}

proof fn lemma_all_ones(n: nat)
    ensures
        counted(strategy::level(n, Nano { count: 1 })) == n,
    decreases n,
{
    if n > 0 {
        let all = strategy::level(n, Nano { count: 1 });
        assert(all.drop_last() =~= strategy::level((n - 1) as nat, Nano { count: 1 }));
        lemma_all_ones((n - 1) as nat);
    }
}

/// Law: what a hand plays adds up to one, whatever entries its strategy is
/// made from, as long as none is negative and their sum is in range: no share
/// is negative, and less than a billionth is lost to each.
pub proof fn law_strategies_share_one(block: Seq<Nano>, na: int, nh: int, i: int)
    requires
        1 <= na <= BILLION,
        0 <= i < nh,
        block.len() == na * nh,
        none_negative(strategy::column(block, na, nh, i)),
        counted(strategy::column(block, na, nh, i)) <= i64::MAX,
    ensures
        share_one(strategy::column(strategy::normalized(block, na, nh), na, nh, i)),
{
    let s = strategy::column(block, na, nh, i);
    let q = strategy::column(strategy::normalized(block, na, nh), na, nh, i);
    lemma_counted_bound(s);
    lemma_total_counted(s);
    let t = counted(s);
    assert(nano::ten_to(0) == 1);
    assert(nano::ten_to(12) == 1_000_000_000_000) by {
        reveal_with_fuel(nano::ten_to, 13);
    }
    assert(Nano::decimal_spec(1, 12).count == 0);
    assert forall|a: int| 0 <= a < na implies (#[trigger] q[a]) == strategy::share(
        s[a],
        num::total_of(s),
        na,
    ) by {
        strategy::lemma_cell(na, nh, a, i);
    }
    if t > 0 {
        assert forall|a: int| 0 <= a < na implies (#[trigger] q[a]).count == s[a].count * BILLION
            / t by {
            let c = s[a].count as int;
            assert(0 <= c * BILLION / t <= BILLION) by (nonlinear_arith)
                requires
                    0 <= c <= t,
                    0 < t,
            ;
        }
        lemma_shares(s, q);
    } else {
        let ones = strategy::level(na as nat, Nano { count: 1 });
        lemma_all_ones(na as nat);
        assert(Nano::decimal_spec(1, 0).count == BILLION);
        assert(Nano::decimal_spec(na as i64, 0).count == na * BILLION);
        let b = BILLION as int;
        assert(b * b / (na * b) == b / na && 0 <= b / na <= b) by {
            vstd::arithmetic::div_mod::lemma_div_denominator(b * b, b, na);
            vstd::arithmetic::mul::lemma_mul_is_commutative(na, b);
            vstd::arithmetic::div_mod::lemma_div_multiples_vanish(b, b);
            vstd::arithmetic::div_mod::lemma_div_is_ordered_by_denominator(b, 1, na);
            vstd::arithmetic::div_mod::lemma_div_pos_is_pos(b, na);
        }
        assert forall|a: int| 0 <= a < na implies (#[trigger] q[a]).count == ones[a].count * BILLION
            / na by {
            assert(q[a] == strategy::share(s[a], num::total_of(s), na));
            assert(ones[a].count == 1);
        }
        lemma_shares(ones, q);
    }
}

/// Law: what regrets call for adds up to one, whatever the regrets are, as long
/// as the sum of those above zero is in range.
pub proof fn law_regrets_call_for_one(regrets: Seq<Nano>, na: int, nh: int, i: int)
    requires
        1 <= na <= BILLION,
        0 <= i < nh,
        regrets.len() == na * nh,
        counted(strategy::column(strategy::positive_part(regrets), na, nh, i)) <= i64::MAX,
    ensures
        share_one(
            strategy::column(
                strategy::normalized(strategy::positive_part(regrets), na, nh),
                na,
                nh,
                i,
            ),
        ),
{
    let block = strategy::positive_part(regrets);
    let s = strategy::column(block, na, nh, i);
    assert(nano::ten_to(0) == 1);
    assert forall|a: int| 0 <= a < s.len() implies (#[trigger] s[a]).count >= 0 by {
        strategy::lemma_cell(na, nh, a, i);
    }
    law_strategies_share_one(block, na, nh, i);
}

// ---------------------------------------------------------------------------
// Frequencies of a range
// ---------------------------------------------------------------------------

/// How a hand's reach is split between its actions.
pub(crate) proof fn lemma_reach_split(r: Nano, shares: Seq<Nano>, terms: Seq<Nano>)
    requires
        0 <= r.count,
        none_negative(shares),
        counted(shares) <= BILLION,
        terms.len() == shares.len(),
        forall|a: int|
            0 <= a < shares.len() ==> #[trigger] terms[a] == r.times_spec(shares[a]),
    ensures
        none_negative(terms),
        0 <= r.count * counted(shares) - BILLION * counted(terms) <= shares.len() * (BILLION - 1),
    decreases shares.len(),
{
    let x = r.count as int;
    let b = BILLION as int;
    if shares.len() > 0 {
        let s0 = shares.drop_last();
        let t0 = terms.drop_last();
        let n = shares.len() - 1;
        lemma_counted_bound(shares);
        assert forall|a: int| 0 <= a < s0.len() implies (#[trigger] s0[a]).count >= 0 by {
            assert(s0[a] == shares[a]);
        }
        assert forall|a: int| 0 <= a < s0.len() implies #[trigger] t0[a] == r.times_spec(s0[a]) by {
            assert(t0[a] == terms[a]);
            assert(s0[a] == shares[a]);
        }
        assert(shares[n].count >= 0);
        lemma_counted_bound(s0);
        lemma_reach_split(r, s0, t0);
        let c = shares[n].count as int;
        assert(terms[n] == r.times_spec(shares[n]));
        assert(0 <= x * c && 0 <= x * c / b <= x) by (nonlinear_arith)
            requires
                0 <= x,
                0 <= c <= b,
                0 < b,
        ;
        vstd::arithmetic::div_mod::lemma_fundamental_div_mod(x * c, b);
        assert(terms[n].count == x * c / b);
        assert(x * counted(shares) == x * counted(s0) + x * c) by (nonlinear_arith)
            requires
                counted(shares) == counted(s0) + c,
        ;
        assert forall|a: int| 0 <= a < terms.len() implies (#[trigger] terms[a]).count >= 0 by {
            if a < t0.len() {
                assert(t0[a] == terms[a]);
            }
        }
    } else {
        assert(x * counted(shares) == 0) by (nonlinear_arith)
            requires
                counted(shares) == 0,
        ;
    }
}

/// Adding lists entry by entry adds what they count.
proof fn lemma_counted_sum(u: Seq<Nano>, v: Seq<Nano>, w: Seq<Nano>)
    requires
        u.len() == v.len() == w.len(),
        forall|a: int|
            0 <= a < u.len() ==> (#[trigger] w[a]).count == u[a].count + v[a].count,
    ensures
        counted(w) == counted(u) + counted(v),
    decreases u.len(),
{
    if u.len() > 0 {
        let u0 = u.drop_last();
        let v0 = v.drop_last();
        let w0 = w.drop_last();
        assert(w[u.len() - 1].count == u[u.len() - 1].count + v[u.len() - 1].count);
        assert forall|a: int| 0 <= a < u0.len() implies (#[trigger] w0[a]).count == u0[a].count
            + v0[a].count by {
            assert(w0[a] == w[a]);
        }
        lemma_counted_sum(u0, v0, w0);
    }
}

/// The reach of the first `n` hands, without an end to its range.
pub open spec fn reach_counted(reach: Seq<Nano>, n: int) -> int {
    counted(reach.take(n))
}

/// How much reach of the first `n` hands takes each action.
pub open spec fn takings(reach: Seq<Nano>, sigma: Seq<Nano>, na: int, n: int) -> Seq<Nano> {
    Seq::new(
        na as nat,
        |a: int| runouts::reach_taking::<Nano>(reach, sigma, reach.len() as int, a, n),
    )
}

/// Whether every hand of a range shares one between its actions.
pub open spec fn range_shares_one(reach: Seq<Nano>, sigma: Seq<Nano>, na: int) -> bool {
    forall|i: int|
        0 <= i < reach.len() ==> #[trigger] share_one(
            strategy::column(sigma, na, reach.len() as int, i),
        )
}

pub(crate) proof fn lemma_takings(reach: Seq<Nano>, sigma: Seq<Nano>, na: int, n: int)
    requires
        1 <= na,
        0 <= n <= reach.len(),
        none_negative(reach),
        counted(reach) <= i64::MAX,
        range_shares_one(reach, sigma, na),
    ensures
        none_negative(takings(reach, sigma, na, n)),
        runouts::reach_total::<Nano>(reach, n).count == reach_counted(reach, n),
        0 <= reach_counted(reach, n) <= counted(reach),
        0 <= BILLION * (reach_counted(reach, n) - counted(takings(reach, sigma, na, n))) <= na
            * reach_counted(reach, n) + n * na * BILLION,
    decreases n,
{
    let b = BILLION as int;
    assert(nano::ten_to(0) == 1);
    lemma_taken_bound(reach, n);
    let now = takings(reach, sigma, na, n);
    if n > 0 {
        lemma_takings(reach, sigma, na, n - 1);
        let nh = reach.len() as int;
        let before = takings(reach, sigma, na, n - 1);
        let r = reach[n - 1];
        let shares = strategy::column(sigma, na, nh, n - 1);
        let terms = Seq::new(na as nat, |a: int| r.times_spec(shares[a]));
        assert(share_one(shares));
        lemma_reach_split(r, shares, terms);
        lemma_counted_bound(before);
        lemma_counted_bound(terms);
        let c = reach_counted(reach, n - 1);
        assert(reach.take(n).drop_last() =~= reach.take(n - 1));
        assert(reach_counted(reach, n) == c + r.count);
        let p = counted(shares);
        let t = counted(terms);
        let x = r.count as int;
        assert(x * p <= b * x && b * x - na * x <= x * p) by (nonlinear_arith)
            requires
                b - na < p <= b,
                0 <= x,
        ;
        assert(t <= x) by (nonlinear_arith)
            requires
                b * t <= b * x,
                0 < b,
        ;
        assert(counted(before) <= c) by (nonlinear_arith)
            requires
                0 <= b * (c - counted(before)),
                0 < b,
        ;
        assert forall|a: int| 0 <= a < na implies (#[trigger] now[a]).count == before[a].count
            + terms[a].count by {
            assert(before[a].count <= counted(before));
            assert(terms[a].count <= t);
            assert(now[a] == before[a].plus_spec(terms[a]));
        }
        lemma_counted_sum(before, terms, now);
        let was = counted(before);
        assert(b * ((c + x) - (was + t)) == b * (c - was) + (b * x - b * t)) by (nonlinear_arith);
        assert(na * (c + x) + n * na * b == na * c + na * x + (n - 1) * na * b + na * b)
            by (nonlinear_arith);
        assert(b * x - b * t <= na * x + na * b) by (nonlinear_arith)
            requires
                b * x - na * x <= x * p,
                x * p - b * t <= na * (b - 1),
                1 <= na,
        ;
        assert forall|a: int| 0 <= a < na implies (#[trigger] now[a]).count >= 0 by {
            assert(before[a].count >= 0 && terms[a].count >= 0);
        }
    } else {
        assert(now =~= strategy::level(na as nat, Nano { count: 0 }));
        lemma_all_zeros(na as nat);
        assert(reach.take(0) =~= Seq::<Nano>::empty());
        assert(b * 0 == 0 && na * 0 == 0 && 0 * na * b == 0) by (nonlinear_arith);
    }
}

proof fn lemma_all_zeros(n: nat)
    ensures
        counted(strategy::level(n, Nano { count: 0 })) == 0,
    decreases n,
{
    if n > 0 {
        let all = strategy::level(n, Nano { count: 0 });
        assert(all.drop_last() =~= strategy::level((n - 1) as nat, Nano { count: 0 }));
        lemma_all_zeros((n - 1) as nat);
    }
}

/// The reach of some hands is part of the whole.
pub(crate) proof fn lemma_taken_bound(reach: Seq<Nano>, n: int)
    requires
        0 <= n <= reach.len(),
        none_negative(reach),
    ensures
        0 <= reach_counted(reach, n) <= counted(reach),
    decreases reach.len() - n,
{
    if n == reach.len() {
        assert(reach.take(n) =~= reach);
        lemma_counted_bound(reach);
    } else {
        lemma_taken_bound(reach, n + 1);
        assert(reach.take(n + 1).drop_last() =~= reach.take(n));
        assert(reach.take(n + 1).last() == reach[n]);
        assert forall|a: int| 0 <= a < n implies (#[trigger] reach.take(n)[a]).count >= 0 by {
            assert(reach.take(n)[a] == reach[a]);
        }
        lemma_counted_bound(reach.take(n));
    }
}

/// Law: the frequencies with which a range takes its actions add up to one,
/// as long as some of the range arrives and its reach adds up in range. What is
/// lacking is at most two billionths for each action, and one for each hand
/// and action per unit of reach.
pub proof fn law_frequencies_add_up(reach: Seq<Nano>, sigma: Seq<Nano>, na: int)
    requires
        1 <= na,
        none_negative(reach),
        0 < counted(reach) <= i64::MAX,
        range_shares_one(reach, sigma, na),
    ensures
        ({
            let freqs = Seq::new(
                na as nat,
                |a: int| runouts::frequency::<Nano>(reach, sigma, a),
            );
            let lack = BILLION - counted(freqs);
            &&& none_negative(freqs)
            &&& 0 <= lack
            &&& lack * counted(reach) <= 2 * na * counted(reach) + reach.len() * na * BILLION
        }),
{
    let b = BILLION as int;
    let nh = reach.len() as int;
    let t = counted(reach);
    let sums = takings(reach, sigma, na, nh);
    let freqs = Seq::new(na as nat, |a: int| runouts::frequency::<Nano>(reach, sigma, a));
    lemma_takings(reach, sigma, na, nh);
    assert(reach.take(nh) =~= reach);
    assert(nano::ten_to(12) == 1_000_000_000_000) by {
        reveal_with_fuel(nano::ten_to, 13);
    }
    assert(Nano::decimal_spec(1, 12).count == 0);
    lemma_counted_bound(sums);
    let c = counted(sums);
    assert(c <= t) by (nonlinear_arith)
        requires
            0 <= b * (t - c),
            0 < b,
    ;
    assert forall|a: int| 0 <= a < na implies (#[trigger] freqs[a]).count == sums[a].count * BILLION
        / t by {
        let x = sums[a].count as int;
        assert(0 <= x <= t);
        assert(0 <= x * b && 0 <= x * b / t <= b) by (nonlinear_arith)
            requires
                0 <= x <= t,
                0 < t,
                0 < b,
        ;
    }
    lemma_shared_out(sums, freqs, t);
    let f = counted(freqs);
    assert(0 <= b - f) by (nonlinear_arith)
        requires
            0 <= c * b - f * t,
            c <= t,
            0 < t,
            0 < b,
    ;
    assert((b - f) * t <= 2 * na * t + nh * na * b) by (nonlinear_arith)
        requires
            c * b - f * t <= na * (t - 1),
            b * (t - c) <= na * t + nh * na * b,
            1 <= na,
    ;
}

} // verus!
