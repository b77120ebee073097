//! What holds of strategies that are raked to target frequencies, counted in
//! exact numbers: every hand still shares one between its actions.

use crate::nano;
use crate::nano::{Nano, BILLION};
use crate::num;
use crate::num::Num;
use crate::play_laws;
use crate::rake;
use crate::strategy;
use vstd::prelude::*;

verus! {

/// The most actions that a decision is raked with.
pub const MOST_ACTIONS: i64 = 255;

/// Whether all numbers of a list lie between zero and a bound.
pub open spec fn bounded(s: Seq<Nano>, most: int) -> bool {
    forall|k: int| 0 <= k < s.len() ==> 0 <= (#[trigger] s[k]).count <= most
}

pub(crate) proof fn lemma_times(a: Nano, b: Nano)
    requires
        0 <= a.count,
        0 <= b.count,
    ensures
        0 <= a.times_spec(b).count,
        b.count <= BILLION ==> a.times_spec(b).count <= a.count,
{
    let x = a.count as int;
    let y = b.count as int;
    assert(0 <= x * y) by (nonlinear_arith)
        requires
            0 <= x,
            0 <= y,
    ;
    vstd::arithmetic::div_mod::lemma_div_pos_is_pos(x * y, BILLION as int);
    if y <= BILLION {
        assert(x * y / 1_000_000_000 <= x) by (nonlinear_arith)
            requires
                0 <= x,
                0 <= y <= 1_000_000_000,
        ;
    }
}

pub(crate) proof fn lemma_over(a: Nano, b: Nano)
    requires
        0 <= a.count,
        0 <= b.count,
    ensures
        0 <= a.over_spec(b).count,
{
    if b.count > 0 {
        vstd::arithmetic::div_mod::lemma_div_pos_is_pos(a.count * BILLION, b.count as int);
    }
}

/// A clamped sum is as large as each part.
proof fn lemma_total(s: Seq<Nano>)
    requires
        play_laws::none_negative(s),
    ensures
        0 <= num::total_of(s).count,
        forall|a: int| 0 <= a < s.len() ==> (#[trigger] s[a]).count <= num::total_of(s).count,
    decreases s.len(),
{
    assert(nano::ten_to(0) == 1);
    if s.len() > 0 {
        let rest = s.drop_last();
        assert(s[s.len() - 1].count >= 0);
        assert forall|a: int| 0 <= a < rest.len() implies (#[trigger] rest[a]).count >= 0 by {
            assert(rest[a] == s[a]);
        }
        lemma_total(rest);
        assert forall|a: int| 0 <= a < s.len() implies (#[trigger] s[a]).count <= num::total_of(
            s,
        ).count by {
            if a < rest.len() {
                assert(rest[a] == s[a]);
            }
        }
    }
}

// ---------------------------------------------------------------------------
// Multipliers
// ---------------------------------------------------------------------------

proof fn lemma_scaled_mass(m: Seq<Nano>, sigma: Seq<Nano>, nh: int, i: int, k: int)
    requires
        play_laws::none_negative(m),
        bounded(sigma, BILLION as int),
        sigma.len() == m.len() * nh,
        0 <= i < nh,
        0 <= k <= m.len(),
    ensures
        0 <= rake::scaled_mass::<Nano>(m, sigma, nh, i, k).count,
    decreases k,
{
    assert(nano::ten_to(0) == 1);
    if k > 0 {
        lemma_scaled_mass(m, sigma, nh, i, k - 1);
        strategy::lemma_cell(m.len() as int, nh, k - 1, i);
        assert(m[k - 1].count >= 0);
        lemma_times(m[k - 1], sigma[strategy::cell(nh, k - 1, i)]);
    }
}

pub(crate) proof fn lemma_gathered(
    m: Seq<Nano>,
    sigma: Seq<Nano>,
    nh: int,
    reach: Seq<Nano>,
    n: int,
)
    requires
        play_laws::none_negative(m),
        bounded(sigma, BILLION as int),
        sigma.len() == m.len() * nh,
        reach.len() == nh,
        0 <= n <= nh,
    ensures
        rake::gathered::<Nano>(m, sigma, nh, reach, n).0.len() == m.len(),
        play_laws::none_negative(rake::gathered::<Nano>(m, sigma, nh, reach, n).0),
        0 <= rake::gathered::<Nano>(m, sigma, nh, reach, n).1.count,
    decreases n,
{
    assert(nano::ten_to(0) == 1);
    if n > 0 {
        lemma_gathered(m, sigma, nh, reach, n - 1);
        let i = n - 1;
        let (was, _) = rake::gathered::<Nano>(m, sigma, nh, reach, n - 1);
        let w = reach[i];
        if !rake::left_out::<Nano>(m, sigma, nh, reach, i) {
            let denom = rake::scaled_mass::<Nano>(m, sigma, nh, i, m.len() as int);
            lemma_scaled_mass(m, sigma, nh, i, m.len() as int);
            let now = rake::gathered::<Nano>(m, sigma, nh, reach, n).0;
            assert forall|a: int| 0 <= a < now.len() implies (#[trigger] now[a]).count >= 0 by {
                strategy::lemma_cell(m.len() as int, nh, a, i);
                let s = sigma[strategy::cell(nh, a, i)];
                assert(m[a].count >= 0 && was[a].count >= 0);
                lemma_times(w, m[a]);
                lemma_times(w.times_spec(m[a]), s);
                lemma_over(w.times_spec(m[a]).times_spec(s), denom);
            }
        }
    }
}

pub(crate) proof fn lemma_steered(
    m: Seq<Nano>,
    agg: Seq<Nano>,
    sum: Nano,
    target: Seq<Nano>,
    k: int,
)
    requires
        play_laws::none_negative(m),
        play_laws::none_negative(agg),
        play_laws::none_negative(target),
        0 <= sum.count,
        agg.len() == m.len() == target.len(),
        0 <= k <= m.len(),
    ensures
        rake::steered::<Nano>(m, agg, sum, target, k).0.len() == m.len(),
        play_laws::none_negative(rake::steered::<Nano>(m, agg, sum, target, k).0),
    decreases k,
{
    if k > 0 {
        lemma_steered(m, agg, sum, target, k - 1);
        let a = k - 1;
        let (next, _) = rake::steered::<Nano>(m, agg, sum, target, k - 1);
        let f = agg[a].over_spec(sum);
        assert(agg[a].count >= 0 && target[a].count >= 0 && next[a].count >= 0);
        lemma_over(agg[a], sum);
        lemma_over(target[a], f);
        lemma_times(next[a], target[a].over_spec(f));
        let now = rake::steered::<Nano>(m, agg, sum, target, k).0;
        assert forall|x: int| 0 <= x < now.len() implies (#[trigger] now[x]).count >= 0 by {
            assert(next[x].count >= 0);
        }
    }
}

/// Multipliers that average one are no larger than their number.
pub(crate) proof fn lemma_rescaled(m: Seq<Nano>)
    requires
        play_laws::none_negative(m),
        1 <= m.len() <= MOST_ACTIONS,
    ensures
        rake::rescaled(m).len() == m.len(),
        bounded(rake::rescaled(m), m.len() * BILLION),
{
    let sum = num::total_of(m);
    let n = m.len() as int;
    let b = BILLION as int;
    let now = rake::rescaled(m);
    lemma_total(m);
    assert(nano::ten_to(0) == 1);
    assert(nano::ten_to(12) == 1_000_000_000_000) by {
        reveal_with_fuel(nano::ten_to, 13);
    }
    assert(Nano::decimal_spec(1, 12).count == 0);
    if sum.count > 0 {
        let scale = Nano::decimal_spec(m.len() as i64, 0).over_spec(sum);
        let t = sum.count as int;
        assert(Nano::decimal_spec(m.len() as i64, 0).count == n * b);
        let q = n * b * b / t;
        assert(0 <= q && q * t <= n * b * b) by (nonlinear_arith)
            requires
                q == n * b * b / t,
                0 < t,
                0 <= n,
                0 < b,
        ;
        assert(0 <= scale.count <= q);
        assert forall|a: int| 0 <= a < now.len() implies 0 <= (#[trigger] now[a]).count <= n
            * b by {
            let x = m[a].count as int;
            assert(0 <= x <= t);
            let s = scale.count as int;
            assert(0 <= x * s <= n * b * b) by (nonlinear_arith)
                requires
                    0 <= x <= t,
                    0 <= s <= q,
                    q * t <= n * b * b,
            ;
            assert(x * s / b <= n * b) by (nonlinear_arith)
                requires
                    x * s <= n * b * b,
                    0 < b,
            ;
            vstd::arithmetic::div_mod::lemma_div_pos_is_pos(x * s, b);
        }
    } else {
        assert(0 <= n * b) by (nonlinear_arith)
            requires
                1 <= n,
                0 < b,
        ;
        assert forall|a: int| 0 <= a < now.len() implies 0 <= (#[trigger] now[a]).count <= n
            * b by {
            assert(0 <= m[a].count <= sum.count);
        }
    }
}

proof fn lemma_fitted(
    m: Seq<Nano>,
    sigma: Seq<Nano>,
    nh: int,
    reach: Seq<Nano>,
    target: Seq<Nano>,
    rounds: nat,
)
    requires
        1 <= m.len() <= MOST_ACTIONS,
        bounded(m, m.len() * BILLION),
        bounded(sigma, BILLION as int),
        play_laws::none_negative(target),
        target.len() == m.len(),
        sigma.len() == m.len() * nh,
        reach.len() == nh,
    ensures
        rake::fitted::<Nano>(m, sigma, nh, reach, target, rounds).len() == m.len(),
        bounded(rake::fitted::<Nano>(m, sigma, nh, reach, target, rounds), m.len() * BILLION),
    decreases rounds,
{
    if rounds > 0 {
        let (agg, sum) = rake::gathered::<Nano>(m, sigma, nh, reach, nh);
        if !rake::negligible(sum) {
            assert forall|a: int| 0 <= a < m.len() implies (#[trigger] m[a]).count >= 0 by {}
            lemma_gathered(m, sigma, nh, reach, nh);
            lemma_steered(m, agg, sum, target, m.len() as int);
            let (next, err) = rake::steered::<Nano>(m, agg, sum, target, m.len() as int);
            lemma_rescaled(next);
            if !err.below_spec(Nano::decimal_spec(1, 4)) {
                lemma_fitted(
                    rake::rescaled(next),
                    sigma,
                    nh,
                    reach,
                    target,
                    (rounds - 1) as nat,
                );
            }
        }
    }
}

// ---------------------------------------------------------------------------
// What is played
// ---------------------------------------------------------------------------

/// A hand's play under multipliers.
pub open spec fn scaled_play(m: Seq<Nano>, sigma: Seq<Nano>, nh: int, i: int) -> Seq<Nano> {
    Seq::new(m.len(), |a: int| m[a].times_spec(sigma[strategy::cell(nh, a, i)]))
}

pub(crate) proof fn lemma_scaled_total(m: Seq<Nano>, sigma: Seq<Nano>, nh: int, i: int, k: int)
    requires
        0 <= k <= m.len(),
    ensures
        rake::scaled_mass::<Nano>(m, sigma, nh, i, k) == num::total_of(
            scaled_play(m, sigma, nh, i).take(k),
        ),
    decreases k,
{
    let all = scaled_play(m, sigma, nh, i);
    if k > 0 {
        lemma_scaled_total(m, sigma, nh, i, k - 1);
        assert(all.take(k).drop_last() =~= all.take(k - 1));
    }
}

pub(crate) proof fn lemma_counted_most(s: Seq<Nano>, most: int)
    requires
        bounded(s, most),
    ensures
        play_laws::counted(s) <= s.len() * most,
    decreases s.len(),
{
    if s.len() > 0 {
        let rest = s.drop_last();
        assert(s[s.len() - 1].count <= most);
        assert forall|a: int| 0 <= a < rest.len() implies 0 <= (#[trigger] rest[a]).count
            <= most by {
            assert(rest[a] == s[a]);
        }
        lemma_counted_most(rest, most);
        assert(s.len() * most == rest.len() * most + most) by (nonlinear_arith)
            requires
                s.len() == rest.len() + 1,
        ;
    }
}

/// What raking starts from.
pub(crate) proof fn lemma_start(sigma: Seq<Nano>, na: int, nh: int, target: Seq<Nano>)
    requires
        1 <= na <= MOST_ACTIONS,
        0 < nh,
        target.len() == na,
        sigma.len() == na * nh,
        bounded(sigma, BILLION as int),
        play_laws::share_one(target),
    ensures
        bounded(rake::prepared::<Nano>(sigma, na, nh, target), BILLION as int),
        bounded(rake::first_multipliers::<Nano>(target), na * BILLION),
        rake::first_multipliers::<Nano>(target).len() == na,
        rake::prepared::<Nano>(sigma, na, nh, target).len() == na * nh,
{
    let b = BILLION as int;
    let base = rake::prepared::<Nano>(sigma, na, nh, target);
    let first = rake::first_multipliers::<Nano>(target);
    assert(nano::ten_to(0) == 1);
    play_laws::lemma_counted_bound(target);
    assert forall|k: int| 0 <= k < base.len() implies 0 <= (#[trigger] base[k]).count <= b by {
        strategy::lemma_place(na, nh, k);
        assert(0 <= sigma[k].count <= b);
        assert(0 <= target[k / nh].count);
    }
    assert(b <= na * b) by (nonlinear_arith)
        requires
            1 <= na,
            0 < b,
    ;
    assert(bounded(first, na * b));
}

/// Law: raking keeps strategies. Where the target shares one and no share of
/// the strategy is negative or more than one, every hand shares one between
/// its actions after raking, whatever the reach.
pub proof fn law_raked_strategies_share_one(
    sigma: Seq<Nano>,
    na: int,
    nh: int,
    reach: Seq<Nano>,
    target: Seq<Nano>,
    i: int,
)
    requires
        1 <= na <= MOST_ACTIONS,
        0 <= i < nh,
        target.len() == na,
        sigma.len() == na * nh,
        reach.len() == nh,
        bounded(sigma, BILLION as int),
        play_laws::share_one(target),
    ensures
        play_laws::share_one(
            strategy::column(rake::raked::<Nano>(sigma, na, nh, reach, target), na, nh, i),
        ),
{
    let b = BILLION as int;
    let base = rake::prepared::<Nano>(sigma, na, nh, target);
    let first = rake::first_multipliers::<Nano>(target);
    assert(nano::ten_to(0) == 1);
    lemma_start(sigma, na, nh, target);
    play_laws::lemma_counted_bound(target);
    lemma_fitted(first, base, nh, reach, target, 400);
    let m = rake::fitted::<Nano>(first, base, nh, reach, target, 400);
    let s = scaled_play(m, base, nh, i);
    let q = strategy::column(rake::raked::<Nano>(sigma, na, nh, reach, target), na, nh, i);
    lemma_scaled_total(m, base, nh, i, na);
    assert(s.take(na) =~= s);
    assert forall|a: int| 0 <= a < s.len() implies 0 <= (#[trigger] s[a]).count <= na * b by {
        strategy::lemma_cell(na, nh, a, i);
        assert(0 <= m[a].count <= na * b);
        lemma_times(m[a], base[strategy::cell(nh, a, i)]);
    }
    lemma_counted_most(s, na * b);
    assert(na * (na * b) <= 0x7fff_ffff_ffff_ffff) by (nonlinear_arith)
        requires
            1 <= na <= 255,
            b == 1_000_000_000,
    ;
    play_laws::lemma_counted_bound(s);
    play_laws::lemma_total_counted(s);
    let t = play_laws::counted(s);
    assert(nano::ten_to(12) == 1_000_000_000_000) by {
        reveal_with_fuel(nano::ten_to, 13);
    }
    assert(Nano::decimal_spec(1, 12).count == 0);
    if t > 0 {
        assert forall|a: int| 0 <= a < na implies (#[trigger] q[a]).count == s[a].count * BILLION
            / t by {
            strategy::lemma_cell(na, nh, a, i);
            let c = s[a].count as int;
            assert(0 <= c * BILLION / t <= BILLION) by (nonlinear_arith)
                requires
                    0 <= c <= t,
                    0 < t,
            ;
        }
        play_laws::lemma_shares(s, q);
    } else {
        assert forall|a: int| 0 <= a < na implies #[trigger] q[a] == target[a] by {
            strategy::lemma_cell(na, nh, a, i);
        }
        assert(q =~= target);
    }
}

/// Law: frequencies that are asked for share one once they have been read.
pub proof fn law_read_frequencies_share_one(freqs: Seq<Nano>, na: int)
    requires
        rake::freqs_read(freqs, na) is Ok,
        play_laws::counted(freqs) <= i64::MAX,
    ensures
        play_laws::share_one(rake::freqs_read(freqs, na)->Ok_0),
{
    let q = rake::freqs_read(freqs, na)->Ok_0;
    assert(nano::ten_to(0) == 1);
    assert(nano::ten_to(9) == 1_000_000_000) by {
        reveal_with_fuel(nano::ten_to, 10);
    }
    assert forall|a: int| 0 <= a < freqs.len() implies (#[trigger] freqs[a]).count >= 0 by {
        assert(!rake::unusable(freqs[a]));
    }
    play_laws::lemma_counted_bound(freqs);
    play_laws::lemma_total_counted(freqs);
    let t = play_laws::counted(freqs);
    assert forall|a: int| 0 <= a < freqs.len() implies (#[trigger] q[a]).count == freqs[a].count
        * BILLION / t by {
        let c = freqs[a].count as int;
        assert(0 <= c * BILLION / t <= BILLION) by (nonlinear_arith)
            requires
                0 <= c <= t,
                0 < t,
        ;
    }
    play_laws::lemma_shares(freqs, q);
}

// ---------------------------------------------------------------------------
// How near the targets
// ---------------------------------------------------------------------------

/// The multipliers at which fitting stops because every wanted action is near
/// its target; `None` where the rounds run out before, or nothing is played.
pub open spec fn settled_at(
    m: Seq<Nano>,
    sigma: Seq<Nano>,
    nh: int,
    reach: Seq<Nano>,
    target: Seq<Nano>,
    rounds: nat,
) -> Option<Seq<Nano>>
    decreases rounds,
{
    let (agg, sum) = rake::gathered::<Nano>(m, sigma, nh, reach, nh);
    if rounds == 0 || rake::negligible(sum) {
        None
    } else {
        let (next, err) = rake::steered::<Nano>(m, agg, sum, target, m.len() as int);
        if err.below_spec(Nano::decimal_spec(1, 4)) {
            Some(m)
        } else {
            settled_at(rake::rescaled(next), sigma, nh, reach, target, (rounds - 1) as nat)
        }
    }
}

/// How often action `a` is taken under multipliers, weighted by reach.
pub open spec fn taken(m: Seq<Nano>, sigma: Seq<Nano>, nh: int, reach: Seq<Nano>, a: int) -> Nano {
    let (agg, sum) = rake::gathered::<Nano>(m, sigma, nh, reach, nh);
    agg[a].over_spec(sum)
}

/// Multipliers moved one step towards the target.
pub open spec fn one_step(
    m: Seq<Nano>,
    sigma: Seq<Nano>,
    nh: int,
    reach: Seq<Nano>,
    target: Seq<Nano>,
) -> Seq<Nano> {
    let (agg, sum) = rake::gathered::<Nano>(m, sigma, nh, reach, nh);
    rake::rescaled(rake::steered::<Nano>(m, agg, sum, target, m.len() as int).0)
}

proof fn lemma_farthest(m: Seq<Nano>, agg: Seq<Nano>, sum: Nano, target: Seq<Nano>, k: int, a: int)
    requires
        0 <= a < k <= m.len(),
        rake::wanted(target[a]),
    ensures
        num::magnitude_of(agg[a].over_spec(sum).minus_spec(target[a])).count
            <= rake::steered::<Nano>(m, agg, sum, target, k).1.count,
    decreases k,
{
    if a < k - 1 {
        lemma_farthest(m, agg, sum, target, k - 1, a);
    }
}

pub(crate) proof fn lemma_settled(
    m: Seq<Nano>,
    sigma: Seq<Nano>,
    nh: int,
    reach: Seq<Nano>,
    target: Seq<Nano>,
    rounds: nat,
    a: int,
)
    requires
        1 <= m.len() <= MOST_ACTIONS,
        bounded(m, m.len() * BILLION),
        bounded(sigma, BILLION as int),
        play_laws::none_negative(target),
        target.len() == m.len(),
        sigma.len() == m.len() * nh,
        reach.len() == nh,
        0 <= a < m.len(),
        rake::wanted(target[a]),
    ensures
        settled_at(m, sigma, nh, reach, target, rounds) matches Some(last) ==> {
            &&& rake::fitted::<Nano>(m, sigma, nh, reach, target, rounds) == one_step(
                last,
                sigma,
                nh,
                reach,
                target,
            )
            &&& -100_000 < taken(last, sigma, nh, reach, a).count - target[a].count < 100_000
        },
    decreases rounds,
{
    let (agg, sum) = rake::gathered::<Nano>(m, sigma, nh, reach, nh);
    if rounds > 0 && !rake::negligible(sum) {
        assert forall|x: int| 0 <= x < m.len() implies (#[trigger] m[x]).count >= 0 by {}
        lemma_gathered(m, sigma, nh, reach, nh);
        lemma_steered(m, agg, sum, target, m.len() as int);
        lemma_farthest(m, agg, sum, target, m.len() as int, a);
        let (next, err) = rake::steered::<Nano>(m, agg, sum, target, m.len() as int);
        lemma_rescaled(next);
        assert(nano::ten_to(4) == 10_000) by {
            reveal_with_fuel(nano::ten_to, 5);
        }
        assert(nano::ten_to(0) == 1);
        assert(Nano::decimal_spec(1, 4).count == 100_000);
        if !err.below_spec(Nano::decimal_spec(1, 4)) {
            lemma_settled(
                rake::rescaled(next),
                sigma,
                nh,
                reach,
                target,
                (rounds - 1) as nat,
                a,
            );
        }
    }
}

/// Law: where raking stops before its rounds run out, every wanted action was
/// taken within a ten-thousandth of its target, and one more step towards the
/// targets was made.
pub proof fn law_raking_stops_near_the_targets(
    sigma: Seq<Nano>,
    na: int,
    nh: int,
    reach: Seq<Nano>,
    target: Seq<Nano>,
    a: int,
)
    requires
        1 <= na <= MOST_ACTIONS,
        0 < nh,
        target.len() == na,
        sigma.len() == na * nh,
        reach.len() == nh,
        bounded(sigma, BILLION as int),
        play_laws::share_one(target),
        0 <= a < na,
        rake::wanted(target[a]),
    ensures
        ({
            let base = rake::prepared::<Nano>(sigma, na, nh, target);
            let first = rake::first_multipliers::<Nano>(target);
            settled_at(first, base, nh, reach, target, 400) matches Some(last) ==> {
                &&& rake::raked::<Nano>(sigma, na, nh, reach, target) == rake::applied::<Nano>(
                    one_step(last, base, nh, reach, target),
                    base,
                    nh,
                    target,
                )
                &&& -100_000 < taken(last, base, nh, reach, a).count - target[a].count < 100_000
            }
        }),
{
    let base = rake::prepared::<Nano>(sigma, na, nh, target);
    let first = rake::first_multipliers::<Nano>(target);
    lemma_start(sigma, na, nh, target);
    lemma_settled(first, base, nh, reach, target, 400, a);
}

} // verus!
