//! How play is learnt, in exact numbers: what regrets and strategy sums gain,
//! how they fade, and what is played by them.

use crate::cfr::Solver;
use crate::discount;
use crate::engine;
use crate::nano;
use crate::nano::{Nano, BILLION};
use crate::num::Num;
use crate::play_laws;
use crate::preflop_solver;
use crate::preflop_solver::Arenas;
use crate::preflop_tree::Knot;
use crate::session::SolvePlan;
use crate::strategy;
use crate::weigh_laws;
use crate::weigh_laws::size;
use vstd::prelude::*;

verus! {

// ---------------------------------------------------------------------------
// Discounting
// ---------------------------------------------------------------------------

/// The most iterations that the powers of discounting fit for.
pub const MOST_ITERATIONS: u32 = 4_000_000;

/// Whether `power` billionths are `t` to the power of one and a half, cut off.
pub open spec fn one_and_a_half(t: int, power: int) -> bool {
    &&& 0 <= power
    &&& power * power <= t * t * t * (BILLION * BILLION)
    &&& t * t * t * (BILLION * BILLION) < (power + t) * (power + t)
}

/// Law: regrets above zero keep `t^1.5 / (t^1.5 + 1)` after iteration `t`, down
/// to a billionth.
pub proof fn law_regrets_fade_slower_and_slower(t: u32) -> (power: int)
    requires
        1 <= t <= MOST_ITERATIONS,
    ensures
        one_and_a_half(t as int, power),
        0 <= discount::regret_keep::<Nano>(t).count < BILLION,
        0 <= power * BILLION - discount::regret_keep::<Nano>(t).count * (power + BILLION) < power
            + BILLION,
{
    let b = BILLION as int;
    let x = t as int;
    assert(nano::ten_to(0) == 1);
    let time = Nano::decimal_spec(t as i64, 0);
    assert(time.count == x * b);
    let r = lemma_root_of(x * b);
    let root = time.root_spec();
    let power = x * r;
    lemma_power_small(x, r, power);
    assert(root.count == r);
    assert((x * b) * r == b * power) by (nonlinear_arith)
        requires
            power == x * r,
    ;
    vstd::arithmetic::div_mod::lemma_div_multiples_vanish(power, b);
    lemma_power_small(x, r, power);
    assert(0 <= b * power) by (nonlinear_arith)
        requires
            0 <= power,
            0 < b,
    ;
    let done = time.times_spec(root);
    assert(done.count == power);
    let den = power + b;
    let k = (power * b) / den;
    vstd::arithmetic::div_mod::lemma_fundamental_div_mod(power * b, den);
    vstd::arithmetic::div_mod::lemma_mod_bound(power * b, den);
    assert(0 <= power * b) by (nonlinear_arith)
        requires
            0 <= power,
            0 < b,
    ;
    vstd::arithmetic::div_mod::lemma_div_pos_is_pos(power * b, den);
    assert(k < b) by (nonlinear_arith)
        requires
            den * k <= power * b,
            den == power + b,
            0 <= power,
            0 < b,
    ;
    assert(den * k == k * den) by (nonlinear_arith);
    assert(power * power <= x * x * x * (b * b)) by (nonlinear_arith)
        requires
            power == x * r,
            r * r <= x * b * b,
            0 <= x,
            0 <= r,
    ;
    assert(x * x * x * (b * b) < (power + x) * (power + x)) by (nonlinear_arith)
        requires
            power == x * r,
            x * b * b < (r + 1) * (r + 1),
            1 <= x,
    ;
    power
}

/// Powers of iterations that fit.
proof fn lemma_power_small(x: int, r: int, power: int)
    requires
        0 <= x <= 4_000_000,
        0 <= r,
        r * r <= x * BILLION * BILLION,
        power == x * r,
    ensures
        0 <= power <= 8_100_000_000_000_000_000,
        r <= 2_000 * BILLION,
{
    let b = BILLION as int;
    // r is at most two thousand times a billion
    assert(r <= 2_000 * b) by (nonlinear_arith)
        requires
            r * r <= x * b * b,
            0 <= x <= 4_000_000,
            0 <= r,
            0 < b,
    ;
    assert(0 <= power <= 4_000_000 * (2_000 * b)) by (nonlinear_arith)
        requires
            power == x * r,
            0 <= x <= 4_000_000,
            0 <= r <= 2_000 * b,
    ;
}

proof fn lemma_root_of(c: int) -> (r: int)
    requires
        0 <= c <= i64::MAX,
    ensures
        r == nano::root_count(c),
        0 <= r,
        r * r <= c * BILLION < (r + 1) * (r + 1),
{
    let n = c * BILLION;
    assert(n < (n + 1) * (n + 1)) by (nonlinear_arith)
        requires
            0 <= n,
    ;
    let r = lemma_root_exists(n, n + 1);
    assert(nano::roots(r, c));
    nano::lemma_root(r, c);
    r
}

/// Some number is the root of another, cut off; it is below `hi`.
proof fn lemma_root_exists(n: int, hi: int) -> (r: int)
    requires
        0 <= n,
        1 <= hi,
        n < hi * hi,
    ensures
        0 <= r,
        r * r <= n < (r + 1) * (r + 1),
    decreases hi,
{
    let r = hi - 1;
    if r * r <= n {
        r
    } else {
        assert(r >= 1) by (nonlinear_arith)
            requires
                r * r > n,
                0 <= n,
                r >= 0,
        ;
        lemma_root_exists(n, r)
    }
}

/// Law: strategy sums keep the square of `t / (t + 1)` after iteration `t`, up
/// to rounding.
pub proof fn law_sums_fade_slower_and_slower(t: u32)
    requires
        1 <= t < u32::MAX,
    ensures
        0 <= discount::sum_keep::<Nano>(t).count < BILLION,
        size(
            discount::sum_keep::<Nano>(t).count * ((t + 1) * (t + 1)) - BILLION * (t * t),
        ) <= 3 * ((t + 1) * (t + 1)),
{
    let b = BILLION as int;
    let x = t as int;
    let y = x + 1;
    assert(nano::ten_to(0) == 1);
    let time = Nano::decimal_spec(t as i64, 0);
    assert(time.count == x * b);
    assert(Nano::decimal_spec(1, 0).count == b);
    assert(time.plus_spec(Nano::decimal_spec(1, 0)).count == y * b) by {
        assert(x * b + b == y * b) by (nonlinear_arith)
            requires
                y == x + 1,
        ;
    }
    let part = time.over_spec(time.plus_spec(Nano::decimal_spec(1, 0)));
    assert((x * b) * b / (y * b) == (x * b) / y) by {
        vstd::arithmetic::div_mod::lemma_div_denominator((x * b) * b, b, y);
        vstd::arithmetic::div_mod::lemma_div_multiples_vanish(x * b, b);
        assert((x * b) * b == b * (x * b) && y * b == b * y) by (nonlinear_arith);
    }
    let q = (x * b) / y;
    vstd::arithmetic::div_mod::lemma_fundamental_div_mod(x * b, y);
    vstd::arithmetic::div_mod::lemma_mod_bound(x * b, y);
    vstd::arithmetic::div_mod::lemma_div_pos_is_pos(x * b, y);
    assert(0 <= q < b) by (nonlinear_arith)
        requires
            y * q <= x * b,
            y == x + 1,
            1 <= x,
            0 <= q,
            0 < b,
    ;
    assert(0 <= (x * b) * b && 0 < y * b) by (nonlinear_arith)
        requires
            1 <= x,
            1 <= y,
            0 < b,
    ;
    assert(part.count == q);
    let z = q * q;
    assert(0 <= z <= q * b) by (nonlinear_arith)
        requires
            z == q * q,
            0 <= q <= b,
    ;
    weigh_laws::lemma_times_near(part, part, q);
    vstd::arithmetic::div_mod::lemma_fundamental_div_mod(z, b);
    vstd::arithmetic::div_mod::lemma_mod_bound(z, b);
    vstd::arithmetic::div_mod::lemma_div_pos_is_pos(z, b);
    let k = z / b;
    assert(discount::sum_keep::<Nano>(t).count == k);
    // y q == x b - e, b k == q q - f
    let (e, f) = (x * b - y * q, z - b * k);
    let yy = y * y;
    assert(b * (k * yy) == (y * q) * (y * q) - f * yy) by (nonlinear_arith)
        requires
            f == z - b * k,
            z == q * q,
            yy == y * y,
    ;
    assert((y * q) * (y * q) == b * (b * (x * x)) - 2 * (e * (x * b)) + e * e) by (nonlinear_arith)
        requires
            e == x * b - y * q,
    ;
    let xx = x * x;
    let d = k * yy - b * xx;
    assert(b * d == e * e - 2 * (e * (x * b)) - f * yy) by (nonlinear_arith)
        requires
            b * (k * yy) == b * (b * xx) - 2 * (e * (x * b)) + e * e - f * yy,
            d == k * yy - b * xx,
    ;
    assert(0 <= e * e <= yy && 0 <= e * (x * b) <= b * yy && 0 <= f * yy <= b * yy)
        by (nonlinear_arith)
        requires
            0 <= e <= y,
            0 <= f <= b,
            1 <= x <= y,
            yy == y * y,
            0 < b,
    ;
    assert(size(d) <= 3 * yy) by (nonlinear_arith)
        requires
            b * d <= yy,
            -(b * d) <= 3 * (b * yy),
            0 <= yy,
            1 <= b,
            size(d) == d || size(d) == -d,
    ;
}

/// Whether `new` is a regret of `raw` after iteration `t`: above zero it fades
/// by the regret weight, else by half.
pub open spec fn fades_to(raw: int, t: u32, new: int) -> bool {
    if raw > 0 {
        size(BILLION * new - raw * discount::regret_keep::<Nano>(t).count) <= BILLION
    } else {
        size(2 * new - raw) <= 2
    }
}

proof fn lemma_worn(x: Nano, t: u32)
    requires
        1 <= t <= MOST_ITERATIONS,
        i64::MIN < x.count,
    ensures
        fades_to(x.count as int, t, discount::worn(x, t).count as int),
        x.count > 0 ==> 0 <= discount::worn(x, t).count <= x.count,
        x.count <= 0 ==> x.count <= discount::worn(x, t).count <= 0,
{
    let b = BILLION as int;
    assert(nano::ten_to(0) == 1);
    assert(nano::ten_to(1) == 10) by {
        reveal_with_fuel(nano::ten_to, 2);
    }
    assert(Nano::decimal_spec(5, 1).count == 500_000_000);
    law_regrets_fade_slower_and_slower(t);
    let keep = if x.count > 0 {
        discount::regret_keep::<Nano>(t)
    } else {
        Nano::decimal_spec(5, 1)
    };
    let (c, k) = (x.count as int, keep.count as int);
    let y = c * k;
    let m = size(c);
    assert(size(y) <= m * b) by (nonlinear_arith)
        requires
            y == c * k,
            0 <= k <= b,
            m == c && 0 <= c || m == -c && c <= 0,
            size(y) == y || size(y) == -y,
    ;
    weigh_laws::lemma_times_near(x, keep, m);
    weigh_laws::lemma_cut_near(y, b);
    assert(c > 0 ==> 0 <= y) by (nonlinear_arith)
        requires
            y == c * k,
            0 <= k,
    ;
    assert(c <= 0 ==> y <= 0) by (nonlinear_arith)
        requires
            y == c * k,
            0 <= k,
    ;
    if c <= 0 {
        assert(y == c * 500_000_000);
        assert(nano::cut_div(y, b) <= 0) by {
            vstd::arithmetic::div_mod::lemma_div_pos_is_pos(-y, b);
            if y == 0 {
                assert(0int / b == 0);
            }
        }
    } else {
        vstd::arithmetic::div_mod::lemma_div_pos_is_pos(y, b);
    }
}

/// Fading keeps the order of regrets.
proof fn lemma_worn_ordered(x: Nano, y: Nano, t: u32)
    requires
        1 <= t <= MOST_ITERATIONS,
        i64::MIN < x.count <= y.count,
    ensures
        discount::worn(x, t).count <= discount::worn(y, t).count,
{
    lemma_worn(x, t);
    lemma_worn(y, t);
    let b = BILLION as int;
    assert(nano::ten_to(0) == 1);
    assert(nano::ten_to(1) == 10) by {
        reveal_with_fuel(nano::ten_to, 2);
    }
    assert(Nano::decimal_spec(5, 1).count == 500_000_000);
    law_regrets_fade_slower_and_slower(t);
    if x.count > 0 || y.count <= 0 {
        let keep = if x.count > 0 {
            discount::regret_keep::<Nano>(t)
        } else {
            Nano::decimal_spec(5, 1)
        };
        let (u, v, k) = (x.count as int, y.count as int, keep.count as int);
        assert(u * k <= v * k) by (nonlinear_arith)
            requires
                u <= v,
                0 <= k,
        ;
        assert(b * 0 == 0);
        crate::response_laws::lemma_cut_shift(u * k, v * k, 0, b);
    }
}

// ---------------------------------------------------------------------------
// Regrets
// ---------------------------------------------------------------------------

/// Whether what a cell learns from stays in range.
pub open spec fn learnable(old: Nano, val: Nano, out: Nano) -> bool {
    &&& i64::MIN < val.count - out.count <= i64::MAX
    &&& i64::MIN < old.count + (val.count - out.count) <= i64::MAX
}

/// Law: an action's regret gains what the action would have won over what was
/// played, and then fades.
pub proof fn law_regrets_gain_what_was_missed(
    old: Seq<Nano>,
    vals: Seq<Seq<Nano>>,
    out: Seq<Nano>,
    nh: int,
    t: u32,
    a: int,
    i: int,
)
    requires
        1 <= t <= MOST_ITERATIONS,
        0 <= i < nh,
        0 <= a < vals.len(),
        old.len() == vals.len() * nh,
        learnable(old[strategy::cell(nh, a, i)], vals[a][i], out[i]),
    ensures
        fades_to(
            old[strategy::cell(nh, a, i)].count + vals[a][i].count - out[i].count,
            t,
            engine::regrets_learnt::<Nano>(old, vals, out, nh, t)[strategy::cell(
                nh,
                a,
                i,
            )].count as int,
        ),
{
    strategy::lemma_cell(vals.len() as int, nh, a, i);
    let j = strategy::cell(nh, a, i);
    lemma_worn(old[j].plus_spec(vals[a][i].minus_spec(out[i])), t);
}

/// Law: of two actions of a hand with the same regret, the one that won more has
/// the larger regret afterwards.
pub proof fn law_better_actions_gain_more_regret(
    old: Seq<Nano>,
    vals: Seq<Seq<Nano>>,
    out: Seq<Nano>,
    nh: int,
    t: u32,
    a: int,
    b: int,
    i: int,
)
    requires
        1 <= t <= MOST_ITERATIONS,
        0 <= i < nh,
        0 <= a < vals.len(),
        0 <= b < vals.len(),
        old.len() == vals.len() * nh,
        old[strategy::cell(nh, a, i)] == old[strategy::cell(nh, b, i)],
        learnable(old[strategy::cell(nh, a, i)], vals[a][i], out[i]),
        learnable(old[strategy::cell(nh, b, i)], vals[b][i], out[i]),
        vals[a][i].count <= vals[b][i].count,
    ensures
        engine::regrets_learnt::<Nano>(old, vals, out, nh, t)[strategy::cell(nh, a, i)].count
            <= engine::regrets_learnt::<Nano>(old, vals, out, nh, t)[strategy::cell(
            nh,
            b,
            i,
        )].count,
{
    strategy::lemma_cell(vals.len() as int, nh, a, i);
    strategy::lemma_cell(vals.len() as int, nh, b, i);
    let (x, y) = (strategy::cell(nh, a, i), strategy::cell(nh, b, i));
    lemma_worn_ordered(
        old[x].plus_spec(vals[a][i].minus_spec(out[i])),
        old[y].plus_spec(vals[b][i].minus_spec(out[i])),
        t,
    );
}

/// Law: a strategy sum gains what the hand played of the action, weighed by how
/// likely the hand was to be there, and then fades.
pub proof fn law_sums_gain_what_was_played(
    old: Seq<Nano>,
    sigma: Seq<Nano>,
    own: Seq<Nano>,
    nh: int,
    t: u32,
    na: int,
    a: int,
    i: int,
) -> (gained: int)
    requires
        1 <= t < u32::MAX,
        0 <= i < nh,
        0 <= a < na,
        old.len() == na * nh,
        0 <= own[i].count,
        0 <= sigma[strategy::cell(nh, a, i)].count <= BILLION,
        0 <= old[strategy::cell(nh, a, i)].count,
        old[strategy::cell(nh, a, i)].count + own[i].count <= i64::MAX,
    ensures
        0 <= gained,
        size(BILLION * gained - own[i].count * sigma[strategy::cell(nh, a, i)].count) <= BILLION,
        size(
            BILLION * engine::sums_learnt::<Nano>(old, sigma, own, nh, t)[strategy::cell(
                nh,
                a,
                i,
            )].count - (old[strategy::cell(nh, a, i)].count + gained) * discount::sum_keep::<Nano>(
                t,
            ).count,
        ) <= BILLION,
{
    let b = BILLION as int;
    strategy::lemma_cell(na, nh, a, i);
    let j = strategy::cell(nh, a, i);
    law_sums_fade_slower_and_slower(t);
    let (r, x) = (own[i].count as int, sigma[j].count as int);
    assert(0 <= r * x <= r * b) by (nonlinear_arith)
        requires
            0 <= r,
            0 <= x <= b,
    ;
    weigh_laws::lemma_times_near(own[i], sigma[j], r);
    weigh_laws::lemma_cut_near(r * x, b);
    vstd::arithmetic::div_mod::lemma_div_pos_is_pos(r * x, b);
    let g = own[i].times_spec(sigma[j]);
    let sum = old[j].plus_spec(g);
    let keep = discount::sum_keep::<Nano>(t);
    let (c, k) = (sum.count as int, keep.count as int);
    assert(0 <= c * k <= c * b) by (nonlinear_arith)
        requires
            0 <= c,
            0 <= k <= b,
    ;
    weigh_laws::lemma_times_near(sum, keep, c);
    weigh_laws::lemma_cut_near(c * k, b);
    g.count as int
}

// ---------------------------------------------------------------------------
// Before the flop
// ---------------------------------------------------------------------------

/// Law: before the flop, too, a regret gains what was missed and a strategy sum
/// what was played, and cells of other nodes stay.
pub proof fn law_preflop_cells_gain(
    f: preflop_solver::Field<Nano>,
    ar: Arenas<Nano>,
    nd: Knot<Nano>,
    sigma: Seq<Nano>,
    vals: Seq<Seq<Nano>>,
    out: Seq<Nano>,
    reach: Seq<Nano>,
    a: int,
    h: int,
)
    requires
        0 <= h < 169,
        0 <= a < vals.len(),
        nd.data_off + vals.len() * 169 <= ar.regrets.len() == ar.strat.len(),
        ({
            let j = nd.data_off + strategy::cell(169, a, h);
            let c = strategy::cell(169, a, h);
            &&& learnable(ar.regrets[j], vals[a][h], out[h])
            &&& 0 <= reach[h].count
            &&& 0 <= sigma[c].count <= BILLION
            &&& 0 <= ar.strat[j].count
            &&& ar.strat[j].count + reach[h].count <= i64::MAX
        }),
    ensures
        ({
            let j = nd.data_off + strategy::cell(169, a, h);
            let c = strategy::cell(169, a, h);
            let after = f.learnt(ar, nd, sigma, vals, out, reach, (vals.len() * 169) as int);
            &&& after.regrets[j].count == ar.regrets[j].count + vals[a][h].count - out[h].count
            &&& size(
                BILLION * (after.strat[j].count - ar.strat[j].count) - reach[h].count
                    * sigma[c].count,
            ) <= BILLION
        }),
{
    let b = BILLION as int;
    let n = vals.len() as int;
    strategy::lemma_cell(n, 169, a, h);
    let c = strategy::cell(169, a, h);
    let j = nd.data_off + c;
    let (r, x) = (reach[h].count as int, sigma[c].count as int);
    assert(0 <= r * x <= r * b) by (nonlinear_arith)
        requires
            0 <= r,
            0 <= x <= b,
    ;
    weigh_laws::lemma_times_near(reach[h], sigma[c], r);
    weigh_laws::lemma_cut_near(r * x, b);
    vstd::arithmetic::div_mod::lemma_div_pos_is_pos(r * x, b);
}

/// Law: before the flop cells fade as they do after it.
pub proof fn law_preflop_cells_fade(ar: Arenas<Nano>, t: u32, from: int, to: int, j: int)
    requires
        1 <= t <= MOST_ITERATIONS,
        0 <= from <= j < to <= ar.regrets.len() == ar.strat.len(),
        i64::MIN < ar.regrets[j].count,
        0 <= ar.strat[j].count,
    ensures
        fades_to(
            ar.regrets[j].count as int,
            t,
            preflop_solver::faded(ar, t, from, to).regrets[j].count as int,
        ),
        size(
            BILLION * preflop_solver::faded(ar, t, from, to).strat[j].count - ar.strat[j].count
                * discount::sum_keep::<Nano>(t).count,
        ) <= BILLION,
{
    let b = BILLION as int;
    lemma_worn(ar.regrets[j], t);
    law_sums_fade_slower_and_slower(t);
    let keep = discount::sum_keep::<Nano>(t);
    let (c, k) = (ar.strat[j].count as int, keep.count as int);
    assert(0 <= c * k <= c * b) by (nonlinear_arith)
        requires
            0 <= c,
            0 <= k <= b,
    ;
    weigh_laws::lemma_times_near(ar.strat[j], keep, c);
    weigh_laws::lemma_cut_near(c * k, b);
}

// ---------------------------------------------------------------------------
// What is played
// ---------------------------------------------------------------------------

/// Law: a hand plays its actions in proportion to their entries, down to a
/// billionth; evenly where all are zero.
pub proof fn law_play_is_in_proportion(block: Seq<Nano>, na: int, nh: int, a: int, i: int)
    requires
        1 <= na <= BILLION,
        0 <= a < na,
        0 <= i < nh,
        block.len() == na * nh,
        play_laws::none_negative(strategy::column(block, na, nh, i)),
        play_laws::counted(strategy::column(block, na, nh, i)) <= i64::MAX,
    ensures
        ({
            let all = play_laws::counted(strategy::column(block, na, nh, i));
            let entry = block[strategy::cell(nh, a, i)].count;
            let q = strategy::normalized(block, na, nh)[strategy::cell(nh, a, i)].count;
            if all > 0 {
                0 <= entry * BILLION - q * all < all
            } else {
                0 <= BILLION - q * na < na
            }
        }),
{
    let s = strategy::column(block, na, nh, i);
    let b = BILLION as int;
    play_laws::lemma_counted_bound(s);
    play_laws::lemma_total_counted(s);
    strategy::lemma_cell(na, nh, a, i);
    assert(nano::ten_to(0) == 1);
    assert(nano::ten_to(12) == 1_000_000_000_000) by {
        reveal_with_fuel(nano::ten_to, 13);
    }
    assert(Nano::decimal_spec(1, 12).count == 0);
    let t = play_laws::counted(s);
    let c = s[a].count as int;
    assert(0 <= c <= t);
    if t > 0 {
        assert(0 <= c * b / t <= b) by (nonlinear_arith)
            requires
                0 <= c <= t,
                0 < t,
                0 < b,
        ;
        vstd::arithmetic::div_mod::lemma_fundamental_div_mod(c * b, t);
        vstd::arithmetic::div_mod::lemma_mod_bound(c * b, t);
        assert(t * (c * b / t) == (c * b / t) * t) by (nonlinear_arith);
    } else {
        assert(Nano::decimal_spec(1, 0).count == b);
        assert(Nano::decimal_spec(na as i64, 0).count == na * b);
        assert(b * b / (na * b) == b / na && 0 <= b / na <= b) by {
            vstd::arithmetic::div_mod::lemma_div_denominator(b * b, b, na);
            vstd::arithmetic::mul::lemma_mul_is_commutative(na, b);
            vstd::arithmetic::div_mod::lemma_div_multiples_vanish(b, b);
            vstd::arithmetic::div_mod::lemma_div_is_ordered_by_denominator(b, 1, na);
            vstd::arithmetic::div_mod::lemma_div_pos_is_pos(b, na);
        }
        vstd::arithmetic::div_mod::lemma_fundamental_div_mod(b, na);
        vstd::arithmetic::div_mod::lemma_mod_bound(b, na);
        assert(na * (b / na) == (b / na) * na) by (nonlinear_arith);
    }
}

/// Law: self-play does not take an action without regret while another has
/// some.
pub proof fn law_actions_without_regret_are_not_taken(
    regrets: Seq<Nano>,
    na: int,
    nh: int,
    a: int,
    b: int,
    i: int,
)
    requires
        1 <= na <= BILLION,
        0 <= a < na,
        0 <= b < na,
        0 <= i < nh,
        regrets.len() == na * nh,
        regrets[strategy::cell(nh, a, i)].count <= 0,
        regrets[strategy::cell(nh, b, i)].count > 0,
        play_laws::counted(strategy::column(strategy::positive_part(regrets), na, nh, i))
            <= i64::MAX,
    ensures
        strategy::normalized(strategy::positive_part(regrets), na, nh)[strategy::cell(
            nh,
            a,
            i,
        )].count == 0,
{
    let block = strategy::positive_part(regrets);
    let s = strategy::column(block, na, nh, i);
    assert(nano::ten_to(0) == 1);
    assert forall|x: int| 0 <= x < s.len() implies (#[trigger] s[x]).count >= 0 by {
        strategy::lemma_cell(na, nh, x, i);
    }
    strategy::lemma_cell(na, nh, a, i);
    strategy::lemma_cell(na, nh, b, i);
    play_laws::lemma_counted_bound(s);
    assert(s[b].count > 0);
    law_play_is_in_proportion(block, na, nh, a, i);
    let q = strategy::normalized(block, na, nh)[strategy::cell(nh, a, i)].count as int;
    let t = play_laws::counted(s);
    assert(q == 0) by (nonlinear_arith)
        requires
            0 <= 0 - q * t < t,
            0 < t,
    ;
}

/// Law: what is solved for a decision is played in proportion to the strategy
/// sums, and what self-play tries in proportion to the regrets above zero.
pub proof fn law_solved_play_follows_the_sums(s: Solver<Nano>, idx: int, a: int, i: int)
    requires
        s.wf(),
        s.decides(idx),
        0 <= a < s.node(idx).num_children,
        0 <= i < s.nh(s.node(idx).player as int),
        crate::response_laws::sums_sound(s, idx, i),
    ensures
        ({
            let n = s.node(idx);
            let p = n.player as int;
            let na = n.num_children as int;
            let nh = s.nh(p);
            let block = s.strat[p].block(idx, n.data_offset as int, s.block_len(idx));
            let all = play_laws::counted(strategy::column(block, na, nh, i));
            let q = s.solved(idx)[strategy::cell(nh, a, i)].count;
            all > 0 ==> 0 <= block[strategy::cell(nh, a, i)].count * BILLION - q * all < all
        }),
{
    let n = s.node(idx);
    let p = n.player as int;
    s.lemma_decision(idx);
    s.lemma_played(idx);
    let block = s.strat[p].block(idx, n.data_offset as int, s.block_len(idx));
    law_play_is_in_proportion(block, n.num_children as int, s.nh(p), a, i);
}

// ---------------------------------------------------------------------------
// When a solve stops
// ---------------------------------------------------------------------------

/// Law: a solve measures in percent of the pot, up to rounding.
pub proof fn law_percents_are_of_the_pot(plan: SolvePlan<Nano>, chips: Nano)
    requires
        0 < plan.pot.count,
        size(chips.count as int) * 100 * BILLION <= i64::MAX * plan.pot.count,
    ensures
        size(plan.percent(chips).count * plan.pot.count - 100 * BILLION * chips.count) <= 100
            * plan.pot.count,
{
    let b = BILLION as int;
    assert(nano::ten_to(0) == 1);
    assert(Nano::decimal_spec(100, 0).count == 100 * b);
    let (x, p) = (chips.count as int, plan.pot.count as int);
    let y = x * b;
    let q = nano::cut_div(y, p);
    weigh_laws::lemma_cut_near(y, p);
    let (sx, sq) = (size(x), size(q));
    assert(size(y) == sx * b) by (nonlinear_arith)
        requires
            y == x * b,
            0 < b,
            x < 0 ==> sx == -x,
            x >= 0 ==> sx == x,
            y < 0 ==> size(y) == -y,
            y >= 0 ==> size(y) == y,
    ;
    assert(100 * sq <= i64::MAX) by (nonlinear_arith)
        requires
            p * sq <= sx * b,
            sx * 100 * b <= i64::MAX * p,
            0 < p,
            0 <= sq,
    ;
    let part = chips.over_spec(plan.pot);
    assert(part.count == q);
    let z = q * (100 * b);
    assert(z == b * (100 * q)) by (nonlinear_arith)
        requires
            z == q * (100 * b),
    ;
    assert(nano::cut_div(z, b) == 100 * q) by {
        vstd::arithmetic::div_mod::lemma_div_multiples_vanish(100 * q, b);
        vstd::arithmetic::div_mod::lemma_div_multiples_vanish(-(100 * q), b);
        assert(-(b * (100 * q)) == b * (-(100 * q))) by (nonlinear_arith);
        if z >= 0 {
        } else {
            assert((-z) / b == -(100 * q));
        }
    }
    assert(plan.percent(chips).count == 100 * q);
    assert(100 * q * p == 100 * (p * q) && 100 * b * x == 100 * (x * b)) by (nonlinear_arith);
}

/// Law: a solve goes on until its target is reached or its iterations are used
/// up: it is over where the exploitability is at most the target, and never
/// before the last iteration where it is more, but for rounding.
pub proof fn law_solves_stop_at_their_target(plan: SolvePlan<Nano>, iteration: u32, chips: Nano)
    requires
        0 < plan.pot.count,
        size(chips.count as int) * 100 * BILLION <= i64::MAX * plan.pot.count,
        plan.base <= iteration,
    ensures
        iteration - plan.base >= plan.max_iterations ==> plan.reached(iteration, chips),
        100 * BILLION * chips.count + 100 * plan.pot.count <= plan.target_exploit_pct.count
            * plan.pot.count ==> plan.reached(iteration, chips),
        iteration - plan.base < plan.max_iterations && plan.target_exploit_pct.count
            * plan.pot.count + 100 * plan.pot.count < 100 * BILLION * chips.count
            ==> !plan.reached(iteration, chips),
{
    law_percents_are_of_the_pot(plan, chips);
    let (x, t, p) = (
        plan.percent(chips).count as int,
        plan.target_exploit_pct.count as int,
        plan.pot.count as int,
    );
    if x * p <= t * p {
        assert(x <= t) by (nonlinear_arith)
            requires
                x * p <= t * p,
                0 < p,
        ;
    }
    if t * p < x * p {
        assert(t < x) by (nonlinear_arith)
            requires
                t * p < x * p,
                0 < p,
        ;
    }
}

} // verus!
