//! What seats win and lose where the betting before the flop has ended, in
//! exact numbers.

use crate::nano;
use crate::nano::{Nano, BILLION};
use crate::num;
use crate::num::Num;
use crate::play_laws;
use crate::preflop::PreflopConfig;
use crate::preflop_tree::{Knot, KIND_FOLD_WIN, KIND_POT_SHARE};
use crate::preflop_values;
use crate::seats;
use crate::weigh_laws;
use crate::weigh_laws::size;
use vstd::prelude::*;

verus! {

/// Whether a range is one: no weight is negative, and all are at most one
/// together.
pub open spec fn a_range(reach: Seq<Nano>) -> bool {
    play_laws::none_negative(reach) && play_laws::counted(reach) <= BILLION
}

/// Whether the ranges of the first `k` seats are ranges.
pub open spec fn all_ranges(reaches: Seq<Seq<Nano>>, k: int) -> bool {
    forall|q: int| 0 <= q < k ==> a_range(#[trigger] reaches[q])
}

// ---------------------------------------------------------------------------
// The reach of the others
// ---------------------------------------------------------------------------

/// What the ranges of the first `k` seats but `p` come to, multiplied.
pub open spec fn product(reaches: Seq<Seq<Nano>>, p: int, k: int) -> int
    decreases k,
{
    if k <= 0 {
        1
    } else if k - 1 == p {
        product(reaches, p, k - 1)
    } else {
        product(reaches, p, k - 1) * play_laws::counted(reaches[k - 1])
    }
}

/// A billion for each of the first `k` seats but `p`.
pub open spec fn units(p: int, k: int) -> int
    decreases k,
{
    if k <= 0 {
        1
    } else if k - 1 == p {
        units(p, k - 1)
    } else {
        units(p, k - 1) * BILLION
    }
}

/// A factor of at most one, cut off.
proof fn lemma_factor(x: Nano, y: Nano)
    requires
        0 <= x.count <= BILLION,
        0 <= y.count <= BILLION,
    ensures
        0 <= x.times_spec(y).count <= BILLION,
        size(BILLION * x.times_spec(y).count - x.count * y.count) <= BILLION,
{
    let (a, b) = (x.count as int, y.count as int);
    assert(0 <= a * b <= a * BILLION) by (nonlinear_arith)
        requires
            0 <= a,
            0 <= b <= BILLION,
    ;
    weigh_laws::lemma_times_near(x, y, a);
    weigh_laws::lemma_cut_near(a * b, BILLION as int);
    vstd::arithmetic::div_mod::lemma_div_pos_is_pos(a * b, BILLION as int);
}

/// One more factor of a product that is cut off at each step.
proof fn lemma_product_step(m: int, t: int, n: int, prod: int, unit: int, k: int)
    requires
        0 <= t <= BILLION,
        0 <= unit,
        0 <= k,
        size(BILLION * n - m * t) <= BILLION,
        size(m * unit - BILLION * prod) <= k * unit,
    ensures
        size(n * (unit * BILLION) - BILLION * (prod * t)) <= (k + 1) * (unit * BILLION),
{
    let b = BILLION as int;
    let e = b * n - m * t;
    let d = m * unit - b * prod;
    assert(n * (unit * b) - b * (prod * t) == t * d + unit * e) by {
        assert(n * (unit * b) == unit * (b * n)) by (nonlinear_arith);
        assert(unit * (m * t + e) == t * (m * unit) + unit * e) by (nonlinear_arith);
        assert(t * (m * unit - b * prod) == t * (m * unit) - b * (prod * t)) by (nonlinear_arith);
    }
    assert(size(t * d) <= b * (k * unit) && size(unit * e) <= unit * b) by (nonlinear_arith)
        requires
            0 <= t <= b,
            -(k * unit) <= d <= k * unit,
            -b <= e <= b,
            0 <= unit,
            0 <= k * unit,
            size(t * d) == t * d || size(t * d) == -(t * d),
            size(unit * e) == unit * e || size(unit * e) == -(unit * e),
    ;
    assert(0 <= k * unit) by (nonlinear_arith)
        requires
            0 <= k,
            0 <= unit,
    ;
    assert((k + 1) * (unit * b) == b * (k * unit) + unit * b) by (nonlinear_arith);
}

/// Law: how likely the others are to get somewhere is what their ranges come
/// to, multiplied, up to a billionth for each; the seat's own range does not
/// count.
pub proof fn law_others_arrive_as_their_ranges_do(reaches: Seq<Seq<Nano>>, p: int, k: int)
    requires
        0 <= k <= reaches.len(),
        all_ranges(reaches, k),
    ensures
        0 <= preflop_values::mass::<Nano>(reaches, p, k).count <= BILLION,
        size(
            preflop_values::mass::<Nano>(reaches, p, k).count * units(p, k) - BILLION * product(
                reaches,
                p,
                k,
            ),
        ) <= k * units(p, k),
        1 <= units(p, k),
    decreases k,
{
    assert(nano::ten_to(0) == 1);
    if k > 0 {
        law_others_arrive_as_their_ranges_do(reaches, p, k - 1);
        let u = units(p, k - 1);
        if k - 1 != p {
            let reach = reaches[k - 1];
            assert(a_range(reach));
            play_laws::lemma_counted_bound(reach);
            play_laws::lemma_total_counted(reach);
            let m = preflop_values::mass::<Nano>(reaches, p, k - 1);
            let t = num::total_of(reach);
            lemma_factor(m, t);
            lemma_product_step(
                m.count as int,
                t.count as int,
                m.times_spec(t).count as int,
                product(reaches, p, k - 1),
                u,
                k - 1,
            );
            assert(1 <= u * BILLION) by (nonlinear_arith)
                requires
                    1 <= u,
                    BILLION == 1_000_000_000,
            ;
        } else {
            assert((k - 1) * u <= k * u) by (nonlinear_arith)
                requires
                    1 <= u,
            ;
        }
    }
}

// ---------------------------------------------------------------------------
// Seats that are out
// ---------------------------------------------------------------------------

/// Whether a seat is out of the hand where the betting has ended: it has
/// folded.
pub open spec fn is_out(nd: Knot<Nano>, p: int) -> bool {
    if nd.kind == KIND_FOLD_WIN {
        nd.winner != p
    } else {
        !seats::seated(nd.live, p)
    }
}

/// Law: a seat that has folded loses just what it has put in, times how likely
/// the others are to get there, whatever it holds and whoever wins.
pub proof fn law_folded_seats_lose_what_they_put_in(
    cfg: PreflopConfig<Nano>,
    cells: Seq<Nano>,
    nd: Knot<Nano>,
    p: int,
    reaches: Seq<Seq<Nano>>,
    h: int,
)
    requires
        nd.kind == KIND_FOLD_WIN || nd.kind == KIND_POT_SHARE,
        0 <= p < reaches.len(),
        nd.invested.len() == reaches.len(),
        all_ranges(reaches, reaches.len() as int),
        is_out(nd, p),
        0 <= nd.invested[p].count,
        0 <= h < 169,
    ensures
        ({
            let v = preflop_values::settled::<Nano>(cfg, cells, nd, p, reaches)[h].count;
            let others = preflop_values::mass::<Nano>(reaches, p, reaches.len() as int).count;
            0 <= others * nd.invested[p].count + BILLION * v < BILLION
        }),
{
    let n = reaches.len() as int;
    assert(nano::ten_to(0) == 1);
    law_others_arrive_as_their_ranges_do(reaches, p, n);
    let prob = preflop_values::mass::<Nano>(reaches, p, n);
    let put = nd.invested[p];
    let (m, x) = (prob.count as int, put.count as int);
    lemma_loss(prob, put);
    if m == 0 {
        assert(m * x == 0) by (nonlinear_arith)
            requires
                m == 0,
        ;
    }
}

/// A loss, weighed and cut off.
proof fn lemma_loss(prob: Nano, put: Nano)
    requires
        0 <= prob.count <= BILLION,
        0 <= put.count,
    ensures
        0 <= prob.count * put.count + BILLION * prob.times_spec(put.negated_spec()).count
            < BILLION,
{
    let b = BILLION as int;
    let (m, x) = (prob.count as int, put.count as int);
    assert(put.negated_spec().count == -x);
    let y = m * x;
    assert(0 <= y <= x * b && m * (-x) == -y) by (nonlinear_arith)
        requires
            y == m * x,
            0 <= m <= b,
            0 <= x,
    ;
    weigh_laws::lemma_times_near(prob, put.negated_spec(), x);
    vstd::arithmetic::div_mod::lemma_fundamental_div_mod(y, b);
    vstd::arithmetic::div_mod::lemma_mod_bound(y, b);
    assert(nano::cut_div(-y, b) == -(y / b)) by {
        if y == 0 {
            assert(0int / b == 0);
        }
    }
    assert(b * (-(y / b)) == -(b * (y / b))) by (nonlinear_arith);
}

// ---------------------------------------------------------------------------
// The rake
// ---------------------------------------------------------------------------

/// Whether a rake is what is due: so many percent of the pot, up to rounding,
/// and no more than the cap where there is one.
pub open spec fn rakes(pct: Nano, cap: Nano, pot: int, rake: int) -> bool {
    &&& 0 <= rake <= pot
    &&& cap.count > 0 ==> rake <= cap.count
    &&& 100 * BILLION * rake <= pct.count * pot
    &&& rake != cap.count || cap.count <= 0 ==> pct.count * pot < 100 * BILLION * rake + 101
        * BILLION
}

/// Law: the rake before and after the flop is so many percent of the pot, up to
/// the cap; a cap of zero caps nothing.
pub proof fn law_rake_is_a_share_of_the_pot(cfg: PreflopConfig<Nano>, pot: Nano)
    requires
        0 <= cfg.rake_pct.count <= 100 * BILLION,
        0 <= cfg.rake_cap.count,
        0 <= pot.count <= 90_000_000_000_000_000,
    ensures
        rakes(
            cfg.rake_pct,
            cfg.rake_cap,
            pot.count as int,
            preflop_values::rake_on(cfg, pot).count as int,
        ),
        cfg.no_flop_no_drop ==> preflop_values::cut_before_flop(cfg, pot).count == 0,
        !cfg.no_flop_no_drop ==> preflop_values::cut_before_flop(cfg, pot)
            == preflop_values::rake_on(cfg, pot),
{
    let b = BILLION as int;
    assert(nano::ten_to(0) == 1);
    assert(Nano::decimal_spec(100, 0).count == 100 * b);
    let (x, y) = (pot.count as int, cfg.rake_pct.count as int);
    let z = x * y;
    assert(0 <= z <= 100 * (x * b)) by (nonlinear_arith)
        requires
            z == x * y,
            0 <= x,
            0 <= y <= 100 * b,
    ;
    assert(100 * (x * b) == (100 * x) * b) by (nonlinear_arith);
    weigh_laws::lemma_times_near(pot, cfg.rake_pct, 100 * x);
    vstd::arithmetic::div_mod::lemma_fundamental_div_mod(z, b);
    vstd::arithmetic::div_mod::lemma_mod_bound(z, b);
    vstd::arithmetic::div_mod::lemma_div_pos_is_pos(z, b);
    let t = z / b;
    assert(pot.times_spec(cfg.rake_pct).count == t);
    assert((t * b) / (100 * b) == t / 100) by {
        vstd::arithmetic::div_mod::lemma_div_denominator(t * b, b, 100);
        vstd::arithmetic::div_mod::lemma_div_multiples_vanish(t, b);
        assert(t * b == b * t) by (nonlinear_arith);
    }
    let due = pot.times_spec(cfg.rake_pct).over_spec(Nano::decimal_spec(100, 0));
    assert(0 <= t * b) by (nonlinear_arith)
        requires
            0 <= t,
            0 < b,
    ;
    assert(due.count == t / 100);
    assert(b * (t / 100) * 100 <= b * t && b * t < b * ((t / 100) * 100) + 100 * b)
        by (nonlinear_arith)
        requires
            (t / 100) * 100 <= t < (t / 100) * 100 + 100,
            0 < b,
    ;
    let d = t / 100;
    assert(b * (d * 100) == 100 * b * d && b * d * 100 == 100 * b * d) by (nonlinear_arith);
    assert(y * x == z) by (nonlinear_arith)
        requires
            z == x * y,
    ;
    assert(d <= x);
    let rake = preflop_values::rake_on(cfg, pot).count as int;
    assert(100 * b * rake <= 100 * b * d) by (nonlinear_arith)
        requires
            rake <= d,
            0 < b,
    ;
}

// ---------------------------------------------------------------------------
// Seats that win or share
// ---------------------------------------------------------------------------

/// A gain, weighed and cut off.
proof fn lemma_gain(prob: Nano, gain: Nano)
    requires
        0 <= prob.count <= BILLION,
        i64::MIN < gain.count,
    ensures
        size(BILLION * prob.times_spec(gain).count - prob.count * gain.count) <= BILLION,
{
    let b = BILLION as int;
    let (m, x) = (prob.count as int, gain.count as int);
    let y = m * x;
    assert(size(y) <= i64::MAX * b) by (nonlinear_arith)
        requires
            y == m * x,
            0 <= m <= b,
            -i64::MAX <= x <= i64::MAX,
            size(y) == y || size(y) == -y,
    ;
    weigh_laws::lemma_times_near(prob, gain, i64::MAX as int);
    weigh_laws::lemma_cut_near(y, b);
}

/// Law: a seat that all others have folded to wins the pot, less the rake and
/// what it put in itself, times how likely the others are to get there.
pub proof fn law_the_last_seat_wins_the_pot(
    cfg: PreflopConfig<Nano>,
    cells: Seq<Nano>,
    nd: Knot<Nano>,
    p: int,
    reaches: Seq<Seq<Nano>>,
    h: int,
) -> (rake: int)
    requires
        nd.kind == KIND_FOLD_WIN,
        0 <= p < reaches.len(),
        nd.invested.len() == reaches.len(),
        all_ranges(reaches, reaches.len() as int),
        nd.winner == p,
        0 <= nd.invested[p].count <= nd.pot.count <= 90_000_000_000_000_000,
        0 <= cfg.rake_pct.count <= 100 * BILLION,
        0 <= cfg.rake_cap.count,
        0 <= h < 169,
    ensures
        ({
            let v = preflop_values::settled::<Nano>(cfg, cells, nd, p, reaches)[h].count;
            let others = preflop_values::mass::<Nano>(reaches, p, reaches.len() as int).count;
            &&& if cfg.no_flop_no_drop {
                rake == 0
            } else {
                rakes(cfg.rake_pct, cfg.rake_cap, nd.pot.count as int, rake)
            }
            &&& size(BILLION * v - others * (nd.pot.count - rake - nd.invested[p].count))
                <= BILLION
        }),
{
    let n = reaches.len() as int;
    assert(nano::ten_to(0) == 1);
    law_others_arrive_as_their_ranges_do(reaches, p, n);
    law_rake_is_a_share_of_the_pot(cfg, nd.pot);
    let prob = preflop_values::mass::<Nano>(reaches, p, n);
    let cut = preflop_values::cut_before_flop(cfg, nd.pot);
    let gain = nd.pot.minus_spec(cut).minus_spec(nd.invested[p]);
    assert(gain.count == nd.pot.count - cut.count - nd.invested[p].count);
    lemma_gain(prob, gain);
    let (m, g) = (prob.count as int, gain.count as int);
    if m == 0 {
        assert(m * g == 0) by (nonlinear_arith)
            requires
                m == 0,
        ;
    }
    cut.count as int
}

/// Whether `share` billionths are a seat's part of a pot of `full`: its chance
/// to win times what it realizes of it, up to rounding, and never more than the
/// pot.
pub open spec fn parts(full: int, chance: int, realized: int, share: int) -> bool {
    &&& 0 <= share <= full
    &&& size(BILLION * BILLION * share - full * chance * realized) <= BILLION * BILLION + BILLION
        * realized || (share == full && BILLION * BILLION * full <= full * chance * realized)
}

/// Law: a seat that shows down takes its part of the pot, less the rake, and
/// loses what it put in, times how likely the others are to get there.
pub proof fn law_live_seats_take_their_part(
    cfg: PreflopConfig<Nano>,
    cells: Seq<Nano>,
    nd: Knot<Nano>,
    p: int,
    reaches: Seq<Seq<Nano>>,
    h: int,
) -> (r: (int, int))
    requires
        nd.kind == KIND_POT_SHARE,
        0 <= p < reaches.len(),
        nd.invested.len() == reaches.len(),
        nd.r.len() == reaches.len(),
        0 <= nd.r[p].count,
        all_ranges(reaches, reaches.len() as int),
        seats::seated(nd.live, p),
        0 <= nd.invested[p].count <= nd.pot.count <= 90_000_000_000_000_000,
        0 <= cfg.rake_pct.count <= 100 * BILLION,
        0 <= cfg.rake_cap.count,
        0 <= h < 169,
        chances(cells),
        forall|q: int| 0 <= q < reaches.len() ==> (#[trigger] reaches[q]).len() == 169,
        preflop_values::mass::<Nano>(reaches, p, reaches.len() as int).count > 0,
    ensures
        ({
            let v = preflop_values::settled::<Nano>(cfg, cells, nd, p, reaches)[h].count;
            let others = preflop_values::mass::<Nano>(reaches, p, reaches.len() as int).count;
            let chance = chance_among(cells, nd.live, reaches, p, h, reaches.len() as int);
            &&& rakes(cfg.rake_pct, cfg.rake_cap, nd.pot.count as int, r.0)
            &&& parts(nd.pot.count - r.0, chance, nd.r[p].count as int, r.1)
            &&& size(BILLION * v - others * (r.1 - nd.invested[p].count)) <= BILLION
        }),
{
    let n = reaches.len() as int;
    let b = BILLION as int;
    assert(nano::ten_to(0) == 1);
    law_others_arrive_as_their_ranges_do(reaches, p, n);
    law_rake_is_a_share_of_the_pot(cfg, nd.pot);
    law_all_live_seats_must_be_beaten(cells, nd.live, reaches, p, h, n);
    let prob = preflop_values::mass::<Nano>(reaches, p, n);
    let rake = preflop_values::rake_on(cfg, nd.pot);
    let full = nd.pot.minus_spec(rake);
    let dists = preflop_values::rivals(nd.live, reaches, p, n);
    let chance = preflop_values::beats::<Nano>(cells, h, dists, dists.len() as int);
    let part = full.times_spec(chance);
    let (f, c, z) = (full.count as int, chance.count as int, nd.r[p].count as int);
    assert(f == nd.pot.count - rake.count);
    assert(0 <= f * c <= f * b) by (nonlinear_arith)
        requires
            0 <= f,
            0 <= c <= b,
    ;
    weigh_laws::lemma_times_near(full, chance, f);
    weigh_laws::lemma_cut_near(f * c, b);
    vstd::arithmetic::div_mod::lemma_div_pos_is_pos(f * c, b);
    let x = part.count as int;
    let y = x * z;
    assert(0 <= y) by (nonlinear_arith)
        requires
            y == x * z,
            0 <= x,
            0 <= z,
    ;
    let q = nano::cut_div(y, b);
    weigh_laws::lemma_cut_near(y, b);
    vstd::arithmetic::div_mod::lemma_div_pos_is_pos(y, b);
    let e1 = b * x - f * c;
    let e2 = b * q - y;
    assert(b * b * q - f * c * z == b * e2 + z * e1) by {
        assert(b * (b * q - x * z) == b * b * q - z * (b * x)) by (nonlinear_arith);
        assert(z * (b * x - f * c) == z * (b * x) - f * c * z) by (nonlinear_arith);
    }
    assert(size(b * e2) <= b * b && size(z * e1) <= b * z) by (nonlinear_arith)
        requires
            -b <= e1 <= b,
            -b <= e2 <= b,
            0 <= z,
            0 < b,
            size(b * e2) == b * e2 || size(b * e2) == -(b * e2),
            size(z * e1) == z * e1 || size(z * e1) == -(z * e1),
    ;
    let share = num::smaller_of(part.times_spec(nd.r[p]), full);
    let s = share.count as int;
    assert(s == if f < q {
        f
    } else {
        q
    });
    if f < q {
        // the part that is cut off is past the pot, so the part itself is
        vstd::arithmetic::div_mod::lemma_fundamental_div_mod(y, b);
        vstd::arithmetic::div_mod::lemma_mod_bound(y, b);
        vstd::arithmetic::div_mod::lemma_fundamental_div_mod(f * c, b);
        vstd::arithmetic::div_mod::lemma_mod_bound(f * c, b);
        assert(b * b * f <= f * c * z) by (nonlinear_arith)
            requires
                f < q,
                b * q <= x * z,
                b * x <= f * c,
                0 <= z,
                0 < b,
        ;
    }
    let gain = share.minus_spec(nd.invested[p]);
    assert(gain.count == s - nd.invested[p].count);
    lemma_gain(prob, gain);
    (rake.count as int, s)
}

// ---------------------------------------------------------------------------
// The chance to win
// ---------------------------------------------------------------------------

/// Whether a table holds chances.
pub open spec fn chances(cells: Seq<Nano>) -> bool {
    &&& cells.len() == 169 * 169
    &&& forall|i: int| 0 <= i < cells.len() ==> 0 <= (#[trigger] cells[i]).count <= BILLION
}

/// The sum of the first `k` products of a row of chances with a distribution.
proof fn lemma_equity_sum(cells: Seq<Nano>, h: int, dist: Seq<Nano>, k: int)
    requires
        chances(cells),
        0 <= h < 169,
        dist.len() == 169,
        a_range(dist),
        0 <= k <= 169,
    ensures
        ({
            let sum = num::total_of(
                preflop_values::equity_terms(cells, h, dist).take(k),
            ).count as int;
            &&& 0 <= sum <= play_laws::reach_counted(dist, k)
            &&& play_laws::reach_counted(dist, k) <= BILLION
            &&& size(
                BILLION * sum - weigh_laws::weighed(
                    dist,
                    k,
                    |o: int| cells[h * 169 + o].count as int,
                ),
            ) <= k * BILLION
        }),
    decreases k,
{
    let terms = preflop_values::equity_terms(cells, h, dist);
    let b = BILLION as int;
    assert(nano::ten_to(0) == 1);
    play_laws::lemma_taken_bound(dist, k);
    if k > 0 {
        lemma_equity_sum(cells, h, dist, k - 1);
        assert(terms.take(k).drop_last() =~= terms.take(k - 1));
        assert(dist.take(k).drop_last() =~= dist.take(k - 1));
        let c = cells[h * 169 + (k - 1)];
        let d = dist[k - 1];
        assert(0 <= c.count <= b);
        assert(d.count >= 0);
        play_laws::lemma_counted_bound(dist);
        lemma_factor(c, d);
        let (x, y) = (c.count as int, d.count as int);
        assert(0 <= x * y <= y * b && x * y == y * x) by (nonlinear_arith)
            requires
                0 <= x <= b,
                0 <= y,
        ;
        weigh_laws::lemma_times_near(c, d, y);
    } else {
        assert(terms.take(0) =~= Seq::<Nano>::empty());
        assert(dist.take(0) =~= Seq::<Nano>::empty());
    }
}

/// Law: a class's equity against a distribution is its chance against each
/// class, weighed by how likely that class is, up to rounding.
pub proof fn law_equity_is_weighed_by_the_distribution(cells: Seq<Nano>, h: int, dist: Seq<Nano>)
    requires
        chances(cells),
        0 <= h < 169,
        dist.len() == 169,
        a_range(dist),
    ensures
        0 <= preflop_values::equity_against(cells, h, dist).count <= BILLION,
        size(
            BILLION * preflop_values::equity_against(cells, h, dist).count - weigh_laws::weighed(
                dist,
                169,
                |o: int| cells[h * 169 + o].count as int,
            ),
        ) <= 169 * BILLION,
{
    let terms = preflop_values::equity_terms(cells, h, dist);
    assert(terms.take(169) =~= terms);
    lemma_equity_sum(cells, h, dist, 169);
}

/// Law: a range as a distribution keeps its proportions, and is at most one
/// together.
pub proof fn law_distributions_keep_proportions(reach: Seq<Nano>)
    requires
        a_range(reach),
        0 < play_laws::counted(reach),
    ensures
        preflop_values::spread(reach).len() == reach.len(),
        play_laws::share_one(preflop_values::spread(reach)),
        forall|o: int|
            0 <= o < reach.len() ==> 0 <= reach[o].count * BILLION - (#[trigger] preflop_values::spread(
                reach,
            )[o]).count * play_laws::counted(reach) < play_laws::counted(reach),
{
    let t = play_laws::counted(reach);
    let q = preflop_values::spread(reach);
    play_laws::lemma_counted_bound(reach);
    play_laws::lemma_total_counted(reach);
    assert forall|o: int| 0 <= o < reach.len() implies (#[trigger] q[o]).count == reach[o].count
        * BILLION / t && 0 <= reach[o].count * BILLION - q[o].count * t < t by {
        let c = reach[o].count as int;
        assert(0 <= c * BILLION / t <= BILLION) by (nonlinear_arith)
            requires
                0 <= c <= t,
                0 < t,
        ;
        vstd::arithmetic::div_mod::lemma_fundamental_div_mod(c * BILLION, t);
        vstd::arithmetic::div_mod::lemma_mod_bound(c * BILLION, t);
        assert(t * (c * BILLION / t) == (c * BILLION / t) * t) by (nonlinear_arith);
    }
    play_laws::lemma_shares(reach, q);
}

/// Whether seat `q` is one that seat `p` has to beat.
pub open spec fn to_beat(live: u32, reaches: Seq<Seq<Nano>>, p: int, q: int) -> bool {
    q != p && seats::seated(live, q) && play_laws::counted(reaches[q]) > 0
}

/// The chance of class `h` to beat those of the first `k` seats that seat `p`
/// has to beat.
pub open spec fn chance_among(
    cells: Seq<Nano>,
    live: u32,
    reaches: Seq<Seq<Nano>>,
    p: int,
    h: int,
    k: int,
) -> int {
    let dists = preflop_values::rivals(live, reaches, p, k);
    preflop_values::beats::<Nano>(cells, h, dists, dists.len() as int).count as int
}

proof fn lemma_beats_prefix(
    cells: Seq<Nano>,
    h: int,
    dists: Seq<Seq<Nano>>,
    last: Seq<Nano>,
    k: int,
)
    requires
        0 <= k <= dists.len(),
    ensures
        preflop_values::beats::<Nano>(cells, h, dists.push(last), k) == preflop_values::beats::<
            Nano,
        >(cells, h, dists, k),
    decreases k,
{
    if k > 0 {
        lemma_beats_prefix(cells, h, dists, last, k - 1);
        assert(dists.push(last)[k - 1] == dists[k - 1]);
    }
}

/// Law: a class's chance to win the pot is its equity against each live seat
/// that can be there, multiplied seat by seat, up to rounding; nobody else
/// counts.
pub proof fn law_all_live_seats_must_be_beaten(
    cells: Seq<Nano>,
    live: u32,
    reaches: Seq<Seq<Nano>>,
    p: int,
    h: int,
    k: int,
)
    requires
        chances(cells),
        0 <= h < 169,
        0 <= k <= reaches.len(),
        all_ranges(reaches, k),
        forall|q: int| 0 <= q < k ==> (#[trigger] reaches[q]).len() == 169,
    ensures
        0 <= chance_among(cells, live, reaches, p, h, k) <= BILLION,
        k == 0 ==> chance_among(cells, live, reaches, p, h, k) == BILLION,
        k > 0 ==> if to_beat(live, reaches, p, k - 1) {
            size(
                BILLION * chance_among(cells, live, reaches, p, h, k) - chance_among(
                    cells,
                    live,
                    reaches,
                    p,
                    h,
                    k - 1,
                ) * preflop_values::equity_against(
                    cells,
                    h,
                    preflop_values::spread(reaches[k - 1]),
                ).count,
            ) <= BILLION
        } else {
            chance_among(cells, live, reaches, p, h, k) == chance_among(
                cells,
                live,
                reaches,
                p,
                h,
                k - 1,
            )
        },
    decreases k,
{
    assert(nano::ten_to(0) == 1);
    if k > 0 {
        law_all_live_seats_must_be_beaten(cells, live, reaches, p, h, k - 1);
        let before = preflop_values::rivals(live, reaches, p, k - 1);
        let reach = reaches[k - 1];
        assert(a_range(reach));
        play_laws::lemma_counted_bound(reach);
        play_laws::lemma_total_counted(reach);
        if to_beat(live, reaches, p, k - 1) {
            let dist = preflop_values::spread(reach);
            law_distributions_keep_proportions(reach);
            law_equity_is_weighed_by_the_distribution(cells, h, dist);
            let n = before.len() as int;
            lemma_beats_prefix(cells, h, before, dist, n);
            assert(before.push(dist)[n] == dist);
            let x = preflop_values::beats::<Nano>(cells, h, before, n);
            lemma_factor(x, preflop_values::equity_against(cells, h, dist));
        }
    }
}

} // verus!
