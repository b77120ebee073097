//! What the runouts report shows, in exact numbers: where no rake is taken, the
//! two average values of a row share the pot, and frequencies are shares of the
//! range.

use crate::cards::Card;
use crate::cfr::Solver;
use crate::inspect;
use crate::nano;
use crate::nano::{Nano, BILLION};
use crate::num::Num;
use crate::path::Place;
use crate::play_laws;
use crate::removal_laws;
use crate::response_laws;
use crate::runouts;
use crate::runouts::RunoutRow;
use crate::share_laws;
use crate::strategy;
use crate::tree::KIND_CHANCE;
use crate::tree_laws;
use crate::weigh_laws;
use crate::weigh_laws::size;
use crate::zero_sum_laws;
use vstd::prelude::*;

verus! {

// ---------------------------------------------------------------------------
// One hand
// ---------------------------------------------------------------------------

/// The part of one hand in the sums behind an average, on plain numbers: it
/// weighs `w`, is worth `c` per unit of met reach `m`, and adds `t`.
proof fn lemma_part(r: int, m: int, v: int, put: int, c: int, w: int, t: int, top: int)
    requires
        0 <= r,
        0 <= m,
        0 <= top,
        size(c) <= 5 * top,
        size(m * c - m * put - BILLION * v) <= m,
        BILLION * w <= r * m < BILLION * w + BILLION,
        0 <= w,
        size(BILLION * t - w * c) <= BILLION,
    ensures
        size(BILLION * BILLION * t - r * (m * put + BILLION * v)) <= BILLION * BILLION + 5 * top
            * BILLION + r * m,
{
    let b = BILLION as int;
    let (e1, e2, e3) = (b * t - w * c, r * m - b * w, m * c - m * put - b * v);
    assert(b * b * t - r * (m * put + b * v) == b * e1 - c * e2 + r * e3) by {
        assert(b * (b * t - w * c) == b * b * t - b * w * c) by (nonlinear_arith);
        assert(c * (r * m - b * w) == r * m * c - b * w * c) by (nonlinear_arith);
        assert(r * (m * c - m * put - b * v) == r * m * c - r * (m * put + b * v))
            by (nonlinear_arith);
    }
    let five = 5 * top;
    assert(size(b * e1) <= b * b && size(c * e2) <= five * b && size(r * e3) <= r * m)
        by (nonlinear_arith)
        requires
            -b <= e1 <= b,
            0 <= e2 <= b,
            -five <= c <= five,
            -m <= e3 <= m,
            0 <= r,
            0 < b,
            size(b * e1) == b * e1 || size(b * e1) == -(b * e1),
            size(c * e2) == c * e2 || size(c * e2) == -(c * e2),
            size(r * e3) == r * e3 || size(r * e3) == -(r * e3),
    ;
}

/// What weighs in the sums of a player's hands: reach times met reach.
pub open spec fn weight_of(s: Solver<Nano>, at: Place<Nano>, p: int, k: int) -> int {
    weigh_laws::weighed(
        at.reach(p),
        k,
        |i: int| zero_sum_laws::meets(s, p, at.reach(1 - p), i),
    )
}

/// Whether both players stand at a place, with stakes and weights in range.
pub open spec fn weighable(s: Solver<Nano>, at: Place<Nano>, top: int) -> bool {
    &&& zero_sum_laws::both_arrive(s, at.idx, at.oop, at.ip, at.dealt, top)
    &&& 5 * top <= i64::MAX
    &&& weight_of(s, at, 0, s.nh(0)) <= i64::MAX * BILLION
    &&& 5 * top * weight_of(s, at, 0, s.nh(0)) <= i64::MAX * BILLION * BILLION
}

/// Both players' hands weigh the same, and some of them no more than all.
proof fn lemma_weights(s: Solver<Nano>, at: Place<Nano>, p: int, k: int, top: int)
    requires
        weighable(s, at, top),
        0 <= p < 2,
        0 <= k <= s.nh(p),
    ensures
        0 <= weight_of(s, at, p, k) <= weight_of(s, at, 0, s.nh(0)),
    decreases s.nh(p) - k,
{
    zero_sum_laws::lemma_meet_alike(s, at.oop, at.ip);
    lemma_weight_sign(s, at, p, k, top);
    if k < s.nh(p) {
        lemma_weights(s, at, p, k + 1, top);
        zero_sum_laws::lemma_sides(s, p, at.reach(1 - p), at.dealt, k);
        let (r, m) = (
            at.reach(p)[k].count as int,
            zero_sum_laws::meets(s, p, at.reach(1 - p), k),
        );
        assert(0 <= r * m) by (nonlinear_arith)
            requires
                0 <= r,
                0 <= m,
        ;
    }
}

proof fn lemma_weight_sign(s: Solver<Nano>, at: Place<Nano>, p: int, k: int, top: int)
    requires
        weighable(s, at, top),
        0 <= p < 2,
        0 <= k <= s.nh(p),
    ensures
        0 <= weight_of(s, at, p, k),
    decreases k,
{
    if k > 0 {
        lemma_weight_sign(s, at, p, k - 1, top);
        zero_sum_laws::lemma_sides(s, p, at.reach(1 - p), at.dealt, k - 1);
        let (r, m) = (
            at.reach(p)[k - 1].count as int,
            zero_sum_laws::meets(s, p, at.reach(1 - p), k - 1),
        );
        assert(0 <= r * m) by (nonlinear_arith)
            requires
                0 <= r,
                0 <= m,
        ;
    }
}

/// The sums behind an average value, over the first `k` hands.
proof fn lemma_value_sums(s: Solver<Nano>, at: Place<Nano>, p: int, k: int, top: int)
    requires
        weighable(s, at, top),
        0 <= p < 2,
        0 <= k <= s.nh(p),
    ensures
        ({
            let cfv = s.worth(false, at.idx, p, at.reach(1 - p), at.dealt);
            let put = s.node(at.idx).put[p];
            let (x, d) = runouts::value_sums::<Nano>(
                cfv,
                at.reach(p),
                s.met(p, at.reach(1 - p)),
                put,
                k,
            );
            let m = weight_of(s, at, p, k);
            let r = play_laws::reach_counted(at.reach(p), k);
            &&& 0 <= d.count
            &&& 0 <= m - BILLION * d.count <= k * BILLION + r
            &&& BILLION * size(x.count as int) <= 5 * top * d.count
            &&& size(
                BILLION * BILLION * x.count - m * put.count - BILLION * weigh_laws::dot(
                    at.reach(p),
                    cfv,
                    k,
                ),
            ) <= k * (BILLION * BILLION + 5 * top * BILLION) + m + 5 * top * r
        }),
    decreases k,
{
    let b = BILLION as int;
    let own = at.reach(p);
    let reach = at.reach(1 - p);
    let cfv = s.worth(false, at.idx, p, reach, at.dealt);
    let put = s.node(at.idx).put[p];
    let valid = s.met(p, reach);
    assert(nano::ten_to(0) == 1);
    assert(nano::ten_to(9) == 1_000_000_000) by {
        reveal_with_fuel(nano::ten_to, 10);
    }
    assert(Nano::decimal_spec(1, 9).count == 1);
    play_laws::lemma_taken_bound(own, k);
    if k > 0 {
        let i = k - 1;
        lemma_value_sums(s, at, p, i, top);
        lemma_weights(s, at, p, k, top);
        lemma_weights(s, at, p, i, top);
        assert(own.take(k).drop_last() =~= own.take(i));
        let all = weight_of(s, at, 0, s.nh(0));
        let m = zero_sum_laws::meets(s, p, reach, i);
        removal_laws::law_met_reach_is_exact(s, p, reach, i);
        assert(response_laws::arrives(s, at.idx, p, reach, at.dealt, i));
        zero_sum_laws::law_values_are_backed(s, at.idx, p, reach, at.dealt, i, top);
        let n = s.node(at.idx);
        assert(tree_laws::node_sound(s.spot.tree.arena(), s.spot.board_mask, at.idx));
        share_laws::lemma_backed_fourfold(
            cfv[i].count as int,
            top,
            zero_sum_laws::times_over(tree_laws::street_reached(n)),
            m,
        );
        assert(zero_sum_laws::evens_out(s.spot.tree.nodes@[at.idx], top));
        let (r, v, q) = (own[i].count as int, cfv[i].count as int, put.count as int);
        assert(r >= 0);
        assert(valid[i].count == m);
        let (x0, d0) = runouts::value_sums::<Nano>(cfv, own, valid, put, i);
        let (x1, d1) = runouts::value_sums::<Nano>(cfv, own, valid, put, k);
        let m0 = weight_of(s, at, p, i);
        assert(weight_of(s, at, p, k) == m0 + r * m);
        assert(0 <= r * m) by (nonlinear_arith)
            requires
                0 <= r,
                0 <= m,
        ;
        let unit = b * b + 5 * top * b;
        assert(k * unit == i * unit + unit) by (nonlinear_arith)
            requires
                k == i + 1,
        ;
        assert(0 <= unit) by (nonlinear_arith)
            requires
                unit == b * b + 5 * top * b,
                0 <= top,
                0 < b,
        ;
        let rc = play_laws::reach_counted(own, i);
        let five = 5 * top;
        assert(five * (rc + r) == five * rc + five * r) by (nonlinear_arith);
        assert((m0 + r * m) * q == m0 * q + r * (m * q)) by (nonlinear_arith);
        assert(b * (weigh_laws::dot(own, cfv, i) + r * v) == b * weigh_laws::dot(own, cfv, i) + r
            * (b * v)) by (nonlinear_arith);
        assert(r * (m * q + b * v) == r * (m * q) + r * (b * v)) by (nonlinear_arith);
        if inspect::counts(valid[i]) && r > 0 {
            let c = inspect::chips::<Nano>(cfv[i], valid[i], put);
            share_laws::lemma_per_unit(cfv[i], valid[i], top, put);
            let w = own[i].times_spec(valid[i]);
            weigh_laws::lemma_times_near(own[i], valid[i], i64::MAX as int);
            vstd::arithmetic::div_mod::lemma_fundamental_div_mod(r * m, b);
            vstd::arithmetic::div_mod::lemma_mod_bound(r * m, b);
            vstd::arithmetic::div_mod::lemma_div_pos_is_pos(r * m, b);
            let y = w.count as int;
            assert(b * y <= r * m < b * y + b);
            let z = c.count as int;
            assert(five * y <= i64::MAX * b) by (nonlinear_arith)
                requires
                    b * y <= all,
                    five * all <= i64::MAX * b * b,
                    0 <= five,
                    0 < b,
            ;
            let wz = y * z;
            assert(size(wz) <= five * y) by (nonlinear_arith)
                requires
                    wz == y * z,
                    -five <= z <= five,
                    0 <= y,
                    size(wz) == wz || size(wz) == -wz,
            ;
            weigh_laws::lemma_times_near(w, c, i64::MAX as int);
            weigh_laws::lemma_cut_near(wz, b);
            let t = w.times_spec(c).count as int;
            lemma_part(r, m, v, q, z, y, t, top);
            assert(b * (d0.count + y) <= m0 + r * m) by (nonlinear_arith)
                requires
                    b * d0.count <= m0,
                    b * y <= r * m,
            ;
            assert(d0.count + y <= i64::MAX) by (nonlinear_arith)
                requires
                    b * (d0.count + y) <= i64::MAX * b,
                    0 < b,
            ;
            let (sx, st) = (size(x0.count as int), size(t));
            let dd = d0.count + y;
            assert(b * (sx + st) <= five * dd) by (nonlinear_arith)
                requires
                    b * sx <= five * d0.count,
                    b * st <= five * y,
                    dd == d0.count + y,
            ;
            assert(five * dd <= i64::MAX * b) by (nonlinear_arith)
                requires
                    b * dd <= all,
                    five * all <= i64::MAX * b * b,
                    0 <= five,
                    0 < b,
            ;
            assert(sx + st <= i64::MAX) by (nonlinear_arith)
                requires
                    b * (sx + st) <= i64::MAX * b,
                    0 < b,
            ;
            assert(x1.count == x0.count + t);
            assert(d1.count == dd);
            let total = x0.count + t;
            let stotal = size(total);
            assert(b * stotal <= five * dd) by (nonlinear_arith)
                requires
                    stotal <= sx + st,
                    b * (sx + st) <= five * dd,
                    0 < b,
            ;
            assert(b * b * (x0.count + t) == b * b * x0.count + b * b * t) by (nonlinear_arith);
            assert(b * dd == b * d0.count + b * y) by (nonlinear_arith)
                requires
                    dd == d0.count + y,
            ;
        } else {
            assert(x1 == x0 && d1 == d0);
            assert(r * m <= r) by (nonlinear_arith)
                requires
                    m <= 1 || r == 0,
                    0 <= r,
                    0 <= m,
            ;
            if m <= 1 {
                share_laws::lemma_unmet(v, top, m, q);
            }
            let y = m * q + b * v;
            assert(size(r * y) <= five * r) by (nonlinear_arith)
                requires
                    r == 0 || (-five <= y <= five),
                    0 <= r,
                    size(r * y) == r * y || size(r * y) == -(r * y),
            ;
        }
    } else {
        assert(own.take(0) =~= Seq::<Nano>::empty());
        assert(b * b * 0 == 0 && 0 * put.count == 0 && b * 0 == 0 && 0 * (b * b + 5 * top * b) == 0
            && 5 * top * 0 == 0) by (nonlinear_arith);
    }
}

/// A player's average value, times what all of its hands weigh.
proof fn lemma_average(s: Solver<Nano>, at: Place<Nano>, p: int, top: int)
    requires
        weighable(s, at, top),
        0 <= p < 2,
        s.average_value(at, p) is Some,
    ensures
        ({
            let ev = s.average_value(at, p)->Some_0.count as int;
            let m = weight_of(s, at, 0, s.nh(0));
            let n = s.nh(p);
            let d = weigh_laws::dot(
                at.reach(p),
                s.worth(false, at.idx, p, at.reach(1 - p), at.dealt),
                n,
            );
            size(m * ev - m * s.node(at.idx).put[p].count - BILLION * d) <= 2 * m + n * (BILLION
                * BILLION + 10 * top * BILLION) + 10 * top * play_laws::counted(at.reach(p))
        }),
{
    let b = BILLION as int;
    let n = s.nh(p);
    let own = at.reach(p);
    let reach = at.reach(1 - p);
    let cfv = s.worth(false, at.idx, p, reach, at.dealt);
    let put = s.node(at.idx).put[p];
    let (x, d) = runouts::value_sums::<Nano>(cfv, own, s.met(p, reach), put, n);
    lemma_value_sums(s, at, p, n, top);
    lemma_weights(s, at, p, n, top);
    zero_sum_laws::lemma_meet_alike(s, at.oop, at.ip);
    let m = weight_of(s, at, 0, s.nh(0));
    assert(weight_of(s, at, p, n) == m);
    assert(own.take(n) =~= own);
    let rc = play_laws::counted(own);
    assert(nano::ten_to(12) == 1_000_000_000_000) by {
        reveal_with_fuel(nano::ten_to, 13);
    }
    assert(Nano::decimal_spec(1, 12).count == 0);
    let (xx, dd) = (x.count as int, d.count as int);
    assert(1 <= dd);
    let five = 5 * top;
    let y = xx * b;
    let q = nano::cut_div(y, dd);
    weigh_laws::lemma_cut_near(y, dd);
    let (sx, sq) = (size(xx), size(q));
    assert(size(y) == b * sx) by (nonlinear_arith)
        requires
            y == xx * b,
            0 < b,
            xx < 0 ==> sx == -xx,
            xx >= 0 ==> sx == xx,
            y < 0 ==> size(y) == -y,
            y >= 0 ==> size(y) == y,
    ;
    assert(sq <= five) by (nonlinear_arith)
        requires
            dd * sq <= five * dd,
            1 <= dd,
    ;
    let ev = s.average_value(at, p)->Some_0.count as int;
    assert(ev == q);
    // m ev against b b x, through b d ev
    let e1 = dd * q - xx * b;
    let e2 = m - b * dd;
    assert(m * q - b * b * xx == b * e1 + q * e2) by {
        assert(b * (dd * q - xx * b) == b * dd * q - b * b * xx) by (nonlinear_arith);
        assert(q * (m - b * dd) == m * q - b * dd * q) by (nonlinear_arith);
    }
    let spare = n * b + rc;
    assert(size(b * e1) <= m && size(q * e2) <= five * spare) by (nonlinear_arith)
        requires
            -dd <= e1 <= dd,
            b * dd <= m,
            0 <= e2 <= spare,
            -five <= q <= five,
            0 < b,
            size(b * e1) == b * e1 || size(b * e1) == -(b * e1),
            size(q * e2) == q * e2 || size(q * e2) == -(q * e2),
    ;
    assert(five * spare + n * (b * b + 5 * top * b) + 5 * top * rc == n * (b * b + 10 * top * b)
        + 10 * top * rc) by (nonlinear_arith)
        requires
            five == 5 * top,
            spare == n * b + rc,
    ;
}

/// Law: where no rake is taken, the average values of a row of the runouts
/// report share the pot at that runout: what both players expect adds up to
/// what both have put in, up to rounding.
pub proof fn law_runout_values_share_the_pot(
    s: Solver<Nano>,
    at: Place<Nano>,
    c: Card,
    row: RunoutRow<Nano>,
    top: int,
)
    requires
        s.standing(at),
        s.node(at.idx).kind == KIND_CHANCE,
        c < 52,
        s.comes(at.idx, at.dealt, c as int),
        s.row_shown(at, c, row),
        row.ev[0] is Some,
        row.ev[1] is Some,
        weighable(s, s.dealt_place(at, c), top),
    ensures
        ({
            let next = s.dealt_place(at, c);
            let put = s.node(next.idx).put;
            let m = weight_of(s, next, 0, s.nh(0));
            let (e0, e1) = (row.ev[0]->Some_0.count, row.ev[1]->Some_0.count);
            0 <= m && m * size(e0 + e1 - (put[0].count + put[1].count)) <= BILLION
                * zero_sum_laws::drift(s, next.idx, next.oop, next.ip, next.dealt) + 4 * m + (s.nh(
                0,
            ) + s.nh(1)) * (BILLION * BILLION + 10 * top * BILLION) + 10 * top
                * zero_sum_laws::all_reach(next.oop, next.ip)
        }),
{
    let b = BILLION as int;
    let next = s.dealt_place(at, c);
    let put = s.node(next.idx).put;
    lemma_average(s, next, 0, top);
    lemma_average(s, next, 1, top);
    lemma_weights(s, next, 0, s.nh(0), top);
    zero_sum_laws::law_what_one_wins_the_other_loses(
        s,
        next.idx,
        next.oop,
        next.ip,
        next.dealt,
        top,
    );
    let m = weight_of(s, next, 0, s.nh(0));
    let (e0, e1) = (row.ev[0]->Some_0.count as int, row.ev[1]->Some_0.count as int);
    let (p0, p1) = (put[0].count as int, put[1].count as int);
    let d0 = weigh_laws::dot(
        next.oop,
        s.worth(false, next.idx, 0, next.ip, next.dealt),
        s.nh(0),
    );
    let d1 = weigh_laws::dot(
        next.ip,
        s.worth(false, next.idx, 1, next.oop, next.dealt),
        s.nh(1),
    );
    assert(next.reach(0) == next.oop && next.reach(1) == next.ip);
    let drift = zero_sum_laws::drift(s, next.idx, next.oop, next.ip, next.dealt);
    let z = e0 + e1 - (p0 + p1);
    assert(m * z == (m * e0 - m * p0) + (m * e1 - m * p1)) by (nonlinear_arith)
        requires
            z == e0 + e1 - (p0 + p1),
    ;
    let d = d0 + d1;
    assert(b * d == b * d0 + b * d1) by (nonlinear_arith)
        requires
            d == d0 + d1,
    ;
    assert(size(b * d) <= b * drift) by (nonlinear_arith)
        requires
            -drift <= d <= drift,
            0 < b,
            size(b * d) == b * d || size(b * d) == -(b * d),
    ;
    let unit = b * b + 10 * top * b;
    let (n0, n1) = (s.nh(0), s.nh(1));
    let (c0, c1) = (play_laws::counted(next.oop), play_laws::counted(next.ip));
    assert((n0 + n1) * unit == n0 * unit + n1 * unit) by (nonlinear_arith);
    assert(10 * top * (c0 + c1) == 10 * top * c0 + 10 * top * c1) by (nonlinear_arith);
    assert(size(m * z) == m * size(z)) by (nonlinear_arith)
        requires
            0 <= m,
            z < 0 ==> size(z) == -z,
            z >= 0 ==> size(z) == z,
            m * z < 0 ==> size(m * z) == -(m * z),
            m * z >= 0 ==> size(m * z) == m * z,
    ;
}

// ---------------------------------------------------------------------------
// Frequencies
// ---------------------------------------------------------------------------

proof fn lemma_taking(reach: Seq<Nano>, sigma: Seq<Nano>, na: int, a: int, n: int)
    requires
        1 <= na,
        0 <= a < na,
        0 <= n <= reach.len(),
        play_laws::none_negative(reach),
        play_laws::counted(reach) <= i64::MAX,
        play_laws::range_shares_one(reach, sigma, na),
    ensures
        ({
            let nh = reach.len() as int;
            let t = runouts::reach_taking::<Nano>(reach, sigma, nh, a, n).count as int;
            &&& 0 <= t <= play_laws::reach_counted(reach, n)
            &&& size(
                BILLION * t - weigh_laws::weighed(
                    reach,
                    n,
                    |i: int| sigma[strategy::cell(nh, a, i)].count as int,
                ),
            ) <= n * BILLION
        }),
    decreases n,
{
    let nh = reach.len() as int;
    let b = BILLION as int;
    assert(nano::ten_to(0) == 1);
    play_laws::lemma_taken_bound(reach, n);
    if n > 0 {
        lemma_taking(reach, sigma, na, a, n - 1);
        weigh_laws::lemma_through_inside(reach, sigma, na, a);
        assert(reach.take(n).drop_last() =~= reach.take(n - 1));
        let i = n - 1;
        let share = sigma[strategy::cell(nh, a, i)];
        let (x, y) = (reach[i].count as int, share.count as int);
        assert(0 <= y <= b);
        assert(x >= 0);
        assert(0 <= x * y <= x * b) by (nonlinear_arith)
            requires
                0 <= x,
                0 <= y <= b,
        ;
        weigh_laws::lemma_times_near(reach[i], share, x);
        weigh_laws::lemma_cut_near(x * y, b);
        vstd::arithmetic::div_mod::lemma_div_pos_is_pos(x * y, b);
    } else {
        assert(reach.take(0) =~= Seq::<Nano>::empty());
    }
}

/// Law: how often a range takes an action is the share of its reach that takes
/// it, up to rounding.
pub proof fn law_frequencies_are_shares_of_the_range(
    reach: Seq<Nano>,
    sigma: Seq<Nano>,
    na: int,
    a: int,
)
    requires
        1 <= na,
        0 <= a < na,
        play_laws::none_negative(reach),
        0 < play_laws::counted(reach) <= i64::MAX,
        play_laws::range_shares_one(reach, sigma, na),
    ensures
        ({
            let nh = reach.len() as int;
            let f = runouts::frequency::<Nano>(reach, sigma, a).count;
            let all = play_laws::counted(reach);
            &&& 0 <= f <= BILLION
            &&& size(
                f * all - weigh_laws::weighed(
                    reach,
                    nh,
                    |i: int| sigma[strategy::cell(nh, a, i)].count as int,
                ),
            ) <= all + nh * BILLION
        }),
{
    let nh = reach.len() as int;
    let b = BILLION as int;
    let all = play_laws::counted(reach);
    lemma_taking(reach, sigma, na, a, nh);
    play_laws::lemma_takings(reach, sigma, na, nh);
    assert(reach.take(nh) =~= reach);
    assert(nano::ten_to(12) == 1_000_000_000_000) by {
        reveal_with_fuel(nano::ten_to, 13);
    }
    assert(Nano::decimal_spec(1, 12).count == 0);
    let t = runouts::reach_taking::<Nano>(reach, sigma, nh, a, nh).count as int;
    let y = t * b;
    let q = nano::cut_div(y, all);
    weigh_laws::lemma_cut_near(y, all);
    assert(0 <= y) by (nonlinear_arith)
        requires
            y == t * b,
            0 <= t,
            0 < b,
    ;
    vstd::arithmetic::div_mod::lemma_div_pos_is_pos(y, all);
    assert(q <= b) by (nonlinear_arith)
        requires
            all * q <= t * b,
            t <= all,
            0 < all,
            0 < b,
    ;
    assert(all * q == q * all && t * b == b * t) by (nonlinear_arith);
}

} // verus!
