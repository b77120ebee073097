//! How near raking comes to its targets, counted in exact numbers.

use crate::cards::NUM_COMBOS;
use crate::nano;
use crate::nano::{Nano, BILLION};
use crate::num;
use crate::num::Num;
use crate::play_laws;
use crate::rake;
use crate::rake_laws;
use crate::strategy;
use crate::weigh_laws;
use crate::weigh_laws::size;
use vstd::prelude::*;

verus! {

/// A sum of the first `n` terms.
pub open spec fn adds(n: int, x: spec_fn(int) -> int) -> int {
    weigh_laws::weighed(strategy::level(n as nat, Nano { count: 1 }), n, x)
}

proof fn lemma_adds_step(n: int, x: spec_fn(int) -> int)
    requires
        0 <= n,
    ensures
        adds(n + 1, x) == adds(n, x) + x(n),
{
    lemma_adds_any(n, n, n + 1, x);
    let ones = strategy::level((n + 1) as nat, Nano { count: 1 });
    assert(ones[n].count == 1);
    assert(1 * x(n) == x(n));
}

proof fn lemma_adds_any(k: int, n: int, m: int, x: spec_fn(int) -> int)
    requires
        0 <= k <= n <= m,
    ensures
        weigh_laws::weighed(strategy::level(n as nat, Nano { count: 1 }), k, x)
            == weigh_laws::weighed(strategy::level(m as nat, Nano { count: 1 }), k, x),
    decreases k,
{
    if k > 0 {
        lemma_adds_any(k - 1, n, m, x);
    }
}

proof fn lemma_adds_linear(
    n: int,
    x: spec_fn(int) -> int,
    y: spec_fn(int) -> int,
    z: spec_fn(int) -> int,
    a: int,
    b: int,
)
    requires
        forall|i: int| 0 <= i < n ==> #[trigger] z(i) == a * x(i) + b * y(i),
    ensures
        adds(n, z) == a * adds(n, x) + b * adds(n, y),
{
    weigh_laws::lemma_weighed_linear(
        strategy::level(n as nat, Nano { count: 1 }),
        n,
        x,
        y,
        z,
        a,
        b,
    );
}

proof fn lemma_adds_within(
    n: int,
    x: spec_fn(int) -> int,
    y: spec_fn(int) -> int,
    e: spec_fn(int) -> int,
)
    requires
        0 <= n,
        forall|i: int| 0 <= i < n ==> size(#[trigger] x(i) - y(i)) <= e(i),
    ensures
        size(adds(n, x) - adds(n, y)) <= adds(n, e),
{
    weigh_laws::lemma_weighed_within(
        strategy::level(n as nat, Nano { count: 1 }),
        n,
        x,
        y,
        e,
    );
}

// ---------------------------------------------------------------------------
// One hand
// ---------------------------------------------------------------------------

/// What a hand adds to the aggregate of an action: its reach, shared out as it
/// plays.
pub open spec fn added(
    m: Seq<Nano>,
    sigma: Seq<Nano>,
    nh: int,
    reach: Seq<Nano>,
    i: int,
    a: int,
) -> Nano {
    reach[i].times_spec(m[a]).times_spec(sigma[strategy::cell(nh, a, i)]).over_spec(
        rake::scaled_mass::<Nano>(m, sigma, nh, i, m.len() as int),
    )
}

/// What a hand adds is near its reach times its share.
proof fn lemma_added(w: Nano, m: Nano, s: Nano, p: Nano, d: Nano, most: int)
    requires
        0 <= w.count <= BILLION,
        0 <= m.count <= most,
        most <= 255 * BILLION,
        0 <= s.count <= BILLION,
        p == m.times_spec(s),
        p.count <= d.count,
        1 <= d.count,
    ensures
        ({
            let x = w.times_spec(m).times_spec(s).over_spec(d).count;
            &&& 0 <= x <= 2 * w.count
            &&& size(x * d.count - w.count * p.count) <= 3 * BILLION + d.count
        }),
{
    let b = BILLION as int;
    let (cw, cm, cs, cp, cd) = (
        w.count as int,
        m.count as int,
        s.count as int,
        p.count as int,
        d.count as int,
    );
    assert(0 <= cm * cs <= cm * b) by (nonlinear_arith)
        requires
            0 <= cm,
            0 <= cs <= b,
    ;
    weigh_laws::lemma_times_near(m, s, cm);
    weigh_laws::lemma_cut_near(cm * cs, b);
    assert(0 <= cw * cm <= cm * b) by (nonlinear_arith)
        requires
            0 <= cm,
            0 <= cw <= b,
    ;
    weigh_laws::lemma_times_near(w, m, cm);
    weigh_laws::lemma_cut_near(cw * cm, b);
    let wm = w.times_spec(m);
    let y = wm.count as int;
    vstd::arithmetic::div_mod::lemma_div_pos_is_pos(cw * cm, b);
    vstd::arithmetic::div_mod::lemma_div_pos_is_pos(cm * cs, b);
    assert(0 <= y <= cm);
    assert(0 <= y * cs <= y * b) by (nonlinear_arith)
        requires
            0 <= y,
            0 <= cs <= b,
    ;
    weigh_laws::lemma_times_near(wm, s, y);
    weigh_laws::lemma_cut_near(y * cs, b);
    let wms = wm.times_spec(s);
    let z = wms.count as int;
    vstd::arithmetic::div_mod::lemma_div_pos_is_pos(y * cs, b);
    assert(0 <= z);
    // the product is cut off below its share of the reach
    vstd::arithmetic::div_mod::lemma_fundamental_div_mod(cm * cs, b);
    vstd::arithmetic::div_mod::lemma_fundamental_div_mod(cw * cm, b);
    vstd::arithmetic::div_mod::lemma_fundamental_div_mod(y * cs, b);
    assert(b * cp <= cm * cs < b * cp + b);
    assert(b * y <= cw * cm < b * y + b);
    assert(b * z <= y * cs < b * z + b);
    lemma_product_share(cw, cm, cs, cp, y, z);
    let q = nano::cut_div(z * b, cd);
    weigh_laws::lemma_cut_near(z * b, cd);
    assert(0 <= z * b) by (nonlinear_arith)
        requires
            0 <= z,
            0 < b,
    ;
    vstd::arithmetic::div_mod::lemma_div_pos_is_pos(z * b, cd);
    assert(q <= 2 * cw) by (nonlinear_arith)
        requires
            cd * q <= z * b,
            b * z <= cw * (cp + 1),
            cp <= cd,
            1 <= cd,
            0 <= cw,
    ;
    assert(wms.over_spec(d).count == q);
    assert(z * b == b * z && q * cd == cd * q) by (nonlinear_arith);
}

proof fn lemma_product_share(w: int, m: int, s: int, p: int, y: int, z: int)
    requires
        0 <= w <= BILLION,
        0 <= m,
        0 <= s <= BILLION,
        0 <= y,
        0 <= z,
        BILLION * p <= m * s < BILLION * p + BILLION,
        BILLION * y <= w * m < BILLION * y + BILLION,
        BILLION * z <= y * s < BILLION * z + BILLION,
    ensures
        BILLION * z <= w * (p + 1),
        size(BILLION * z - w * p) <= 3 * BILLION,
{
    let b = BILLION as int;
    assert(b * y * s <= w * m * s && w * m * s <= b * y * s + b * s) by (nonlinear_arith)
        requires
            b * y <= w * m < b * y + b,
            0 <= s,
    ;
    assert(w * (m * s) <= w * (b * p + b) && w * (b * p) <= w * (m * s)) by (nonlinear_arith)
        requires
            b * p <= m * s < b * p + b,
            0 <= w,
    ;
    assert(w * m * s == w * (m * s)) by (nonlinear_arith);
    assert(b * (b * z) <= b * (y * s) && b * (y * s) <= b * (b * z + b)) by (nonlinear_arith)
        requires
            b * z <= y * s < b * z + b,
            0 < b,
    ;
    assert(b * y * s == b * (y * s)) by (nonlinear_arith);
    assert(w * (b * p + b) == b * (w * (p + 1)) && w * (b * p) == b * (w * p) && b * (b * z + b)
        == b * (b * z) + b * b) by (nonlinear_arith);
    assert(b * s <= b * b) by (nonlinear_arith)
        requires
            s <= b,
            0 < b,
    ;
    assert(b * (b * z) <= b * (w * (p + 1)));
    assert(b * z <= w * (p + 1)) by (nonlinear_arith)
        requires
            b * (b * z) <= b * (w * (p + 1)),
            0 < b,
    ;
    assert(w * (p + 1) == w * p + w) by (nonlinear_arith);
    assert(b * (w * p) <= b * (b * z) + b * b + b * b);
    assert(w * p <= b * z + 2 * b) by (nonlinear_arith)
        requires
            b * (w * p) <= b * (b * z) + b * b + b * b,
            0 < b,
    ;
}

/// By what an action's multiplier changes in one step towards the targets, in
/// billionths.
pub open spec fn step(
    m: Seq<Nano>,
    sigma: Seq<Nano>,
    nh: int,
    reach: Seq<Nano>,
    target: Seq<Nano>,
    a: int,
) -> int {
    let f = rake_laws::taken(m, sigma, nh, reach, a);
    if rake::wanted(target[a]) && f.count > 1 {
        target[a].over_spec(f).count as int
    } else {
        BILLION as int
    }
}

/// How far all multipliers change.
pub open spec fn stride(
    m: Seq<Nano>,
    sigma: Seq<Nano>,
    nh: int,
    reach: Seq<Nano>,
    target: Seq<Nano>,
) -> int {
    adds(m.len() as int, |b: int| size(BILLION - step(m, sigma, nh, reach, target, b)))
}

/// What is left over where hand `i` plays action `a` with share `x` after the
/// step: nothing, if its play were scaled without rounding.
pub open spec fn residue(
    m: Seq<Nano>,
    sigma: Seq<Nano>,
    nh: int,
    reach: Seq<Nano>,
    target: Seq<Nano>,
    i: int,
    a: int,
    x: Nano,
) -> int {
    let play = rake_laws::scaled_play(m, sigma, nh, i);
    BILLION * (step(m, sigma, nh, reach, target, a) * play[a].count) - x.count * adds(
        m.len() as int,
        |b: int| step(m, sigma, nh, reach, target, b) * play[b].count,
    )
}

/// What rounding can add to a hand's part of an aggregate.
pub open spec fn rounding(
    m: Seq<Nano>,
    sigma: Seq<Nano>,
    nh: int,
    reach: Seq<Nano>,
    target: Seq<Nano>,
    i: int,
    a: int,
    x: Nano,
) -> int {
    let d = rake::scaled_mass::<Nano>(m, sigma, nh, i, m.len() as int).count as int;
    let g = stride(m, sigma, nh, reach, target) + step(m, sigma, nh, reach, target, a);
    (g * (3 * BILLION + d) + reach[i].count * size(
        residue(m, sigma, nh, reach, target, i, a, x),
    ) / (BILLION as int) + 1) / d + 1
}

/// The arithmetic of one hand: `al` is what it adds to each action, `pl` what it
/// plays of it, `gs` the steps.
proof fn lemma_hand(
    n: int,
    w: int,
    x: int,
    d: int,
    al: spec_fn(int) -> int,
    pl: spec_fn(int) -> int,
    gs: spec_fn(int) -> int,
    a: int,
    rho: int,
)
    requires
        0 <= a < n,
        0 <= w,
        0 <= x <= BILLION,
        1 <= d,
        adds(n, pl) == d,
        forall|b: int| 0 <= b < n ==> 0 <= #[trigger] gs(b) && 0 <= al(b),
        forall|b: int| 0 <= b < n ==> size(#[trigger] al(b) * d - w * pl(b)) <= 3 * BILLION + d,
        rho == BILLION * (gs(a) * pl(a)) - x * adds(n, |b: int| gs(b) * pl(b)),
    ensures
        ({
            let g = adds(n, |b: int| size(BILLION - gs(b))) + gs(a);
            let v = adds(n, |b: int| size(BILLION - gs(b)) * al(b));
            size(w * x - gs(a) * al(a)) <= v + (g * (3 * BILLION + d) + w * size(rho) / (
            BILLION as int) + 1) / d + 1
        }),
{
    let bb = BILLION as int;
    let e = 3 * bb + d;
    let gap = |b: int| bb - gs(b);
    let far = |b: int| size(BILLION - gs(b));
    let gp = |b: int| gs(b) * pl(b);
    let del = |b: int| al(b) * d - w * pl(b);
    // what the changed multipliers do to the hand, counted twice
    let by_play = |b: int| gap(b) * pl(b);
    let by_added = |b: int| gap(b) * al(b);
    let lost = |b: int| gap(b) * del(b);
    let (sum_gp, sum_play, sum_added, sum_lost) = (
        adds(n, gp),
        adds(n, by_play),
        adds(n, by_added),
        adds(n, lost),
    );
    assert forall|b: int| 0 <= b < n implies #[trigger] by_play(b) == bb * pl(b) + (-1) * gp(b) by {
        assert((bb - gs(b)) * pl(b) == bb * pl(b) + (-1) * (gs(b) * pl(b))) by (nonlinear_arith);
    }
    lemma_adds_linear(n, pl, gp, by_play, bb, -1);
    assert(sum_play == bb * d - sum_gp);
    assert forall|b: int| 0 <= b < n implies #[trigger] lost(b) == d * by_added(b) + (-w) * by_play(
        b,
    ) by {
        let (u, v, q) = (gap(b), al(b), pl(b));
        assert(u * (v * d - w * q) == d * (u * v) + (-w) * (u * q)) by (nonlinear_arith);
    }
    lemma_adds_linear(n, by_added, by_play, lost, d, -w);
    assert(sum_lost == d * sum_added + (-w) * sum_play);
    let zero = |b: int| 0int;
    let far_e = |b: int| e * far(b) + 0 * far(b);
    let far_al = |b: int| size(BILLION - gs(b)) * al(b);
    assert forall|b: int| 0 <= b < n implies size(#[trigger] lost(b) - zero(b)) <= far_e(b) by {
        let (u, q, f) = (gap(b), del(b), far(b));
        assert(size(al(b) * d - w * pl(b)) <= e);
        assert(size(u * q - 0) <= e * f + 0 * f) by (nonlinear_arith)
            requires
                f == u && 0 <= u || f == -u && u <= 0,
                -e <= q <= e,
                0 <= e,
                size(u * q - 0) == u * q || size(u * q - 0) == -(u * q),
        ;
    }
    lemma_adds_within(n, lost, zero, far_e);
    assert forall|b: int| 0 <= b < n implies size(#[trigger] by_added(b) - zero(b)) <= far_al(
        b,
    ) by {
        let (u, q, f) = (gap(b), al(b), far(b));
        assert(0 <= gs(b) && 0 <= al(b));
        assert(size(u * q - 0) <= f * q) by (nonlinear_arith)
            requires
                f == u && 0 <= u || f == -u && u <= 0,
                0 <= q,
                size(u * q - 0) == u * q || size(u * q - 0) == -(u * q),
        ;
    }
    lemma_adds_within(n, by_added, zero, far_al);
    lemma_adds_linear(n, far, far, far_e, e, 0);
    lemma_adds_linear(n, far, far, zero, 0, 0);
    let (g0, v) = (adds(n, far), adds(n, far_al));
    assert(size(sum_lost) <= e * g0);
    assert(size(sum_added) <= v);
    assert(size(del(a)) <= e) by {
        assert(size(al(a) * d - w * pl(a)) <= e);
    }
    assert(0 <= gs(a) && 0 <= al(a));
    lemma_hand_sum(
        w,
        x,
        d,
        gs(a),
        al(a),
        pl(a),
        sum_gp,
        sum_added,
        sum_lost,
        rho,
        g0,
        v,
    );
}

/// The end of [`lemma_hand`], on plain numbers.
proof fn lemma_hand_sum(
    w: int,
    x: int,
    d: int,
    g: int,
    al: int,
    pl: int,
    sum_gp: int,
    sum_added: int,
    sum_lost: int,
    rho: int,
    g0: int,
    v: int,
)
    requires
        0 <= w,
        0 <= x <= BILLION,
        1 <= d,
        0 <= g,
        sum_lost == d * sum_added + (-w) * (BILLION * d - sum_gp),
        size(sum_lost) <= (3 * BILLION + d) * g0,
        size(sum_added) <= v,
        size(al * d - w * pl) <= 3 * BILLION + d,
        rho == BILLION * (g * pl) - x * sum_gp,
    ensures
        size(w * x - g * al) <= v + ((g0 + g) * (3 * BILLION + d) + w * size(rho) / (BILLION as int)
            + 1) / d + 1,
{
    let b = BILLION as int;
    let e = 3 * b + d;
    let del = al * d - w * pl;
    let y = w * x - g * al;
    // b d (w x - g al) == x (w (b d - sum_gp)) - w rho - b g del
    let t = w * (b * d - sum_gp);
    assert(b * (d * y) == x * t - w * rho - b * (g * del)) by {
        vstd::arithmetic::mul::lemma_mul_is_distributive_sub(d, w * x, g * al);
        vstd::arithmetic::mul::lemma_mul_is_distributive_sub(b, d * (w * x), d * (g * al));
        assert(d * (g * al) == g * (al * d)) by (nonlinear_arith);
        vstd::arithmetic::mul::lemma_mul_is_distributive_sub(w, b * d, sum_gp);
        vstd::arithmetic::mul::lemma_mul_is_distributive_sub(x, w * (b * d), w * sum_gp);
        assert(w * (b * d) == b * (d * w)) by (nonlinear_arith);
        assert(x * (b * (d * w)) == b * (d * (w * x))) by (nonlinear_arith);
        assert(x * (w * sum_gp) == w * (x * sum_gp)) by (nonlinear_arith);
        vstd::arithmetic::mul::lemma_mul_is_distributive_sub(w, b * (g * pl), x * sum_gp);
        assert(w * (b * (g * pl)) == b * (g * (w * pl))) by (nonlinear_arith);
        vstd::arithmetic::mul::lemma_mul_is_distributive_sub(g, al * d, w * pl);
        vstd::arithmetic::mul::lemma_mul_is_distributive_sub(b, g * (al * d), g * (w * pl));
    }
    assert(t == d * sum_added - sum_lost) by (nonlinear_arith)
        requires
            t == w * (b * d - sum_gp),
            sum_lost == d * sum_added + (-w) * (b * d - sum_gp),
    ;
    assert(x * t == d * (x * sum_added) - x * sum_lost) by (nonlinear_arith)
        requires
            t == d * sum_added - sum_lost,
    ;
    let (sa, sl, sd, sr) = (size(sum_added), size(sum_lost), size(del), size(rho));
    assert(size(x * sum_added) <= b * v && size(x * sum_lost) <= b * (e * g0) && size(g * del) <= g
        * e && size(w * rho) <= w * sr) by (nonlinear_arith)
        requires
            0 <= x <= b,
            -v <= sum_added <= v,
            -(e * g0) <= sum_lost <= e * g0,
            -e <= del <= e,
            0 <= g,
            0 <= w,
            -sr <= rho <= sr,
            size(x * sum_added) == x * sum_added || size(x * sum_added) == -(x * sum_added),
            size(x * sum_lost) == x * sum_lost || size(x * sum_lost) == -(x * sum_lost),
            size(g * del) == g * del || size(g * del) == -(g * del),
            size(w * rho) == w * rho || size(w * rho) == -(w * rho),
    ;
    let sy = size(y);
    let wr = w * sr;
    assert(0 <= wr) by (nonlinear_arith)
        requires
            wr == w * sr,
            0 <= w,
            0 <= sr,
    ;
    assert(b * (d * sy) <= d * (b * v) + b * (e * g0) + wr + b * (g * e)) by {
        assert(size(b * (d * y)) == b * (d * sy)) by (nonlinear_arith)
            requires
                0 < b,
                1 <= d,
                y < 0 ==> sy == -y,
                y >= 0 ==> sy == y,
                b * (d * y) < 0 ==> size(b * (d * y)) == -(b * (d * y)),
                b * (d * y) >= 0 ==> size(b * (d * y)) == b * (d * y),
        ;
        let (p, q) = (x * sum_added, g * del);
        assert(size(d * p) <= d * (b * v) && size(b * q) <= b * (g * e)) by (nonlinear_arith)
            requires
                -(b * v) <= p <= b * v,
                -(g * e) <= q <= g * e,
                0 < b,
                1 <= d,
                size(d * p) == d * p || size(d * p) == -(d * p),
                size(b * q) == b * q || size(b * q) == -(b * q),
        ;
    }
    vstd::arithmetic::div_mod::lemma_fundamental_div_mod(wr, b);
    vstd::arithmetic::div_mod::lemma_mod_bound(wr, b);
    let k = wr / b;
    let top = (g0 + g) * e + k + 1;
    assert(d * sy <= d * v + top) by (nonlinear_arith)
        requires
            b * (d * sy) <= d * (b * v) + b * (e * g0) + wr + b * (g * e),
            wr <= b * k + b,
            top == (g0 + g) * e + k + 1,
            0 < b,
    ;
    vstd::arithmetic::div_mod::lemma_fundamental_div_mod(top, d);
    vstd::arithmetic::div_mod::lemma_mod_bound(top, d);
    let q = top / d;
    assert(sy <= v + q + 1) by (nonlinear_arith)
        requires
            d * sy <= d * v + top,
            top < d * q + d,
            1 <= d,
    ;
}

// ---------------------------------------------------------------------------
// All hands
// ---------------------------------------------------------------------------

/// Whether raking stands at multipliers that its laws speak of.
pub open spec fn poised(
    m: Seq<Nano>,
    sigma: Seq<Nano>,
    nh: int,
    reach: Seq<Nano>,
    target: Seq<Nano>,
) -> bool {
    &&& 1 <= m.len() <= rake_laws::MOST_ACTIONS
    &&& 0 < nh <= NUM_COMBOS
    &&& rake_laws::bounded(m, m.len() * BILLION)
    &&& rake_laws::bounded(sigma, BILLION as int)
    &&& rake_laws::bounded(reach, BILLION as int)
    &&& sigma.len() == m.len() * nh
    &&& reach.len() == nh
    &&& target.len() == m.len()
    &&& play_laws::share_one(target)
}

/// The reach of those of the first `n` hands that count towards the aggregate.
pub open spec fn counting(m: Seq<Nano>, sigma: Seq<Nano>, nh: int, reach: Seq<Nano>, n: int) -> int
    decreases n,
{
    if n <= 0 {
        0
    } else {
        counting(m, sigma, nh, reach, n - 1) + if rake::left_out::<Nano>(
            m,
            sigma,
            nh,
            reach,
            n - 1,
        ) {
            0
        } else {
            reach[n - 1].count as int
        }
    }
}

/// How much reach of those hands takes action `a`, where each plays `block`.
pub open spec fn counted_taking(
    m: Seq<Nano>,
    sigma: Seq<Nano>,
    nh: int,
    reach: Seq<Nano>,
    block: Seq<Nano>,
    a: int,
    n: int,
) -> int
    decreases n,
{
    if n <= 0 {
        0
    } else {
        counted_taking(m, sigma, nh, reach, block, a, n - 1) + if rake::left_out::<Nano>(
            m,
            sigma,
            nh,
            reach,
            n - 1,
        ) {
            0
        } else {
            reach[n - 1].count * block[strategy::cell(nh, a, n - 1)].count
        }
    }
}

/// What rounding can add over those hands.
pub open spec fn roundings(
    m: Seq<Nano>,
    sigma: Seq<Nano>,
    nh: int,
    reach: Seq<Nano>,
    target: Seq<Nano>,
    block: Seq<Nano>,
    a: int,
    n: int,
) -> int
    decreases n,
{
    if n <= 0 {
        0
    } else {
        roundings(m, sigma, nh, reach, target, block, a, n - 1) + if rake::left_out::<Nano>(
            m,
            sigma,
            nh,
            reach,
            n - 1,
        ) {
            0
        } else {
            rounding(
                m,
                sigma,
                nh,
                reach,
                target,
                n - 1,
                a,
                block[strategy::cell(nh, a, n - 1)],
            )
        }
    }
}

/// A hand's play under multipliers, and how it adds up.
proof fn lemma_play(
    m: Seq<Nano>,
    sigma: Seq<Nano>,
    nh: int,
    reach: Seq<Nano>,
    target: Seq<Nano>,
    i: int,
)
    requires
        poised(m, sigma, nh, reach, target),
        0 <= i < nh,
    ensures
        ({
            let play = rake_laws::scaled_play(m, sigma, nh, i);
            let d = rake::scaled_mass::<Nano>(m, sigma, nh, i, m.len() as int).count;
            &&& d == play_laws::counted(play)
            &&& d == adds(m.len() as int, |b: int| play[b].count as int)
            &&& forall|b: int| 0 <= b < m.len() ==> 0 <= (#[trigger] play[b]).count <= d
        }),
{
    let na = m.len() as int;
    let b = BILLION as int;
    let play = rake_laws::scaled_play(m, sigma, nh, i);
    rake_laws::lemma_scaled_total(m, sigma, nh, i, na);
    assert(play.take(na) =~= play);
    assert forall|a: int| 0 <= a < play.len() implies 0 <= (#[trigger] play[a]).count <= na
        * b by {
        strategy::lemma_cell(na, nh, a, i);
        assert(0 <= m[a].count <= na * b);
        rake_laws::lemma_times(m[a], sigma[strategy::cell(nh, a, i)]);
    }
    rake_laws::lemma_counted_most(play, na * b);
    assert(na * (na * b) <= 0x7fff_ffff_ffff_ffff) by (nonlinear_arith)
        requires
            1 <= na <= 255,
            b == 1_000_000_000,
    ;
    play_laws::lemma_counted_bound(play);
    play_laws::lemma_total_counted(play);
    lemma_counted_adds(play, na);
}

proof fn lemma_counted_adds(play: Seq<Nano>, k: int)
    requires
        0 <= k <= play.len(),
    ensures
        adds(k, |b: int| play[b].count as int) == play_laws::counted(play.take(k)),
        k == play.len() ==> play.take(k) == play,
    decreases k,
{
    let x = |b: int| play[b].count as int;
    if k > 0 {
        lemma_counted_adds(play, k - 1);
        lemma_adds_step(k - 1, x);
        assert(play.take(k).drop_last() =~= play.take(k - 1));
    } else {
        assert(play.take(0) =~= Seq::<Nano>::empty());
    }
    if k == play.len() {
        assert(play.take(k) =~= play);
    }
}

/// What the first `n` hands add up to.
proof fn lemma_gathered_exact(
    m: Seq<Nano>,
    sigma: Seq<Nano>,
    nh: int,
    reach: Seq<Nano>,
    target: Seq<Nano>,
    n: int,
)
    requires
        poised(m, sigma, nh, reach, target),
        0 <= n <= nh,
    ensures
        ({
            let (agg, sum) = rake::gathered::<Nano>(m, sigma, nh, reach, n);
            &&& agg.len() == m.len()
            &&& sum.count == counting(m, sigma, nh, reach, n)
            &&& 0 <= sum.count <= n * BILLION
            &&& forall|a: int|
                0 <= a < m.len() ==> 0 <= (#[trigger] agg[a]).count <= 2 * sum.count
        }),
        n > 0 && !rake::left_out::<Nano>(m, sigma, nh, reach, n - 1) ==> forall|a: int|
            0 <= a < m.len() ==> (#[trigger] rake::gathered::<Nano>(
                m,
                sigma,
                nh,
                reach,
                n,
            ).0[a]).count == rake::gathered::<Nano>(m, sigma, nh, reach, n - 1).0[a].count
                + added(m, sigma, nh, reach, n - 1, a).count,
    decreases n,
{
    let na = m.len() as int;
    let b = BILLION as int;
    assert(nano::ten_to(0) == 1);
    if n > 0 {
        lemma_gathered_exact(m, sigma, nh, reach, target, n - 1);
        let i = n - 1;
        let (was, sum) = rake::gathered::<Nano>(m, sigma, nh, reach, n - 1);
        assert(0 <= reach[i].count <= b);
        assert(n * b == (n - 1) * b + b) by (nonlinear_arith);
        assert(n * b <= 1326 * b) by (nonlinear_arith)
            requires
                n <= 1326,
                0 < b,
        ;
        if !rake::left_out::<Nano>(m, sigma, nh, reach, i) {
            let now = rake::gathered::<Nano>(m, sigma, nh, reach, n).0;
            assert forall|a: int| 0 <= a < na implies 0 <= added(m, sigma, nh, reach, i, a).count
                <= 2 * reach[i].count && (#[trigger] now[a]).count == was[a].count + added(
                m,
                sigma,
                nh,
                reach,
                i,
                a,
            ).count by {
                lemma_added_near(m, sigma, nh, reach, target, i, a);
                assert(0 <= was[a].count <= 2 * sum.count);
            }
        }
    }
}

/// What a hand that counts adds to an action.
proof fn lemma_added_near(
    m: Seq<Nano>,
    sigma: Seq<Nano>,
    nh: int,
    reach: Seq<Nano>,
    target: Seq<Nano>,
    i: int,
    a: int,
)
    requires
        poised(m, sigma, nh, reach, target),
        0 <= i < nh,
        0 <= a < m.len(),
        !rake::left_out::<Nano>(m, sigma, nh, reach, i),
    ensures
        ({
            let d = rake::scaled_mass::<Nano>(m, sigma, nh, i, m.len() as int).count as int;
            let x = added(m, sigma, nh, reach, i, a).count as int;
            let p = rake_laws::scaled_play(m, sigma, nh, i)[a].count as int;
            &&& 1 <= d
            &&& 0 <= x <= 2 * reach[i].count
            &&& size(x * d - reach[i].count * p) <= 3 * BILLION + d
        }),
{
    let na = m.len() as int;
    lemma_play(m, sigma, nh, reach, target, i);
    assert(nano::ten_to(12) == 1_000_000_000_000) by {
        reveal_with_fuel(nano::ten_to, 13);
    }
    assert(Nano::decimal_spec(1, 12).count == 0);
    strategy::lemma_cell(na, nh, a, i);
    let s = sigma[strategy::cell(nh, a, i)];
    let p = rake_laws::scaled_play(m, sigma, nh, i)[a];
    let d = rake::scaled_mass::<Nano>(m, sigma, nh, i, na);
    assert(0 <= m[a].count <= na * BILLION);
    assert(0 <= reach[i].count <= BILLION);
    assert(na * BILLION <= 255 * BILLION) by (nonlinear_arith)
        requires
            na <= 255,
            BILLION == 1_000_000_000,
    ;
    lemma_added(reach[i], m[a], s, p, d, na * BILLION);
}

/// Steps are not negative.
proof fn lemma_step_positive(
    m: Seq<Nano>,
    sigma: Seq<Nano>,
    nh: int,
    reach: Seq<Nano>,
    target: Seq<Nano>,
    a: int,
)
    requires
        poised(m, sigma, nh, reach, target),
        0 <= a < m.len(),
    ensures
        0 <= step(m, sigma, nh, reach, target, a),
{
    let f = rake_laws::taken(m, sigma, nh, reach, a);
    assert(target[a].count >= 0);
    if f.count > 1 {
        rake_laws::lemma_over(target[a], f);
    }
}

/// What the first `n` hands that count take of an action after the step, held
/// against what they took of it before.
proof fn lemma_hands_near(
    m: Seq<Nano>,
    sigma: Seq<Nano>,
    nh: int,
    reach: Seq<Nano>,
    target: Seq<Nano>,
    block: Seq<Nano>,
    a: int,
    n: int,
)
    requires
        poised(m, sigma, nh, reach, target),
        0 <= n <= nh,
        0 <= a < m.len(),
        forall|i: int|
            0 <= i < nh ==> 0 <= (#[trigger] block[strategy::cell(nh, a, i)]).count <= BILLION,
    ensures
        ({
            let agg = rake::gathered::<Nano>(m, sigma, nh, reach, n).0;
            size(
                counted_taking(m, sigma, nh, reach, block, a, n) - step(
                    m,
                    sigma,
                    nh,
                    reach,
                    target,
                    a,
                ) * agg[a].count,
            ) <= adds(
                m.len() as int,
                |b: int| size(BILLION - step(m, sigma, nh, reach, target, b)) * agg[b].count,
            ) + roundings(m, sigma, nh, reach, target, block, a, n)
        }),
    decreases n,
{
    let na = m.len() as int;
    assert(nano::ten_to(0) == 1);
    let agg = rake::gathered::<Nano>(m, sigma, nh, reach, n).0;
    let gs = |b: int| step(m, sigma, nh, reach, target, b);
    let now = |b: int| size(BILLION - step(m, sigma, nh, reach, target, b)) * agg[b].count;
    if n > 0 {
        let i = n - 1;
        lemma_hands_near(m, sigma, nh, reach, target, block, a, i);
        let before = rake::gathered::<Nano>(m, sigma, nh, reach, i).0;
        let was = |b: int| size(BILLION - step(m, sigma, nh, reach, target, b)) * before[b].count;
        if !rake::left_out::<Nano>(m, sigma, nh, reach, i) {
            lemma_gathered_exact(m, sigma, nh, reach, target, n);
            lemma_play(m, sigma, nh, reach, target, i);
            let d = rake::scaled_mass::<Nano>(m, sigma, nh, i, na).count as int;
            let x = block[strategy::cell(nh, a, i)];
            let w = reach[i].count as int;
            assert(0 <= w);
            let al = |b: int| added(m, sigma, nh, reach, i, b).count as int;
            let play = rake_laws::scaled_play(m, sigma, nh, i);
            let pl = |b: int| play[b].count as int;
            assert forall|b: int| 0 <= b < na implies 0 <= #[trigger] gs(b) && 0 <= al(b) by {
                lemma_step_positive(m, sigma, nh, reach, target, b);
                lemma_added_near(m, sigma, nh, reach, target, i, b);
            }
            assert forall|b: int| 0 <= b < na implies size(#[trigger] al(b) * d - w * pl(b)) <= 3
                * BILLION + d by {
                lemma_added_near(m, sigma, nh, reach, target, i, b);
            }
            lemma_added_near(m, sigma, nh, reach, target, i, a);
            let rho = residue(m, sigma, nh, reach, target, i, a, x);
            lemma_adds_same(
                na,
                |b: int| gs(b) * pl(b),
                |b: int| step(m, sigma, nh, reach, target, b) * play[b].count,
            );
            lemma_hand(na, w, x.count as int, d, al, pl, gs, a, rho);
            let more = |b: int| size(BILLION - gs(b)) * al(b);
            assert forall|b: int| 0 <= b < na implies #[trigger] now(b) == 1 * was(b) + 1 * more(
                b,
            ) by {
                assert(agg[b].count == before[b].count + added(m, sigma, nh, reach, i, b).count);
                let (u, p, q) = (size(BILLION - gs(b)), before[b].count as int, al(b));
                assert(u * (p + q) == u * p + u * q) by (nonlinear_arith);
            }
            lemma_adds_linear(na, was, more, now, 1, 1);
            lemma_adds_same(
                na,
                |b: int| size(BILLION - gs(b)),
                |b: int| size(BILLION - step(m, sigma, nh, reach, target, b)),
            );
            let (g, p, q) = (gs(a), before[a].count as int, al(a));
            assert(agg[a].count == p + q);
            assert(g * (p + q) == g * p + g * q) by (nonlinear_arith);
            assert(rounding(m, sigma, nh, reach, target, i, a, x) == ((stride(
                m,
                sigma,
                nh,
                reach,
                target,
            ) + g) * (3 * BILLION + d) + w * size(rho) / (BILLION as int) + 1) / d + 1);
        }
    } else {
        let zero = |b: int| 0int;
        lemma_adds_linear(na, zero, zero, zero, 0, 0);
        assert forall|b: int| 0 <= b < na implies #[trigger] now(b) == zero(b) by {
            let u = size(BILLION - step(m, sigma, nh, reach, target, b));
            assert(agg[b].count == 0);
            assert(u * 0 == 0);
        }
        lemma_adds_same(na, now, zero);
        assert(gs(a) * 0 == 0);
    }
}

proof fn lemma_adds_same(n: int, x: spec_fn(int) -> int, y: spec_fn(int) -> int)
    requires
        forall|b: int| 0 <= b < n ==> #[trigger] x(b) == y(b),
    ensures
        adds(n, x) == adds(n, y),
{
    weigh_laws::lemma_weighed_same(strategy::level(n as nat, Nano { count: 1 }), n, x, y);
}

// ---------------------------------------------------------------------------
// The targets
// ---------------------------------------------------------------------------

/// What rounding adds to how far an action is from its target, in billionths.
pub open spec fn creep(
    m: Seq<Nano>,
    sigma: Seq<Nano>,
    nh: int,
    reach: Seq<Nano>,
    target: Seq<Nano>,
    b: int,
) -> int {
    (rake_laws::taken(m, sigma, nh, reach, b).count + step(m, sigma, nh, reach, target, b)
        + BILLION) / (BILLION as int) + 2
}

/// The arithmetic of one action: how far its step moves it, and where to.
proof fn lemma_step_lands(agg: int, sum: int, f: int, t: int, g: int, near: int)
    requires
        0 <= agg,
        0 <= sum,
        0 <= f,
        0 <= t,
        0 <= g,
        0 <= near,
        size(f - t) <= near,
        size(sum * f - agg * BILLION) <= sum,
        f > 1 ==> size(f * g - t * BILLION) <= f,
        f <= 1 ==> g == BILLION,
    ensures
        size(BILLION - g) * agg <= sum * (near + (f + g + BILLION) / (BILLION as int) + 2),
        size(g * agg - t * sum) <= sum * (near + (f + g + BILLION) / (BILLION as int) + 2),
{
    let b = BILLION as int;
    let c = f + g + b;
    vstd::arithmetic::div_mod::lemma_fundamental_div_mod(c, b);
    vstd::arithmetic::div_mod::lemma_mod_bound(c, b);
    vstd::arithmetic::div_mod::lemma_div_pos_is_pos(c, b);
    let q = c / b;
    let eta = agg * b - sum * f;
    let room = sum * (near + q + 2);
    assert(room == sum * near + sum * q + 2 * sum) by (nonlinear_arith)
        requires
            room == sum * (near + q + 2),
    ;
    assert(sum * c <= b * (sum * q) + b * sum) by (nonlinear_arith)
        requires
            c < b * q + b,
            0 <= sum,
    ;
    assert(0 <= sum * q && 0 <= sum * near) by (nonlinear_arith)
        requires
            0 <= sum,
            0 <= q,
            0 <= near,
    ;
    if f > 1 {
        let theta = f * g - t * b;
        // g agg - t sum, times b
        assert(b * (g * agg - t * sum) == sum * theta + g * eta) by {
            assert(b * (g * agg - t * sum) == g * (agg * b) - sum * (t * b)) by (nonlinear_arith);
            assert(g * (agg * b) == g * (sum * f) + g * eta) by (nonlinear_arith)
                requires
                    eta == agg * b - sum * f,
            ;
            assert(sum * (f * g - t * b) == g * (sum * f) - sum * (t * b)) by (nonlinear_arith);
        }
        assert(size(sum * theta) <= sum * f && size(g * eta) <= g * sum) by (nonlinear_arith)
            requires
                -f <= theta <= f,
                -sum <= eta <= sum,
                0 <= sum,
                0 <= g,
                size(sum * theta) == sum * theta || size(sum * theta) == -(sum * theta),
                size(g * eta) == g * eta || size(g * eta) == -(g * eta),
        ;
        let y = g * agg - t * sum;
        let by_y = b * y;
        assert(sum * f + g * sum + sum * b == sum * c) by (nonlinear_arith)
            requires
                c == f + g + b,
        ;
        assert(0 <= sum * b) by (nonlinear_arith)
            requires
                0 <= sum,
                0 < b,
        ;
        assert(size(y) <= sum * q + sum) by (nonlinear_arith)
            requires
                by_y == b * y,
                by_y <= b * (sum * q) + b * sum,
                -by_y <= b * (sum * q) + b * sum,
                size(y) == y || size(y) == -y,
                0 < b,
        ;
        // (b - g) agg == (b agg - f sum) + (f - t) sum - (g agg - t sum)
        let z = (b - g) * agg;
        assert(z == eta + (f - t) * sum - y) by (nonlinear_arith)
            requires
                z == (b - g) * agg,
                eta == agg * b - sum * f,
                y == g * agg - t * sum,
        ;
        assert(size((f - t) * sum) <= sum * near) by (nonlinear_arith)
            requires
                -near <= f - t <= near,
                0 <= sum,
                size((f - t) * sum) == (f - t) * sum || size((f - t) * sum) == -((f - t) * sum),
        ;
        assert(size(b - g) * agg == size(z)) by (nonlinear_arith)
            requires
                z == (b - g) * agg,
                0 <= agg,
                b - g < 0 ==> size(b - g) == -(b - g),
                b - g >= 0 ==> size(b - g) == b - g,
                z < 0 ==> size(z) == -z,
                z >= 0 ==> size(z) == z,
        ;
    } else {
        assert(size(b - g) * agg == 0) by (nonlinear_arith)
            requires
                size(b - g) == 0,
        ;
        let y = g * agg - t * sum;
        assert(y == eta + (f - t) * sum) by (nonlinear_arith)
            requires
                g == b,
                eta == agg * b - sum * f,
                y == g * agg - t * sum,
        ;
        assert(size((f - t) * sum) <= sum * near) by (nonlinear_arith)
            requires
                -near <= f - t <= near,
                0 <= sum,
                size((f - t) * sum) == (f - t) * sum || size((f - t) * sum) == -((f - t) * sum),
        ;
    }
}

/// Hands that do not count towards the aggregate move it no more than their
/// reach.
proof fn lemma_left_hands(
    m: Seq<Nano>,
    sigma: Seq<Nano>,
    nh: int,
    reach: Seq<Nano>,
    block: Seq<Nano>,
    a: int,
    t: int,
    n: int,
)
    requires
        play_laws::none_negative(reach),
        0 <= n <= nh == reach.len(),
        0 <= t <= BILLION,
        forall|i: int|
            0 <= i < nh ==> 0 <= (#[trigger] block[strategy::cell(nh, a, i)]).count <= BILLION,
    ensures
        ({
            let all = weigh_laws::weighed(
                reach,
                n,
                |i: int| block[strategy::cell(nh, a, i)].count as int,
            );
            let left = play_laws::reach_counted(reach, n) - counting(m, sigma, nh, reach, n);
            size(
                all - t * play_laws::reach_counted(reach, n) - (counted_taking(
                    m,
                    sigma,
                    nh,
                    reach,
                    block,
                    a,
                    n,
                ) - t * counting(m, sigma, nh, reach, n)),
            ) <= BILLION * left
        }),
    decreases n,
{
    if n > 0 {
        lemma_left_hands(m, sigma, nh, reach, block, a, t, n - 1);
        assert(reach.take(n).drop_last() =~= reach.take(n - 1));
        let i = n - 1;
        let (w, x) = (reach[i].count as int, block[strategy::cell(nh, a, i)].count as int);
        assert(w >= 0);
        assert(0 <= x <= BILLION);
        let c = play_laws::reach_counted(reach, i);
        let k = counting(m, sigma, nh, reach, i);
        assert(t * (c + w) == t * c + t * w && t * (k + w) == t * k + t * w && t * (k + 0) == t
            * k) by (nonlinear_arith);
        if rake::left_out::<Nano>(m, sigma, nh, reach, i) {
            assert(size(w * x - t * w) <= BILLION * w) by (nonlinear_arith)
                requires
                    0 <= w,
                    0 <= x <= BILLION,
                    0 <= t <= BILLION,
                    size(w * x - t * w) == w * x - t * w || size(w * x - t * w) == t * w - w * x,
            ;
        }
    } else {
        assert(reach.take(0) =~= Seq::<Nano>::empty());
        assert(t * 0 == 0);
    }
}

/// How far raking may end from a target, in billionths of the reach that
/// counts: a ten-thousandth for each action and one more, and rounding.
pub open spec fn tolerance(
    m: Seq<Nano>,
    sigma: Seq<Nano>,
    nh: int,
    reach: Seq<Nano>,
    target: Seq<Nano>,
    a: int,
) -> int {
    adds(m.len() as int, |b: int| 100_000 + creep(m, sigma, nh, reach, target, b)) + 100_000
        + creep(m, sigma, nh, reach, target, a)
}

/// The step's own facts about one action.
proof fn lemma_action_lands(
    m: Seq<Nano>,
    sigma: Seq<Nano>,
    nh: int,
    reach: Seq<Nano>,
    target: Seq<Nano>,
    a: int,
)
    requires
        poised(m, sigma, nh, reach, target),
        0 <= a < m.len(),
        !rake::negligible(rake::gathered::<Nano>(m, sigma, nh, reach, nh).1),
        rake::wanted(target[a]) ==> -100_000 < rake_laws::taken(m, sigma, nh, reach, a).count
            - target[a].count < 100_000,
        !rake::wanted(target[a]) ==> m[a].count == 0,
    ensures
        ({
            let (agg, sum) = rake::gathered::<Nano>(m, sigma, nh, reach, nh);
            let g = step(m, sigma, nh, reach, target, a);
            let c = 100_000 + creep(m, sigma, nh, reach, target, a);
            &&& size(BILLION - g) * agg[a].count <= sum.count * c
            &&& rake::wanted(target[a]) ==> size(g * agg[a].count - target[a].count * sum.count)
                <= sum.count * c
        }),
{
    let b = BILLION as int;
    let (agg, sum) = rake::gathered::<Nano>(m, sigma, nh, reach, nh);
    lemma_gathered_exact(m, sigma, nh, reach, target, nh);
    lemma_step_positive(m, sigma, nh, reach, target, a);
    assert(nano::ten_to(12) == 1_000_000_000_000) by {
        reveal_with_fuel(nano::ten_to, 13);
    }
    assert(Nano::decimal_spec(1, 12).count == 0);
    let (x, y) = (agg[a].count as int, sum.count as int);
    assert(0 <= x <= 2 * y && 1 <= y);
    let q = nano::cut_div(x * b, y);
    weigh_laws::lemma_cut_near(x * b, y);
    assert(0 <= x * b <= 2 * y * b) by (nonlinear_arith)
        requires
            0 <= x <= 2 * y,
            0 < b,
    ;
    vstd::arithmetic::div_mod::lemma_div_pos_is_pos(x * b, y);
    assert(q <= 2 * b) by (nonlinear_arith)
        requires
            y * q <= 2 * y * b,
            1 <= y,
    ;
    let f = rake_laws::taken(m, sigma, nh, reach, a);
    assert(f.count == q);
    let g = step(m, sigma, nh, reach, target, a);
    let t = target[a].count as int;
    assert(t >= 0);
    play_laws::lemma_counted_bound(target);
    if rake::wanted(target[a]) {
        if q > 1 {
            let r = nano::cut_div(t * b, q);
            weigh_laws::lemma_cut_near(t * b, q);
            assert(0 <= t * b <= b * b) by (nonlinear_arith)
                requires
                    0 <= t <= b,
                    0 < b,
            ;
            let sr = size(r);
            assert(sr <= b * b) by (nonlinear_arith)
                requires
                    q * sr <= b * b,
                    1 <= q,
                    0 <= sr,
            ;
            assert(g == r);
        }
        lemma_step_lands(x, y, q, t, g, 100_000);
    } else {
        assert(g == b);
        assert(size(b - g) * x == 0) by (nonlinear_arith)
            requires
                size(b - g) == 0,
        ;
        let c = q + g + b;
        vstd::arithmetic::div_mod::lemma_div_pos_is_pos(c, b);
        assert(0 <= y * (100_000 + creep(m, sigma, nh, reach, target, a))) by (nonlinear_arith)
            requires
                0 <= y,
                0 <= creep(m, sigma, nh, reach, target, a),
        ;
    }
}

/// Multipliers that are settled at lie where raking's laws speak of.
proof fn lemma_settled_poised(
    m: Seq<Nano>,
    sigma: Seq<Nano>,
    nh: int,
    reach: Seq<Nano>,
    target: Seq<Nano>,
    rounds: nat,
)
    requires
        poised(m, sigma, nh, reach, target),
        forall|a: int| 0 <= a < m.len() && !rake::wanted(#[trigger] target[a]) ==> m[a].count == 0,
    ensures
        rake_laws::settled_at(m, sigma, nh, reach, target, rounds) matches Some(last) ==> {
            &&& poised(last, sigma, nh, reach, target)
            &&& last.len() == m.len()
            &&& !rake::negligible(rake::gathered::<Nano>(last, sigma, nh, reach, nh).1)
            &&& forall|a: int|
                0 <= a < m.len() && !rake::wanted(#[trigger] target[a]) ==> last[a].count == 0
        },
    decreases rounds,
{
    let (agg, sum) = rake::gathered::<Nano>(m, sigma, nh, reach, nh);
    if rounds > 0 && !rake::negligible(sum) {
        assert forall|x: int| 0 <= x < m.len() implies (#[trigger] m[x]).count >= 0 by {}
        rake_laws::lemma_gathered(m, sigma, nh, reach, nh);
        rake_laws::lemma_steered(m, agg, sum, target, m.len() as int);
        let (next, err) = rake::steered::<Nano>(m, agg, sum, target, m.len() as int);
        rake_laws::lemma_rescaled(next);
        if !err.below_spec(Nano::decimal_spec(1, 4)) {
            let scaled = rake::rescaled(next);
            assert forall|a: int| 0 <= a < m.len() && !rake::wanted(
                #[trigger] target[a],
            ) implies scaled[a].count == 0 by {
                rake::lemma_steered_keeps(m, agg, sum, target, m.len() as int, a);
                rake::lemma_zero_times(
                    Nano::decimal_spec(next.len() as i64, 0).over_spec(num::total_of(next)),
                );
                assert(next[a] == rake::zero_nano());
            }
            lemma_settled_poised(scaled, sigma, nh, reach, target, (rounds - 1) as nat);
        }
    }
}

/// Law: where raking stops before its rounds run out, the raked strategy comes
/// near its targets. Its aggregate of every wanted action, weighed by reach, is
/// within a ten-thousandth for each action and one more of the target, so
/// within two hundredths at a decision with fewer than two hundred actions, up
/// to rounding, and to the reach of hands that played no wanted action.
pub proof fn law_raked_ranges_come_near(
    sigma: Seq<Nano>,
    na: int,
    nh: int,
    reach: Seq<Nano>,
    target: Seq<Nano>,
    a: int,
)
    requires
        1 <= na <= rake_laws::MOST_ACTIONS,
        0 < nh <= NUM_COMBOS,
        target.len() == na,
        sigma.len() == na * nh,
        reach.len() == nh,
        rake_laws::bounded(sigma, BILLION as int),
        rake_laws::bounded(reach, BILLION as int),
        play_laws::share_one(target),
        0 <= a < na,
        rake::wanted(target[a]),
    ensures
        ({
            let base = rake::prepared::<Nano>(sigma, na, nh, target);
            let first = rake::first_multipliers::<Nano>(target);
            let block = rake::raked::<Nano>(sigma, na, nh, reach, target);
            rake_laws::settled_at(first, base, nh, reach, target, 400) matches Some(m) ==> {
                let all = play_laws::counted(reach);
                let sum = counting(m, base, nh, reach, nh);
                size(
                    weigh_laws::weighed(
                        reach,
                        nh,
                        |i: int| block[strategy::cell(nh, a, i)].count as int,
                    ) - target[a].count * all,
                ) <= sum * tolerance(m, base, nh, reach, target, a) + roundings(
                    m,
                    base,
                    nh,
                    reach,
                    target,
                    block,
                    a,
                    nh,
                ) + BILLION * (all - sum)
            }
        }),
{
    let base = rake::prepared::<Nano>(sigma, na, nh, target);
    let first = rake::first_multipliers::<Nano>(target);
    let block = rake::raked::<Nano>(sigma, na, nh, reach, target);
    rake_laws::lemma_start(sigma, na, nh, target);
    assert(nano::ten_to(0) == 1);
    assert(poised(first, base, nh, reach, target));
    lemma_settled_poised(first, base, nh, reach, target, 400);
    match rake_laws::settled_at(first, base, nh, reach, target, 400) {
        None => {},
        Some(m) => {
            let (agg, total) = rake::gathered::<Nano>(m, base, nh, reach, nh);
            assert forall|b: int| 0 <= b < na && rake::wanted(#[trigger] target[b]) implies -100_000
                < rake_laws::taken(m, base, nh, reach, b).count - target[b].count < 100_000 by {
                rake_laws::lemma_settled(first, base, nh, reach, target, 400, b);
            }
            assert forall|i: int| 0 <= i < nh implies 0 <= (#[trigger] block[strategy::cell(
                nh,
                a,
                i,
            )]).count <= BILLION by {
                rake_laws::law_raked_strategies_share_one(sigma, na, nh, reach, target, i);
                let q = strategy::column(block, na, nh, i);
                play_laws::lemma_counted_bound(q);
                assert(q[a] == block[strategy::cell(nh, a, i)]);
            }
            lemma_gathered_exact(m, base, nh, reach, target, nh);
            let sum = total.count as int;
            lemma_hands_near(m, base, nh, reach, target, block, a, nh);
            let far = |b: int| size(BILLION - step(m, base, nh, reach, target, b)) * agg[b].count;
            let room = |b: int| 100_000 + creep(m, base, nh, reach, target, b);
            let zero = |b: int| 0int;
            let most = |b: int| sum * room(b) + 0 * room(b);
            assert forall|b: int| 0 <= b < na implies size(#[trigger] far(b) - zero(b)) <= most(
                b,
            ) by {
                lemma_action_lands(m, base, nh, reach, target, b);
                let (u, v) = (
                    size(BILLION - step(m, base, nh, reach, target, b)),
                    agg[b].count as int,
                );
                assert(0 <= u * v) by (nonlinear_arith)
                    requires
                        0 <= u,
                        0 <= v,
                ;
                assert(0 * room(b) == 0);
            }
            lemma_adds_within(na, far, zero, most);
            lemma_adds_linear(na, room, room, most, sum, 0);
            lemma_adds_linear(na, zero, zero, zero, 0, 0);
            lemma_action_lands(m, base, nh, reach, target, a);
            let t = target[a].count as int;
            play_laws::lemma_counted_bound(target);
            assert(play_laws::none_negative(reach)) by {
                assert forall|i: int| 0 <= i < reach.len() implies (#[trigger] reach[i]).count
                    >= 0 by {}
            }
            lemma_left_hands(m, base, nh, reach, block, a, t, nh);
            assert(reach.take(nh) =~= reach);
            let (r, c) = (adds(na, room), room(a));
            assert(sum * (r + c) == sum * r + sum * c) by (nonlinear_arith);
            assert(tolerance(m, base, nh, reach, target, a) == r + c);
        },
    }
}

// ---------------------------------------------------------------------------
// What the last step leaves over
// ---------------------------------------------------------------------------

/// What the multipliers are scaled by after a step, in billionths.
pub open spec fn scale_of(next: Seq<Nano>) -> int {
    if num::total_of(next).count > 0 {
        Nano::decimal_spec(next.len() as i64, 0).over_spec(num::total_of(next)).count as int
    } else {
        BILLION as int
    }
}

/// What cutting off can leave of one action, of a step `g` that is then scaled
/// by `c`.
pub open spec fn leavings(g: int, c: int) -> int {
    2 * (BILLION * BILLION) + BILLION * c + g * c
}

/// The multipliers after a step, not yet scaled.
pub open spec fn unscaled(
    m: Seq<Nano>,
    sigma: Seq<Nano>,
    nh: int,
    reach: Seq<Nano>,
    target: Seq<Nano>,
) -> Seq<Nano> {
    let (agg, sum) = rake::gathered::<Nano>(m, sigma, nh, reach, nh);
    rake::steered::<Nano>(m, agg, sum, target, m.len() as int).0
}

proof fn lemma_steered_at(
    m: Seq<Nano>,
    agg: Seq<Nano>,
    sum: Nano,
    target: Seq<Nano>,
    k: int,
    b: int,
)
    requires
        0 <= b < m.len(),
        0 <= k <= m.len(),
    ensures
        rake::steered::<Nano>(m, agg, sum, target, k).0.len() == m.len(),
        rake::steered::<Nano>(m, agg, sum, target, k).0[b] == if b < k && rake::wanted(target[b])
            && Nano::decimal_spec(1, 9).below_spec(agg[b].over_spec(sum)) {
            m[b].times_spec(target[b].over_spec(agg[b].over_spec(sum)))
        } else {
            m[b]
        },
    decreases k,
{
    if k > 0 {
        lemma_steered_at(m, agg, sum, target, k - 1, b);
        lemma_steered_at(m, agg, sum, target, k - 1, k - 1);
    }
}

/// The arithmetic of one action of one hand: from its multiplier `m` to the
/// stepped `n` and the scaled `k`, and from the play `p` to the play `q`.
proof fn lemma_leavings(m: int, s: int, g: int, c: int, n: int, k: int, p: int, q: int)
    requires
        0 <= s <= BILLION,
        0 <= g,
        0 <= c,
        size(BILLION * n - m * g) <= BILLION,
        size(BILLION * k - n * c) <= BILLION,
        size(BILLION * q - k * s) <= BILLION,
        size(BILLION * p - m * s) <= BILLION,
    ensures
        size(BILLION * BILLION * q - c * (g * p)) <= leavings(g, c),
{
    let b = BILLION as int;
    let (e1, e2, e3, e4) = (b * n - m * g, b * k - n * c, b * q - k * s, b * p - m * s);
    // b b b q, one replacement after the other
    let (t0, t1, t2, t3, t4) = (
        b * b * (b * q),
        b * b * (k * s),
        b * (n * c * s),
        c * s * (m * g),
        c * (g * (b * p)),
    );
    assert(t0 - t1 == b * b * e3) by (nonlinear_arith)
        requires
            t0 == b * b * (b * q),
            t1 == b * b * (k * s),
            e3 == b * q - k * s,
    ;
    assert(t1 - t2 == b * s * e2) by (nonlinear_arith)
        requires
            t1 == b * b * (k * s),
            t2 == b * (n * c * s),
            e2 == b * k - n * c,
    ;
    assert(t2 - t3 == c * s * e1) by (nonlinear_arith)
        requires
            t2 == b * (n * c * s),
            t3 == c * s * (m * g),
            e1 == b * n - m * g,
    ;
    assert(t4 - t3 == c * g * e4) by (nonlinear_arith)
        requires
            t3 == c * s * (m * g),
            t4 == c * (g * (b * p)),
            e4 == b * p - m * s,
    ;
    assert(size(b * b * e3) <= b * b * b) by (nonlinear_arith)
        requires
            -b <= e3 <= b,
            0 < b,
            size(b * b * e3) == b * b * e3 || size(b * b * e3) == -(b * b * e3),
    ;
    assert(size(b * s * e2) <= b * b * b) by (nonlinear_arith)
        requires
            -b <= e2 <= b,
            0 <= s <= b,
            0 < b,
            size(b * s * e2) == b * s * e2 || size(b * s * e2) == -(b * s * e2),
    ;
    assert(size(c * s * e1) <= b * b * c) by (nonlinear_arith)
        requires
            -b <= e1 <= b,
            0 <= s <= b,
            0 <= c,
            0 < b,
            size(c * s * e1) == c * s * e1 || size(c * s * e1) == -(c * s * e1),
    ;
    assert(size(c * g * e4) <= b * (g * c)) by (nonlinear_arith)
        requires
            -b <= e4 <= b,
            0 <= g,
            0 <= c,
            0 < b,
            size(c * g * e4) == c * g * e4 || size(c * g * e4) == -(c * g * e4),
    ;
    let y = b * b * q - c * (g * p);
    assert(b * y == t0 - t4) by (nonlinear_arith)
        requires
            y == b * b * q - c * (g * p),
            t0 == b * b * (b * q),
            t4 == c * (g * (b * p)),
    ;
    assert(size(y) <= 2 * (b * b) + b * c + g * c) by (nonlinear_arith)
        requires
            b * y <= b * b * b + b * b * b + b * b * c + b * (g * c),
            -(b * y) <= b * b * b + b * b * b + b * b * c + b * (g * c),
            size(y) == y || size(y) == -y,
            0 < b,
    ;
}

/// What is left over of a share, on plain numbers: `qs` are the plays after
/// the step, `gp` the steps times the plays before it.
proof fn lemma_share_left(
    n: int,
    c: int,
    x: int,
    d: int,
    qs: spec_fn(int) -> int,
    gp: spec_fn(int) -> int,
    hs: spec_fn(int) -> int,
    a: int,
)
    requires
        0 <= a < n,
        0 <= c,
        0 <= x <= BILLION,
        0 <= d,
        adds(n, qs) == d,
        size(x * d - qs(a) * BILLION) <= d,
        forall|b: int|
            0 <= b < n ==> size(BILLION * BILLION * #[trigger] qs(b) - c * gp(b)) <= hs(b),
    ensures
        c * size(BILLION * gp(a) - x * adds(n, gp)) <= BILLION * (adds(n, hs) + hs(a)) + BILLION
            * BILLION * d,
{
    let b = BILLION as int;
    let u = |i: int| b * b * qs(i) + 0 * qs(i);
    let v = |i: int| c * gp(i) + 0 * gp(i);
    lemma_adds_linear(n, qs, qs, u, b * b, 0);
    lemma_adds_linear(n, gp, gp, v, c, 0);
    assert forall|i: int| 0 <= i < n implies size(#[trigger] u(i) - v(i)) <= hs(i) by {
        assert(size(BILLION * BILLION * qs(i) - c * gp(i)) <= hs(i));
        assert(0 * qs(i) == 0 && 0 * gp(i) == 0);
    }
    lemma_adds_within(n, u, v, hs);
    let (e, h) = (adds(n, gp), adds(n, hs));
    let (q, p, k) = (qs(a), gp(a), hs(a));
    let (s1, s2, s3) = (b * b * d - c * e, b * b * q - c * p, x * d - q * b);
    assert(size(s1) <= h && size(s2) <= k && size(s3) <= d);
    // c (b p - x e) == x s1 - b s2 - b b s3
    let y = b * p - x * e;
    assert(x * s1 == b * b * (x * d) - c * (x * e)) by (nonlinear_arith)
        requires
            s1 == b * b * d - c * e,
    ;
    assert(b * s2 == b * b * (q * b) - c * (b * p)) by (nonlinear_arith)
        requires
            s2 == b * b * q - c * p,
    ;
    assert(b * b * s3 == b * b * (x * d) - b * b * (q * b)) by (nonlinear_arith)
        requires
            s3 == x * d - q * b,
    ;
    assert(c * y == c * (b * p) - c * (x * e)) by (nonlinear_arith)
        requires
            y == b * p - x * e,
    ;
    assert(size(x * s1) <= b * h && size(b * s2) <= b * k && size(b * b * s3) <= b * b * d)
        by (nonlinear_arith)
        requires
            0 <= x <= b,
            -h <= s1 <= h,
            -k <= s2 <= k,
            -d <= s3 <= d,
            0 < b,
            size(x * s1) == x * s1 || size(x * s1) == -(x * s1),
            size(b * s2) == b * s2 || size(b * s2) == -(b * s2),
            size(b * b * s3) == b * b * s3 || size(b * b * s3) == -(b * b * s3),
    ;
    assert(c * size(y) == size(c * y)) by (nonlinear_arith)
        requires
            0 <= c,
            y < 0 ==> size(y) == -y,
            y >= 0 ==> size(y) == y,
            c * y < 0 ==> size(c * y) == -(c * y),
            c * y >= 0 ==> size(c * y) == c * y,
    ;
    assert(b * (h + k) == b * h + b * k) by (nonlinear_arith);
}

/// One action's multiplier, stepped and scaled.
proof fn lemma_multiplier(
    m: Seq<Nano>,
    sigma: Seq<Nano>,
    nh: int,
    reach: Seq<Nano>,
    target: Seq<Nano>,
    b: int,
)
    requires
        poised(m, sigma, nh, reach, target),
        !rake::negligible(rake::gathered::<Nano>(m, sigma, nh, reach, nh).1),
        0 <= b < m.len(),
        rake::wanted(target[b]) ==> -100_000 < rake_laws::taken(m, sigma, nh, reach, b).count
            - target[b].count < 100_000,
    ensures
        ({
            let next = unscaled(m, sigma, nh, reach, target);
            let last = rake::rescaled(next);
            let g = step(m, sigma, nh, reach, target, b);
            let c = scale_of(next);
            &&& next.len() == m.len() == last.len()
            &&& 0 <= c
            &&& 0 <= g
            &&& 0 <= last[b].count <= m.len() * BILLION
            &&& size(BILLION * next[b].count - m[b].count * g) <= BILLION
            &&& size(BILLION * last[b].count - next[b].count * c) <= BILLION
        }),
{
    let bb = BILLION as int;
    let na = m.len() as int;
    let (agg, sum) = rake::gathered::<Nano>(m, sigma, nh, reach, nh);
    let next = unscaled(m, sigma, nh, reach, target);
    let last = rake::rescaled(next);
    let g = step(m, sigma, nh, reach, target, b);
    lemma_step_positive(m, sigma, nh, reach, target, b);
    assert forall|x: int| 0 <= x < m.len() implies (#[trigger] m[x]).count >= 0 by {}
    rake_laws::lemma_gathered(m, sigma, nh, reach, nh);
    rake_laws::lemma_steered(m, agg, sum, target, na);
    rake_laws::lemma_rescaled(next);
    lemma_steered_at(m, agg, sum, target, na, b);
    assert(nano::ten_to(0) == 1);
    assert(nano::ten_to(9) == 1_000_000_000) by {
        reveal_with_fuel(nano::ten_to, 10);
    }
    assert(nano::ten_to(12) == 1_000_000_000_000) by {
        reveal_with_fuel(nano::ten_to, 13);
    }
    assert(Nano::decimal_spec(1, 9).count == 1);
    assert(Nano::decimal_spec(1, 12).count == 0);
    let f = rake_laws::taken(m, sigma, nh, reach, b);
    let (x, t, q) = (m[b].count as int, target[b].count as int, f.count as int);
    assert(0 <= x <= na * bb);
    assert(na * bb <= 255 * bb) by (nonlinear_arith)
        requires
            na <= 255,
            0 < bb,
    ;
    if rake::wanted(target[b]) && q > 1 {
        let over = target[b].over_spec(f);
        let r = nano::cut_div(t * bb, q);
        weigh_laws::lemma_cut_near(t * bb, q);
        assert(0 <= t * bb) by (nonlinear_arith)
            requires
                0 <= t,
                0 < bb,
        ;
        vstd::arithmetic::div_mod::lemma_div_pos_is_pos(t * bb, q);
        assert(r <= 50_001 * bb) by (nonlinear_arith)
            requires
                q * r <= t * bb,
                t < q + 100_000,
                2 <= q,
                0 < bb,
                0 <= r,
        ;
        assert(over.count == r && g == r);
        let y = x * r;
        assert(0 <= y <= 0x7fff_ffff_ffff_ffff * bb) by (nonlinear_arith)
            requires
                y == x * r,
                0 <= x <= 255 * bb,
                0 <= r <= 50_001 * bb,
                bb == 1_000_000_000,
        ;
        weigh_laws::lemma_times_near(m[b], over, i64::MAX as int);
        weigh_laws::lemma_cut_near(y, bb);
        assert(next[b].count == nano::cut_div(y, bb));
    } else {
        assert(next[b] == m[b]);
        assert(bb * x - x * bb == 0) by (nonlinear_arith);
    }
    let c = scale_of(next);
    let total = num::total_of(next);
    if total.count > 0 {
        let scale = Nano::decimal_spec(next.len() as i64, 0).over_spec(total);
        assert(Nano::decimal_spec(next.len() as i64, 0).count == na * bb);
        rake_laws::lemma_over(Nano::decimal_spec(next.len() as i64, 0), total);
        assert(last[b] == next[b].times_spec(scale));
        let z = next[b].count * scale.count;
        let w = nano::cut_div(z, bb);
        weigh_laws::lemma_cut_near(z, bb);
        assert(0 <= z) by (nonlinear_arith)
            requires
                z == next[b].count * scale.count,
                0 <= next[b].count,
                0 <= scale.count,
        ;
        assert(0 <= last[b].count <= na * bb);
        assert(last[b].count == w);
    } else {
        assert(last[b] == next[b]);
        let n = next[b].count as int;
        assert(bb * n - n * bb == 0) by (nonlinear_arith);
    }
}

/// Law: the share that the raked strategy gives a hand is that of its play
/// scaled by the last step, up to what cutting off leaves.
pub proof fn law_last_step_leaves_little(
    m: Seq<Nano>,
    sigma: Seq<Nano>,
    nh: int,
    reach: Seq<Nano>,
    target: Seq<Nano>,
    i: int,
    a: int,
)
    requires
        poised(m, sigma, nh, reach, target),
        !rake::negligible(rake::gathered::<Nano>(m, sigma, nh, reach, nh).1),
        forall|b: int|
            0 <= b < m.len() && rake::wanted(#[trigger] target[b]) ==> -100_000 < rake_laws::taken(
                m,
                sigma,
                nh,
                reach,
                b,
            ).count - target[b].count < 100_000,
        0 <= i < nh,
        0 <= a < m.len(),
    ensures
        ({
            let next = unscaled(m, sigma, nh, reach, target);
            let last = rake_laws::one_step(m, sigma, nh, reach, target);
            let x = rake::applied::<Nano>(last, sigma, nh, target)[strategy::cell(nh, a, i)];
            let d = rake::scaled_mass::<Nano>(last, sigma, nh, i, m.len() as int).count;
            let c = scale_of(next);
            c * size(residue(m, sigma, nh, reach, target, i, a, x)) <= BILLION * (adds(
                m.len() as int,
                |b: int| leavings(step(m, sigma, nh, reach, target, b), c),
            ) + leavings(step(m, sigma, nh, reach, target, a), c)) + BILLION * BILLION * d
        }),
{
    let na = m.len() as int;
    let bb = BILLION as int;
    let next = unscaled(m, sigma, nh, reach, target);
    let last = rake_laws::one_step(m, sigma, nh, reach, target);
    assert(last == rake::rescaled(next));
    let c = scale_of(next);
    lemma_multiplier(m, sigma, nh, reach, target, a);
    assert forall|b: int| 0 <= b < na implies 0 <= (#[trigger] last[b]).count <= na * bb by {
        lemma_multiplier(m, sigma, nh, reach, target, b);
    }
    assert(poised(last, sigma, nh, reach, target));
    lemma_play(last, sigma, nh, reach, target, i);
    lemma_play(m, sigma, nh, reach, target, i);
    let after = rake_laws::scaled_play(last, sigma, nh, i);
    let play = rake_laws::scaled_play(m, sigma, nh, i);
    let d = rake::scaled_mass::<Nano>(last, sigma, nh, i, na);
    strategy::lemma_cell(na, nh, a, i);
    let x = rake::applied::<Nano>(last, sigma, nh, target)[strategy::cell(nh, a, i)];
    let qs = |b: int| after[b].count as int;
    let gp = |b: int| step(m, sigma, nh, reach, target, b) * play[b].count;
    let hs = |b: int| leavings(step(m, sigma, nh, reach, target, b), c);
    assert(nano::ten_to(12) == 1_000_000_000_000) by {
        reveal_with_fuel(nano::ten_to, 13);
    }
    assert(Nano::decimal_spec(1, 12).count == 0);
    play_laws::lemma_counted_bound(target);
    play_laws::lemma_counted_bound(after);
    assert(0 <= x.count <= bb && size(x.count * d.count - qs(a) * bb) <= d.count) by {
        let (q, k) = (after[a].count as int, d.count as int);
        assert(0 <= q <= k);
        if k > 0 {
            let r = nano::cut_div(q * bb, k);
            weigh_laws::lemma_cut_near(q * bb, k);
            assert(0 <= q * bb) by (nonlinear_arith)
                requires
                    0 <= q,
                    0 < bb,
            ;
            vstd::arithmetic::div_mod::lemma_div_pos_is_pos(q * bb, k);
            assert(r <= bb) by (nonlinear_arith)
                requires
                    k * r <= q * bb,
                    q <= k,
                    1 <= k,
                    0 < bb,
            ;
            assert(x.count == r);
            assert(k * r == r * k) by (nonlinear_arith);
        } else {
            assert(x == target[a]);
            assert(target[a].count >= 0);
            assert(x.count * 0 == 0 && 0 * bb == 0);
        }
    }
    assert forall|b: int| 0 <= b < na implies size(BILLION * BILLION * #[trigger] qs(b) - c * gp(b))
        <= hs(b) by {
        lemma_multiplier(m, sigma, nh, reach, target, b);
        strategy::lemma_cell(na, nh, b, i);
        let s = sigma[strategy::cell(nh, b, i)];
        assert(0 <= s.count <= bb);
        assert(0 <= m[b].count <= na * bb);
        lemma_play_near(m[b], s, na);
        lemma_play_near(last[b], s, na);
        lemma_leavings(
            m[b].count as int,
            s.count as int,
            step(m, sigma, nh, reach, target, b),
            c,
            next[b].count as int,
            last[b].count as int,
            play[b].count as int,
            after[b].count as int,
        );
    }
    lemma_adds_same(na, |b: int| after[b].count as int, qs);
    lemma_share_left(na, c, x.count as int, d.count as int, qs, gp, hs, a);
}

/// A multiplier times a share, cut off.
proof fn lemma_play_near(m: Nano, s: Nano, na: int)
    requires
        1 <= na <= 255,
        0 <= m.count <= na * BILLION,
        0 <= s.count <= BILLION,
    ensures
        size(BILLION * m.times_spec(s).count - m.count * s.count) <= BILLION,
{
    let (x, y) = (m.count as int, s.count as int);
    assert(0 <= x * y <= x * BILLION) by (nonlinear_arith)
        requires
            0 <= x,
            0 <= y <= BILLION,
    ;
    weigh_laws::lemma_times_near(m, s, x);
    weigh_laws::lemma_cut_near(x * y, BILLION as int);
}

} // verus!
