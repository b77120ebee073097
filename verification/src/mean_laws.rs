//! Averages that are shown, in exact numbers: each is the mean of what its hands
//! show, weighed as it should be, up to rounding.

use crate::batch;
use crate::classes;
use crate::exploit;
use crate::exploit::ExploitHandView;
use crate::inspect::HandView;
use crate::nano;
use crate::nano::{Nano, BILLION};
use crate::num;
use crate::num::Num;
use crate::preflop_play;
use crate::preflop_solver::PreflopSolver;
use crate::realization;
use crate::realization::RealizationObs;
use crate::report;
use crate::runouts;
use crate::weigh_laws;
use crate::weigh_laws::size;
use vstd::prelude::*;

verus! {

// ---------------------------------------------------------------------------
// Means
// ---------------------------------------------------------------------------

/// Weighed values and weights of the first `n` items that count, added up and
/// cut off as they are.
spec fn tally(
    n: int,
    counts: spec_fn(int) -> bool,
    w: spec_fn(int) -> Nano,
    v: spec_fn(int) -> Nano,
) -> (Nano, Nano)
    decreases n,
{
    if n <= 0 {
        (Nano { count: 0 }, Nano { count: 0 })
    } else {
        let (x, d) = tally(n - 1, counts, w, v);
        if counts(n - 1) {
            (x.plus_spec(w(n - 1).times_spec(v(n - 1))), d.plus_spec(w(n - 1)))
        } else {
            (x, d)
        }
    }
}

/// The weights of the first `n` items that count.
pub open spec fn weights(n: int, counts: spec_fn(int) -> bool, w: spec_fn(int) -> int) -> int
    decreases n,
{
    if n <= 0 {
        0
    } else {
        weights(n - 1, counts, w) + if counts(n - 1) {
            w(n - 1)
        } else {
            0
        }
    }
}

/// The values of the first `n` items that count, weighed.
pub open spec fn weighed(
    n: int,
    counts: spec_fn(int) -> bool,
    w: spec_fn(int) -> int,
    v: spec_fn(int) -> int,
) -> int
    decreases n,
{
    if n <= 0 {
        0
    } else {
        weighed(n - 1, counts, w, v) + if counts(n - 1) {
            w(n - 1) * v(n - 1)
        } else {
            0
        }
    }
}

/// Whether `mean` is the mean of values by weights, up to rounding.
pub open spec fn is_mean(
    mean: int,
    n: int,
    counts: spec_fn(int) -> bool,
    w: spec_fn(int) -> int,
    v: spec_fn(int) -> int,
) -> bool {
    size(mean * weights(n, counts, w) - weighed(n, counts, w, v)) <= weights(n, counts, w) + n
        * BILLION
}

/// Whether weights are not negative, no value is more than `most` in magnitude,
/// and what is added up stays in range.
pub open spec fn tame(
    n: int,
    counts: spec_fn(int) -> bool,
    w: spec_fn(int) -> int,
    v: spec_fn(int) -> int,
    most: int,
) -> bool {
    &&& 0 <= n
    &&& 0 <= most <= i64::MAX
    &&& forall|i: int| 0 <= i < n && #[trigger] counts(i) ==> 0 <= w(i) && size(v(i)) <= most
    &&& weights(n, counts, w) <= i64::MAX
    &&& weights(n, counts, w) * most <= i64::MAX * BILLION
}

proof fn lemma_weights_grow(n: int, m: int, counts: spec_fn(int) -> bool, w: spec_fn(int) -> int)
    requires
        0 <= n <= m,
        forall|i: int| 0 <= i < m && #[trigger] counts(i) ==> 0 <= w(i),
    ensures
        0 <= weights(n, counts, w) <= weights(m, counts, w),
    decreases m,
{
    if n < m {
        lemma_weights_grow(n, m - 1, counts, w);
        if counts(m - 1) {
            assert(0 <= w(m - 1));
        }
    } else if n > 0 {
        lemma_weights_grow(n - 1, n - 1, counts, w);
        if counts(n - 1) {
            assert(0 <= w(n - 1));
        }
    }
}

proof fn lemma_tally(
    k: int,
    n: int,
    counts: spec_fn(int) -> bool,
    w: spec_fn(int) -> Nano,
    v: spec_fn(int) -> Nano,
    most: int,
)
    requires
        0 <= k <= n,
        tame(n, counts, |i: int| w(i).count as int, |i: int| v(i).count as int, most),
    ensures
        ({
            let (x, d) = tally(k, counts, w, v);
            let wi = |i: int| w(i).count as int;
            let vi = |i: int| v(i).count as int;
            &&& d.count == weights(k, counts, wi)
            &&& BILLION * size(x.count as int) <= d.count * most
            &&& size(BILLION * x.count - weighed(k, counts, wi, vi)) <= k * BILLION
        }),
    decreases k,
{
    let b = BILLION as int;
    let wi = |i: int| w(i).count as int;
    let vi = |i: int| v(i).count as int;
    if k > 0 {
        lemma_tally(k - 1, n, counts, w, v, most);
        let i = k - 1;
        lemma_weights_grow(k, n, counts, wi);
        lemma_weights_grow(k - 1, n, counts, wi);
        if counts(i) {
            let (x0, d0) = tally(i, counts, w, v);
            let (p, q) = (wi(i), vi(i));
            assert(0 <= p && size(q) <= most);
            let y = p * q;
            let all = weights(n, counts, wi);
            assert(size(y) <= p * most && p * most <= i64::MAX * b) by (nonlinear_arith)
                requires
                    y == p * q,
                    0 <= p <= all,
                    -most <= q <= most,
                    0 <= most,
                    all * most <= i64::MAX * b,
                    size(y) == y || size(y) == -y,
            ;
            weigh_laws::lemma_times_near(w(i), v(i), i64::MAX as int);
            weigh_laws::lemma_cut_near(y, b);
            let t = w(i).times_spec(v(i)).count as int;
            let (sx, st) = (size(x0.count as int), size(t));
            let d1 = d0.count + p;
            assert(b * (sx + st) <= d1 * most) by (nonlinear_arith)
                requires
                    b * sx <= d0.count * most,
                    b * st <= p * most,
                    d1 == d0.count + p,
            ;
            assert(d1 * most <= i64::MAX * b) by (nonlinear_arith)
                requires
                    d1 <= all,
                    0 <= most,
                    all * most <= i64::MAX * b,
            ;
            assert(sx + st <= i64::MAX) by (nonlinear_arith)
                requires
                    b * (sx + st) <= i64::MAX * b,
                    0 < b,
            ;
            let sum = x0.count + t;
            let ss = size(sum);
            assert(b * ss <= d1 * most) by (nonlinear_arith)
                requires
                    ss <= sx + st,
                    b * (sx + st) <= d1 * most,
                    0 < b,
            ;
        }
    } else {
        assert(0 * most == 0);
    }
}

/// A quotient of sums is a mean.
proof fn lemma_mean(
    n: int,
    counts: spec_fn(int) -> bool,
    w: spec_fn(int) -> Nano,
    v: spec_fn(int) -> Nano,
    most: int,
)
    requires
        tame(n, counts, |i: int| w(i).count as int, |i: int| v(i).count as int, most),
        0 < weights(n, counts, |i: int| w(i).count as int),
    ensures
        ({
            let (x, d) = tally(n, counts, w, v);
            &&& is_mean(
                x.over_spec(d).count as int,
                n,
                counts,
                |i: int| w(i).count as int,
                |i: int| v(i).count as int,
            )
            &&& size(x.over_spec(d).count as int) <= most
            &&& d.count == weights(n, counts, |i: int| w(i).count as int)
        }),
{
    let b = BILLION as int;
    lemma_tally(n, n, counts, w, v, most);
    let (x, d) = tally(n, counts, w, v);
    let (p, k) = (x.count as int, d.count as int);
    let y = p * b;
    let q = nano::cut_div(y, k);
    weigh_laws::lemma_cut_near(y, k);
    let (sp, sq) = (size(p), size(q));
    assert(size(y) == b * sp) by (nonlinear_arith)
        requires
            y == p * b,
            0 < b,
            p < 0 ==> sp == -p,
            p >= 0 ==> sp == p,
            y < 0 ==> size(y) == -y,
            y >= 0 ==> size(y) == y,
    ;
    assert(sq <= most) by (nonlinear_arith)
        requires
            k * sq <= k * most,
            0 < k,
    ;
    assert(k * q == q * k && p * b == b * p) by (nonlinear_arith);
}

proof fn lemma_times_commute(a: Nano, b: Nano)
    ensures
        a.times_spec(b) == b.times_spec(a),
{
    let (x, y) = (a.count as int, b.count as int);
    assert(x * y == y * x) by (nonlinear_arith);
}

// ---------------------------------------------------------------------------
// Reports
// ---------------------------------------------------------------------------

/// What a hand of a view weighs: its reach times the reach that it meets.
pub open spec fn hand_weight(h: HandView<Nano>) -> int {
    h.reach.times_spec(h.valid).count as int
}

/// Law: a hand weighs its reach times the reach that it meets, down to a
/// billionth.
pub proof fn law_hands_weigh_what_they_meet(h: HandView<Nano>)
    requires
        0 <= h.reach.count,
        0 <= h.valid.count,
        h.reach.count * h.valid.count <= i64::MAX * BILLION,
    ensures
        0 <= h.reach.count * h.valid.count - BILLION * hand_weight(h) < BILLION,
{
    let b = BILLION as int;
    let z = h.reach.count * h.valid.count;
    assert(0 <= z) by (nonlinear_arith)
        requires
            z == h.reach.count * h.valid.count,
            0 <= h.reach.count,
            0 <= h.valid.count,
    ;
    weigh_laws::lemma_times_near(h.reach, h.valid, i64::MAX as int);
    vstd::arithmetic::div_mod::lemma_fundamental_div_mod(z, b);
    vstd::arithmetic::div_mod::lemma_mod_bound(z, b);
}

/// Whether a hand of a view has an equity and an expected value.
pub open spec fn both_shown(hands: Seq<HandView<Nano>>) -> spec_fn(int) -> bool {
    |i: int| hands[i].eq is Some && hands[i].ev is Some
}

pub open spec fn weight_at(hands: Seq<HandView<Nano>>) -> spec_fn(int) -> int {
    |i: int| hand_weight(hands[i])
}

pub open spec fn ev_at(hands: Seq<HandView<Nano>>) -> spec_fn(int) -> int {
    |i: int| hands[i].ev->Some_0.count as int
}

pub open spec fn eq_at(hands: Seq<HandView<Nano>>) -> spec_fn(int) -> int {
    |i: int| hands[i].eq->Some_0.count as int
}

proof fn lemma_report_sums(hands: Seq<HandView<Nano>>, k: int)
    requires
        0 <= k <= hands.len(),
    ensures
        ({
            let s = report::sums_below::<Nano>(hands, k);
            let c = both_shown(hands);
            let w = |i: int| hands[i].reach.times_spec(hands[i].valid);
            &&& (s.ev, s.weight) == tally(k, c, w, |i: int| hands[i].ev->Some_0)
            &&& (s.eq, s.weight) == tally(k, c, w, |i: int| hands[i].eq->Some_0)
        }),
    decreases k,
{
    assert(nano::ten_to(0) == 1);
    if k > 0 {
        lemma_report_sums(hands, k - 1);
        let h = hands[k - 1];
        let w = h.reach.times_spec(h.valid);
        if h.eq is Some && h.ev is Some {
            lemma_times_commute(h.ev->Some_0, w);
            lemma_times_commute(h.eq->Some_0, w);
        }
    }
}

proof fn lemma_same_weights(
    n: int,
    counts: spec_fn(int) -> bool,
    w: spec_fn(int) -> int,
    x: spec_fn(int) -> int,
    v: spec_fn(int) -> int,
    y: spec_fn(int) -> int,
)
    requires
        forall|i: int| 0 <= i < n ==> #[trigger] w(i) == x(i),
        forall|i: int| 0 <= i < n ==> #[trigger] v(i) == y(i),
    ensures
        weights(n, counts, w) == weights(n, counts, x),
        weighed(n, counts, w, v) == weighed(n, counts, x, y),
    decreases n,
{
    if n > 0 {
        lemma_same_weights(n - 1, counts, w, x, v, y);
        assert(w(n - 1) == x(n - 1));
        assert(v(n - 1) == y(n - 1));
    }
}

/// Law: the equity and the expected value of a report's row are the means over
/// the player's hands, weighed by reach times met reach; what is realized is
/// the value over the pot times the equity. All up to rounding.
pub proof fn law_report_rows_are_means(hands: Seq<HandView<Nano>>, pot: Nano, most: int)
    requires
        tame(hands.len() as int, both_shown(hands), weight_at(hands), ev_at(hands), most),
        tame(hands.len() as int, both_shown(hands), weight_at(hands), eq_at(hands), most),
        0 < weights(hands.len() as int, both_shown(hands), weight_at(hands)),
        0 <= pot.count,
    ensures
        ({
            let n = hands.len() as int;
            let row = report::averages(report::sums_below::<Nano>(hands, n), pot);
            let share = pot.times_spec(row.eq);
            &&& is_mean(row.ev.count as int, n, both_shown(hands), weight_at(hands), ev_at(hands))
            &&& is_mean(row.eq.count as int, n, both_shown(hands), weight_at(hands), eq_at(hands))
            &&& row.eq.count > 20_000_000 && 0 < share.count && size(row.ev.count as int) * BILLION
                <= i64::MAX * share.count ==> size(
                row.eqr.count * share.count - row.ev.count * BILLION,
            ) <= share.count
            &&& row.eq.count <= 20_000_000 ==> row.eqr.count == 0
        }),
{
    let n = hands.len() as int;
    let c = both_shown(hands);
    let w = |i: int| hands[i].reach.times_spec(hands[i].valid);
    let (ev, eq) = (|i: int| hands[i].ev->Some_0, |i: int| hands[i].eq->Some_0);
    lemma_report_sums(hands, n);
    let wi = |i: int| w(i).count as int;
    let (evi, eqi) = (|i: int| ev(i).count as int, |i: int| eq(i).count as int);
    lemma_same_weights(n, c, wi, weight_at(hands), evi, ev_at(hands));
    lemma_same_weights(n, c, wi, weight_at(hands), eqi, eq_at(hands));
    assert forall|i: int| 0 <= i < n && #[trigger] c(i) implies 0 <= wi(i) && size(evi(i)) <= most
        && size(eqi(i)) <= most by {
        assert(0 <= weight_at(hands)(i) && size(ev_at(hands)(i)) <= most);
        assert(size(eq_at(hands)(i)) <= most);
    }
    lemma_mean(n, c, w, ev, most);
    lemma_mean(n, c, w, eq, most);
    assert(nano::ten_to(0) == 1);
    assert(nano::ten_to(2) == 100) by {
        reveal_with_fuel(nano::ten_to, 3);
    }
    assert(nano::ten_to(12) == 1_000_000_000_000) by {
        reveal_with_fuel(nano::ten_to, 13);
    }
    assert(Nano::decimal_spec(1, 12).count == 0);
    assert(Nano::decimal_spec(2, 2).count == 20_000_000);
    let row = report::averages(report::sums_below::<Nano>(hands, n), pot);
    let share = pot.times_spec(row.eq);
    let (e, s) = (row.ev.count as int, share.count as int);
    if row.eq.count > 20_000_000 && 0 < s && size(e) * BILLION <= i64::MAX * s {
        lemma_quotient(row.ev, share);
    }
}

/// A quotient in range.
proof fn lemma_quotient(x: Nano, d: Nano)
    requires
        0 < d.count,
        size(x.count as int) * BILLION <= i64::MAX * d.count,
    ensures
        size(x.over_spec(d).count * d.count - x.count * BILLION) <= d.count,
{
    let b = BILLION as int;
    let (p, k) = (x.count as int, d.count as int);
    let y = p * b;
    let q = nano::cut_div(y, k);
    weigh_laws::lemma_cut_near(y, k);
    let (sp, sq) = (size(p), size(q));
    assert(size(y) == sp * b) by (nonlinear_arith)
        requires
            y == p * b,
            0 < b,
            p < 0 ==> sp == -p,
            p >= 0 ==> sp == p,
            y < 0 ==> size(y) == -y,
            y >= 0 ==> size(y) == y,
    ;
    assert(sq <= i64::MAX) by (nonlinear_arith)
        requires
            k * sq <= i64::MAX * k,
            0 < k,
    ;
    assert(k * q == q * k) by (nonlinear_arith);
}

// ---------------------------------------------------------------------------
// Exploits
// ---------------------------------------------------------------------------

pub open spec fn exploit_weight(hands: Seq<ExploitHandView<Nano>>) -> spec_fn(int) -> int {
    |i: int| hands[i].reach.times_spec(hands[i].valid).count as int
}

pub open spec fn exploit_counts(hands: Seq<ExploitHandView<Nano>>) -> spec_fn(int) -> bool {
    |i: int|
        hands[i].br_ev is Some && hands[i].cur_ev is Some && hands[i].reach.times_spec(
            hands[i].valid,
        ).count > 0
}

pub open spec fn best_at(hands: Seq<ExploitHandView<Nano>>) -> spec_fn(int) -> int {
    |i: int| hands[i].br_ev->Some_0.count as int
}

pub open spec fn current_at(hands: Seq<ExploitHandView<Nano>>) -> spec_fn(int) -> int {
    |i: int| hands[i].cur_ev->Some_0.count as int
}

proof fn lemma_exploit_sums(hands: Seq<ExploitHandView<Nano>>, k: int)
    requires
        0 <= k <= hands.len(),
    ensures
        ({
            let (w, b, c) = exploit::weighed::<Nano>(hands, k);
            let x = |i: int| hands[i].reach.times_spec(hands[i].valid);
            let counts = exploit_counts(hands);
            &&& (b, w) == tally(k, counts, x, |i: int| hands[i].br_ev->Some_0)
            &&& (c, w) == tally(k, counts, x, |i: int| hands[i].cur_ev->Some_0)
        }),
    decreases k,
{
    assert(nano::ten_to(0) == 1);
    if k > 0 {
        lemma_exploit_sums(hands, k - 1);
    }
}

/// Law: the averages of an exploit view are means over the hands, weighed by
/// reach times met reach, and the average gain is what the best response earns
/// on average over the current play.
pub proof fn law_exploit_averages_are_means(hands: Seq<ExploitHandView<Nano>>, most: int)
    requires
        tame(
            hands.len() as int,
            exploit_counts(hands),
            exploit_weight(hands),
            best_at(hands),
            most,
        ),
        tame(
            hands.len() as int,
            exploit_counts(hands),
            exploit_weight(hands),
            current_at(hands),
            most,
        ),
        2 * most <= i64::MAX,
        0 < weights(hands.len() as int, exploit_counts(hands), exploit_weight(hands)),
        weights(hands.len() as int, exploit_counts(hands), exploit_weight(hands)) * 2 * most
            <= i64::MAX * BILLION,
    ensures
        ({
            let n = hands.len() as int;
            let (w, b, c) = exploit::weighed::<Nano>(hands, n);
            let best = exploit::averaged::<Nano>(b, w);
            let current = exploit::averaged::<Nano>(c, w);
            let gain = exploit::averaged::<Nano>(b.minus_spec(c), w);
            let counts = exploit_counts(hands);
            &&& best is Some && current is Some && gain is Some
            &&& is_mean(
                best->0.count as int,
                n,
                counts,
                exploit_weight(hands),
                best_at(hands),
            )
            &&& is_mean(
                current->0.count as int,
                n,
                counts,
                exploit_weight(hands),
                current_at(hands),
            )
            &&& size(gain->0.count - (best->0.count - current->0.count)) <= 3
        }),
{
    let n = hands.len() as int;
    let counts = exploit_counts(hands);
    let x = |i: int| hands[i].reach.times_spec(hands[i].valid);
    let (be, cu) = (|i: int| hands[i].br_ev->Some_0, |i: int| hands[i].cur_ev->Some_0);
    lemma_exploit_sums(hands, n);
    let xi = |i: int| x(i).count as int;
    let (bi, ci) = (|i: int| be(i).count as int, |i: int| cu(i).count as int);
    lemma_same_weights(n, counts, xi, exploit_weight(hands), bi, best_at(hands));
    lemma_same_weights(n, counts, xi, exploit_weight(hands), ci, current_at(hands));
    assert forall|i: int| 0 <= i < n && #[trigger] counts(i) implies 0 <= xi(i) && size(bi(i))
        <= most && size(ci(i)) <= most by {
        assert(0 <= exploit_weight(hands)(i) && size(best_at(hands)(i)) <= most);
        assert(size(current_at(hands)(i)) <= most);
    }
    lemma_mean(n, counts, x, be, most);
    lemma_mean(n, counts, x, cu, most);
    lemma_tally(n, n, counts, x, be, most);
    lemma_tally(n, n, counts, x, cu, most);
    assert(nano::ten_to(12) == 1_000_000_000_000) by {
        reveal_with_fuel(nano::ten_to, 13);
    }
    assert(Nano::decimal_spec(1, 12).count == 0);
    let (w, b, c) = exploit::weighed::<Nano>(hands, n);
    let bb = BILLION as int;
    let (p, q, k) = (b.count as int, c.count as int, w.count as int);
    let (sp, sq) = (size(p), size(q));
    let (x1, x2, x3) = (p * bb, q * bb, (p - q) * bb);
    let sd = size(p - q);
    assert(bb * (sp + sq) <= 2 * (k * most));
    assert(bb * sd <= bb * (sp + sq)) by (nonlinear_arith)
        requires
            sd <= sp + sq,
            0 < bb,
    ;
    assert(k * 2 * most == 2 * (k * most)) by (nonlinear_arith);
    assert(sd <= i64::MAX) by (nonlinear_arith)
        requires
            bb * sd <= i64::MAX * bb,
            0 < bb,
    ;
    let diff = b.minus_spec(c);
    assert(diff.count == p - q);
    let (q1, q2, q3) = (nano::cut_div(x1, k), nano::cut_div(x2, k), nano::cut_div(x3, k));
    weigh_laws::lemma_cut_near(x1, k);
    weigh_laws::lemma_cut_near(x2, k);
    weigh_laws::lemma_cut_near(x3, k);
    assert(x3 == x1 - x2) by (nonlinear_arith)
        requires
            x1 == p * bb,
            x2 == q * bb,
            x3 == (p - q) * bb,
    ;
    assert(size(x3) == bb * sd) by (nonlinear_arith)
        requires
            x3 == (p - q) * bb,
            0 < bb,
            p - q < 0 ==> sd == -(p - q),
            p - q >= 0 ==> sd == p - q,
            x3 < 0 ==> size(x3) == -x3,
            x3 >= 0 ==> size(x3) == x3,
    ;
    let s3 = size(q3);
    assert(s3 <= 2 * most) by (nonlinear_arith)
        requires
            k * s3 <= 2 * (k * most),
            0 < k,
    ;
    assert(diff.over_spec(w).count == q3);
    assert(b.over_spec(w).count == q1 && c.over_spec(w).count == q2) by {
        lemma_mean_count(p, k, most);
        lemma_mean_count(q, k, most);
    }
    let off = q3 - (q1 - q2);
    assert(-3 * k <= k * off <= 3 * k) by (nonlinear_arith)
        requires
            off == q3 - (q1 - q2),
            x3 == x1 - x2,
            -k <= x1 - k * q1 <= k,
            -k <= x2 - k * q2 <= k,
            -k <= x3 - k * q3 <= k,
    ;
    assert(-3 <= off <= 3) by (nonlinear_arith)
        requires
            -3 * k <= k * off <= 3 * k,
            0 < k,
    ;
}

/// A quotient that is bounded as a mean is stays in range.
proof fn lemma_mean_count(p: int, k: int, most: int)
    requires
        0 < k,
        BILLION * size(p) <= k * most,
        0 <= most <= i64::MAX,
    ensures
        size(nano::cut_div(p * BILLION, k)) <= most,
{
    let b = BILLION as int;
    let y = p * b;
    let sp = size(p);
    weigh_laws::lemma_cut_near(y, k);
    let sq = size(nano::cut_div(y, k));
    assert(size(y) == b * sp) by (nonlinear_arith)
        requires
            y == p * b,
            0 < b,
            p < 0 ==> sp == -p,
            p >= 0 ==> sp == p,
            y < 0 ==> size(y) == -y,
            y >= 0 ==> size(y) == y,
    ;
    assert(sq <= most) by (nonlinear_arith)
        requires
            k * sq <= k * most,
            0 < k,
    ;
}

// ---------------------------------------------------------------------------
// Rates, classes, runouts and ranges
// ---------------------------------------------------------------------------

/// A quotient of sums is the mean by weights and values that read the same.
proof fn lemma_mean_as(
    n: int,
    counts: spec_fn(int) -> bool,
    w: spec_fn(int) -> Nano,
    v: spec_fn(int) -> Nano,
    wi: spec_fn(int) -> int,
    vi: spec_fn(int) -> int,
    most: int,
)
    requires
        tame(n, counts, wi, vi, most),
        0 < weights(n, counts, wi),
        forall|i: int| 0 <= i < n ==> (#[trigger] w(i)).count == wi(i),
        forall|i: int| 0 <= i < n ==> (#[trigger] v(i)).count == vi(i),
    ensures
        ({
            let (x, d) = tally(n, counts, w, v);
            &&& is_mean(x.over_spec(d).count as int, n, counts, wi, vi)
            &&& size(x.over_spec(d).count as int) <= most
            &&& d.count == weights(n, counts, wi)
        }),
{
    let wn = |i: int| w(i).count as int;
    let vn = |i: int| v(i).count as int;
    lemma_same_weights(n, counts, wn, wi, vn, vi);
    assert forall|i: int| 0 <= i < n && #[trigger] counts(i) implies 0 <= wn(i) && size(vn(i))
        <= most by {
        assert(0 <= wi(i) && size(vi(i)) <= most);
        assert(w(i).count == wi(i) && v(i).count == vi(i));
    }
    lemma_mean(n, counts, w, v, most);
}

pub open spec fn acts_at(hands: Seq<HandView<Nano>>) -> spec_fn(int) -> bool {
    |i: int| hands[i].strategy is Some
}

pub open spec fn reach_at(hands: Seq<HandView<Nano>>) -> spec_fn(int) -> int {
    |i: int| hands[i].reach.count as int
}

/// How often each hand takes action `a`.
pub open spec fn takes_at(hands: Seq<HandView<Nano>>, a: int) -> spec_fn(int) -> int {
    |i: int| hands[i].strategy->Some_0@[a].count as int
}

proof fn lemma_rate_sums(hands: Seq<HandView<Nano>>, a: int, k: int)
    requires
        0 <= k <= hands.len(),
    ensures
        (report::taken_below::<Nano>(hands, a, k), report::acting_below::<Nano>(hands, k))
            == tally(
            k,
            acts_at(hands),
            |i: int| hands[i].reach,
            |i: int| hands[i].strategy->Some_0@[a],
        ),
    decreases k,
{
    assert(nano::ten_to(0) == 1);
    if k > 0 {
        lemma_rate_sums(hands, a, k - 1);
        let h = hands[k - 1];
        if h.strategy is Some {
            lemma_times_commute(h.strategy->Some_0@[a], h.reach);
        }
    }
}

/// Law: how often a report's range takes an action is the mean of how often its
/// hands take it, weighed by their reach.
pub proof fn law_action_rates_are_means(hands: Seq<HandView<Nano>>, a: int, most: int)
    requires
        tame(hands.len() as int, acts_at(hands), reach_at(hands), takes_at(hands, a), most),
        0 < weights(hands.len() as int, acts_at(hands), reach_at(hands)),
    ensures
        is_mean(
            report::action_rate::<Nano>(hands, a).count as int,
            hands.len() as int,
            acts_at(hands),
            reach_at(hands),
            takes_at(hands, a),
        ),
{
    let n = hands.len() as int;
    lemma_rate_sums(hands, a, n);
    assert(nano::ten_to(12) == 1_000_000_000_000) by {
        reveal_with_fuel(nano::ten_to, 13);
    }
    assert(Nano::decimal_spec(1, 12).count == 0);
    lemma_mean_as(
        n,
        acts_at(hands),
        |i: int| hands[i].reach,
        |i: int| hands[i].strategy->Some_0@[a],
        reach_at(hands),
        takes_at(hands, a),
        most,
    );
}

pub open spec fn valued_at(hands: Seq<HandView<Nano>>) -> spec_fn(int) -> bool {
    |i: int| hands[i].ev is Some
}

proof fn lemma_range_sums(hands: Seq<HandView<Nano>>, k: int)
    requires
        0 <= k <= hands.len(),
    ensures
        batch::ev_sums::<Nano>(hands, k) == tally(
            k,
            valued_at(hands),
            |i: int| hands[i].reach,
            |i: int| hands[i].ev->Some_0,
        ),
    decreases k,
{
    assert(nano::ten_to(0) == 1);
    if k > 0 {
        lemma_range_sums(hands, k - 1);
        let h = hands[k - 1];
        if h.ev is Some {
            lemma_times_commute(h.ev->Some_0, h.reach);
        }
    }
}

/// Law: what a batch says that a range expects is the mean of what its hands
/// expect, weighed by their reach.
pub proof fn law_range_values_are_means(hands: Seq<HandView<Nano>>, most: int)
    requires
        tame(hands.len() as int, valued_at(hands), reach_at(hands), ev_at(hands), most),
        0 < weights(hands.len() as int, valued_at(hands), reach_at(hands)),
    ensures
        is_mean(
            batch::range_ev::<Nano>(hands).count as int,
            hands.len() as int,
            valued_at(hands),
            reach_at(hands),
            ev_at(hands),
        ),
{
    let n = hands.len() as int;
    lemma_range_sums(hands, n);
    lemma_mean_as(
        n,
        valued_at(hands),
        |i: int| hands[i].reach,
        |i: int| hands[i].ev->Some_0,
        reach_at(hands),
        ev_at(hands),
        most,
    );
}

/// Whether a hand of a view is of class `k` and has an equity and a value.
pub open spec fn of_class(hands: Seq<HandView<Nano>>, k: int) -> spec_fn(int) -> bool {
    |i: int|
        hands[i].eq is Some && hands[i].ev is Some && classes::class_of_cards(
            hands[i].c1 as int,
            hands[i].c2 as int,
        ) == k
}

proof fn lemma_class_sums(hands: Seq<HandView<Nano>>, k: int, n: int)
    requires
        0 <= n <= hands.len(),
    ensures
        ({
            let s = realization::class_sums::<Nano>(hands, k, n);
            let w = |i: int| hands[i].reach.times_spec(hands[i].valid);
            let c = of_class(hands, k);
            &&& (s.se, s.wv) == tally(n, c, w, |i: int| hands[i].eq->Some_0)
            &&& (s.sv, s.wv) == tally(n, c, w, |i: int| hands[i].ev->Some_0)
        }),
    decreases n,
{
    assert(nano::ten_to(0) == 1);
    if n > 0 {
        lemma_class_sums(hands, k, n - 1);
    }
}

/// Law: what is observed of a class of hands is the mean equity and the mean
/// value of its hands, weighed by reach times met reach, and what is realized is
/// the value over the pot times the equity. All up to rounding.
pub proof fn law_observations_are_means(
    setup: realization::Setup<Nano>,
    player: int,
    hands: Seq<HandView<Nano>>,
    k: int,
    o: RealizationObs<Nano>,
    most: int,
)
    requires
        realization::observed::<Nano>(setup, player, hands, k, o),
        tame(hands.len() as int, of_class(hands, k), weight_at(hands), ev_at(hands), most),
        tame(hands.len() as int, of_class(hands, k), weight_at(hands), eq_at(hands), most),
        0 < weights(hands.len() as int, of_class(hands, k), weight_at(hands)),
    ensures
        ({
            let n = hands.len() as int;
            let c = of_class(hands, k);
            let share = setup.pot.times_spec(o.eq);
            &&& is_mean(o.ev.count as int, n, c, weight_at(hands), ev_at(hands))
            &&& is_mean(o.eq.count as int, n, c, weight_at(hands), eq_at(hands))
            &&& 0 < share.count && size(o.ev.count as int) * BILLION <= i64::MAX * share.count
                ==> size(o.r_obs.count * share.count - o.ev.count * BILLION) <= share.count
        }),
{
    let n = hands.len() as int;
    let c = of_class(hands, k);
    let w = |i: int| hands[i].reach.times_spec(hands[i].valid);
    lemma_class_sums(hands, k, n);
    lemma_mean_as(
        n,
        c,
        w,
        |i: int| hands[i].ev->Some_0,
        weight_at(hands),
        ev_at(hands),
        most,
    );
    lemma_mean_as(
        n,
        c,
        w,
        |i: int| hands[i].eq->Some_0,
        weight_at(hands),
        eq_at(hands),
        most,
    );
    let share = setup.pot.times_spec(o.eq);
    if 0 < share.count && size(o.ev.count as int) * BILLION <= i64::MAX * share.count {
        lemma_quotient(o.ev, share);
    }
}

proof fn lemma_runout_sums(eq: Seq<Option<Nano>>, reach: Seq<Nano>, valid: Seq<Nano>, k: int)
    requires
        0 <= k <= eq.len(),
    ensures
        runouts::equity_sums::<Nano>(eq, reach, valid, k) == tally(
            k,
            |i: int| eq[i] is Some,
            |i: int| reach[i].times_spec(valid[i]),
            |i: int| eq[i]->Some_0,
        ),
    decreases k,
{
    assert(nano::ten_to(0) == 1);
    if k > 0 {
        lemma_runout_sums(eq, reach, valid, k - 1);
    }
}

/// Law: the equity that a runout shows is the mean of its hands' equities,
/// weighed by reach times met reach.
pub proof fn law_runout_equities_are_means(
    eq: Seq<Option<Nano>>,
    reach: Seq<Nano>,
    valid: Seq<Nano>,
    most: int,
)
    requires
        ({
            let w = |i: int| reach[i].times_spec(valid[i]).count as int;
            let n = eq.len() as int;
            &&& tame(n, |i: int| eq[i] is Some, w, |i: int| eq[i]->Some_0.count as int, most)
            &&& 0 < weights(n, |i: int| eq[i] is Some, w)
        }),
    ensures
        ({
            let (x, d) = runouts::equity_sums::<Nano>(eq, reach, valid, eq.len() as int);
            is_mean(
                x.over_spec(d).count as int,
                eq.len() as int,
                |i: int| eq[i] is Some,
                |i: int| reach[i].times_spec(valid[i]).count as int,
                |i: int| eq[i]->Some_0.count as int,
            )
        }),
{
    lemma_runout_sums(eq, reach, valid, eq.len() as int);
    lemma_mean_as(
        eq.len() as int,
        |i: int| eq[i] is Some,
        |i: int| reach[i].times_spec(valid[i]),
        |i: int| eq[i]->Some_0,
        |i: int| reach[i].times_spec(valid[i]).count as int,
        |i: int| eq[i]->Some_0.count as int,
        most,
    );
}

// ---------------------------------------------------------------------------
// Classes of hands before the flop
// ---------------------------------------------------------------------------

/// How many of the first `n` ways to give suits to two ranks make a hand of
/// class `k`, the higher card first.
pub open spec fn suitings(k: int, hi: int, lo: int, n: int) -> int
    decreases n,
{
    if n <= 0 {
        0
    } else {
        let c = 4 * hi + (n - 1) / 4;
        let d = 4 * lo + (n - 1) % 4;
        suitings(k, hi, lo, n - 1) + if c > d && classes::class_of_cards(c, d) == k {
            1int
        } else {
            0
        }
    }
}

/// Law: a class has as many combos as there are hands of two cards in it: the
/// hands of a class share their ranks, and of the sixteen ways to give suits to
/// those ranks as many make a hand of the class.
pub proof fn law_classes_count_their_hands(c: int, d: int, c2: int, d2: int)
    requires
        0 <= d < c < 52,
        0 <= d2 < c2 < 52,
    ensures
        suitings(classes::class_of_cards(c, d), c / 4, d / 4, 16) == classes::class_combos(
            classes::class_of_cards(c, d),
        ),
        classes::class_of_cards(c, d) == classes::class_of_cards(c2, d2) ==> c / 4 == c2 / 4 && d
            / 4 == d2 / 4,
{
    let k = classes::class_of_cards(c, d);
    let (hi, lo) = (c / 4, d / 4);
    let suited = c % 4 == d % 4;
    assert(k == classes::class_number(hi, lo, suited));
    let how = if hi == lo {
        0int
    } else if suited {
        1
    } else {
        2
    };
    lemma_suitings(k, hi, lo, how, 16);
    reveal_with_fuel(chosen, 17);
}

/// How many of the first `n` pairs of suits are in falling order, alike, or
/// unlike.
spec fn chosen(how: int, n: int) -> int
    decreases n,
{
    if n <= 0 {
        0
    } else {
        let (x, y) = ((n - 1) / 4, (n - 1) % 4);
        chosen(how, n - 1) + if (how == 0 && x > y) || (how == 1 && x == y) || (how == 2 && x
            != y) {
            1int
        } else {
            0
        }
    }
}

proof fn lemma_suitings(k: int, hi: int, lo: int, how: int, n: int)
    requires
        0 <= lo <= hi < 13,
        0 <= n <= 16,
        how == 0 ==> hi == lo && k == classes::class_number(hi, lo, false),
        how == 1 ==> hi > lo && k == classes::class_number(hi, lo, true),
        how == 2 ==> hi > lo && k == classes::class_number(hi, lo, false),
        how == 0 || how == 1 || how == 2,
    ensures
        suitings(k, hi, lo, n) == chosen(how, n),
    decreases n,
{
    if n > 0 {
        lemma_suitings(k, hi, lo, how, n - 1);
        let (x, y) = ((n - 1) / 4, (n - 1) % 4);
        let (c, d) = (4 * hi + x, 4 * lo + y);
        assert(c / 4 == hi && c % 4 == x);
        assert(d / 4 == lo && d % 4 == y);
        assert(classes::class_of_cards(c, d) == classes::class_number(hi, lo, x == y));
    }
}

/// The gain of a seat, added up class by class on plain numbers.
pub open spec fn gain_parts(vals: Seq<Nano>, k: int) -> int
    decreases k,
{
    if k <= 0 {
        0
    } else {
        gain_parts(vals, k - 1) + classes::class_combos(k - 1) * vals[k - 1].count
    }
}

/// What one class adds to a gain.
proof fn lemma_gain_term(vals: Seq<Nano>, h: int, most: int)
    requires
        vals.len() == 169,
        0 <= h < 169,
        size(vals[h].count as int) <= most <= i64::MAX,
    ensures
        ({
            let t = preflop_play::gain_terms::<Nano>(vals)[h].count as int;
            &&& size(t) <= most
            &&& size(1326 * t - classes::class_combos(h) * vals[h].count) <= 1326 + most
        }),
{
    let b = BILLION as int;
    assert(nano::ten_to(0) == 1);
    let c = classes::class_combos(h);
    let v = vals[h].count as int;
    let chance = classes::class_chance::<Nano>(h);
    let y = c * b * b;
    let d = 1326 * b;
    assert(Nano::decimal_spec(1326, 0).count == d);
    assert(Nano::decimal_spec(c as i64, 0).count == c * b);
    weigh_laws::lemma_cut_near(y, d);
    let p = nano::cut_div(y, d);
    assert(0 <= y <= 12 * b * b) by (nonlinear_arith)
        requires
            y == c * b * b,
            0 <= c <= 12,
            0 < b,
    ;
    assert(0 <= p);
    assert(p <= b) by (nonlinear_arith)
        requires
            d * p <= 12 * b * b,
            d == 1326 * b,
            0 < b,
    ;
    assert(chance.count == p);
    let z = p * v;
    let sv = size(v);
    assert(size(z) <= b * sv) by (nonlinear_arith)
        requires
            z == p * v,
            0 <= p <= b,
            v < 0 ==> sv == -v,
            v >= 0 ==> sv == v,
            z < 0 ==> size(z) == -z,
            z >= 0 ==> size(z) == z,
    ;
    weigh_laws::lemma_cut_near(z, b);
    let t = nano::cut_div(z, b);
    let st = size(t);
    assert(st <= sv) by (nonlinear_arith)
        requires
            b * st <= b * sv,
            0 < b,
    ;
    assert(chance.times_spec(vals[h]).count == t);
    let off = 1326 * t - c * v;
    let e = 1326 * p - c * b;
    assert(-1326 <= e <= 1326) by (nonlinear_arith)
        requires
            -d <= d * p - y <= d,
            d == 1326 * b,
            y == c * b * b,
            e == 1326 * p - c * b,
            0 < b,
    ;
    let f = b * t - z;
    let ev = e * v;
    assert(b * off == 1326 * f + ev) by (nonlinear_arith)
        requires
            off == 1326 * t - c * v,
            e == 1326 * p - c * b,
            f == b * t - z,
            z == p * v,
            ev == e * v,
    ;
    assert(-1326 * sv <= ev <= 1326 * sv) by (nonlinear_arith)
        requires
            ev == e * v,
            -1326 <= e <= 1326,
            v < 0 ==> sv == -v,
            v >= 0 ==> sv == v,
    ;
    let so = size(off);
    assert(so <= 1326 + sv) by (nonlinear_arith)
        requires
            b * off == 1326 * f + ev,
            -b <= f <= b,
            -1326 * sv <= ev <= 1326 * sv,
            0 <= sv,
            b == 1_000_000_000,
            so == off || so == -off,
    ;
}

proof fn lemma_gain_sum(vals: Seq<Nano>, k: int, most: int)
    requires
        vals.len() == 169,
        0 <= k <= 169,
        0 <= most,
        169 * most <= i64::MAX,
        forall|h: int| 0 <= h < 169 ==> size((#[trigger] vals[h]).count as int) <= most,
    ensures
        ({
            let t = num::total_of(preflop_play::gain_terms::<Nano>(vals).take(k)).count as int;
            &&& size(t) <= k * most
            &&& size(1326 * t - gain_parts(vals, k)) <= k * (1326 + most)
        }),
    decreases k,
{
    let terms = preflop_play::gain_terms::<Nano>(vals);
    assert(nano::ten_to(0) == 1);
    if k > 0 {
        lemma_gain_sum(vals, k - 1, most);
        assert(terms.take(k).drop_last() =~= terms.take(k - 1));
        assert(size(vals[k - 1].count as int) <= most);
        lemma_gain_term(vals, k - 1, most);
        assert(k * most == (k - 1) * most + most) by (nonlinear_arith);
        assert(k * (1326 + most) == (k - 1) * (1326 + most) + 1326 + most) by (nonlinear_arith);
        assert(k * most <= 169 * most) by (nonlinear_arith)
            requires
                k <= 169,
                0 <= most,
        ;
        assert(terms.take(k).last() == terms[k - 1]);
    } else {
        assert(terms.take(0).len() == 0);
    }
}

/// Law: what a seat expects or gains before the flop is the mean over its
/// hands, each class weighed by its combos out of all 1326, up to rounding.
pub proof fn law_gains_are_means_over_the_combos(vals: Seq<Nano>, most: int)
    requires
        vals.len() == 169,
        0 <= most,
        169 * most <= i64::MAX,
        forall|h: int| 0 <= h < 169 ==> size((#[trigger] vals[h]).count as int) <= most,
    ensures
        size(1326 * preflop_play::gain::<Nano>(vals).count - gain_parts(vals, 169)) <= 169 * (1326
            + most),
{
    lemma_gain_sum(vals, 169, most);
    let terms = preflop_play::gain_terms::<Nano>(vals);
    assert(terms.take(169) =~= terms);
}

/// What a best response adds to what a seat expects, added up class by class.
pub open spec fn added(best: Seq<Nano>, usual: Seq<Nano>, k: int) -> int
    decreases k,
{
    if k <= 0 {
        0
    } else {
        added(best, usual, k - 1) + classes::class_combos(k - 1) * (best[k - 1].count - usual[k
            - 1].count)
    }
}

proof fn lemma_added(best: Seq<Nano>, usual: Seq<Nano>, k: int, most: int)
    requires
        0 <= k <= 169,
        0 <= most,
        2 * most <= i64::MAX,
        forall|h: int| 0 <= h < 169 ==> size((#[trigger] best[h]).count as int) <= most,
        forall|h: int| 0 <= h < 169 ==> size((#[trigger] usual[h]).count as int) <= most,
    ensures
        gain_parts(preflop_play::margins(best, usual), k) == added(best, usual, k),
    decreases k,
{
    if k > 0 {
        lemma_added(best, usual, k - 1, most);
        assert(size(best[k - 1].count as int) <= most);
        assert(size(usual[k - 1].count as int) <= most);
        let m = preflop_play::margins(best, usual)[k - 1];
        assert(m.count == best[k - 1].count - usual[k - 1].count);
    }
}

/// Law: what a seat expects is the mean over all combos of what its classes
/// expect under the average strategies, and what it would gain is the mean of
/// what a best response adds to that. Up to rounding.
pub proof fn law_gaps_are_what_best_responses_add(s: PreflopSolver<Nano>, p: int, most: int)
    requires
        s.expected(p, true).len() == 169,
        s.expected(p, false).len() == 169,
        0 <= most,
        338 * most <= i64::MAX,
        forall|h: int|
            0 <= h < 169 ==> size((#[trigger] s.expected(p, true)[h]).count as int) <= most,
        forall|h: int|
            0 <= h < 169 ==> size((#[trigger] s.expected(p, false)[h]).count as int) <= most,
    ensures
        size(1326 * s.value(p).count - gain_parts(s.expected(p, false), 169)) <= 169 * (1326
            + most),
        size(1326 * s.gap(p).count - added(s.expected(p, true), s.expected(p, false), 169)) <= 169
            * (1326 + 2 * most),
{
    let (best, usual) = (s.expected(p, true), s.expected(p, false));
    law_gains_are_means_over_the_combos(usual, most);
    let m = preflop_play::margins(best, usual);
    lemma_added(best, usual, 169, most);
    assert forall|h: int| 0 <= h < 169 implies size((#[trigger] m[h]).count as int) <= 2 * most by {
        assert(size(best[h].count as int) <= most);
        assert(size(usual[h].count as int) <= most);
    }
    law_gains_are_means_over_the_combos(m, 2 * most);
}

} // verus!
