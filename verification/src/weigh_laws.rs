//! Sums over hands, without an end to their range: how they add up, and how
//! cutting their terms off tells.

use crate::nano;
use crate::nano::{Nano, BILLION};
use crate::num::Num;
use crate::play_laws;
use crate::removal_laws;
use crate::strategy;
use vstd::prelude::*;

verus! {

/// The magnitude of a count.
pub open spec fn size(x: int) -> int {
    if x < 0 {
        -x
    } else {
        x
    }
}

/// What the first `n` hands count, each weighed by its reach.
pub open spec fn weighed(reach: Seq<Nano>, n: int, x: spec_fn(int) -> int) -> int
    decreases n,
{
    if n <= 0 {
        0
    } else {
        weighed(reach, n - 1, x) + reach[n - 1].count * x(n - 1)
    }
}

/// The values of the first `n` hands, weighed by reach.
pub open spec fn dot(reach: Seq<Nano>, vals: Seq<Nano>, n: int) -> int {
    weighed(reach, n, |i: int| vals[i].count as int)
}

/// The magnitudes of the first `n` values, added up.
pub open spec fn heft(vals: Seq<Nano>, n: int) -> int
    decreases n,
{
    if n <= 0 {
        0
    } else {
        heft(vals, n - 1) + size(vals[n - 1].count as int)
    }
}

pub(crate) proof fn lemma_weighed_same(
    reach: Seq<Nano>,
    n: int,
    x: spec_fn(int) -> int,
    y: spec_fn(int) -> int,
)
    requires
        forall|i: int| 0 <= i < n ==> #[trigger] x(i) == y(i),
    ensures
        weighed(reach, n, x) == weighed(reach, n, y),
    decreases n,
{
    if n > 0 {
        lemma_weighed_same(reach, n - 1, x, y);
        assert(x(n - 1) == y(n - 1));
    }
}

/// Weighing is linear.
pub(crate) proof fn lemma_weighed_linear(
    reach: Seq<Nano>,
    n: int,
    x: spec_fn(int) -> int,
    y: spec_fn(int) -> int,
    z: spec_fn(int) -> int,
    a: int,
    b: int,
)
    requires
        forall|i: int| 0 <= i < n ==> #[trigger] z(i) == a * x(i) + b * y(i),
    ensures
        weighed(reach, n, z) == a * weighed(reach, n, x) + b * weighed(reach, n, y),
    decreases n,
{
    if n > 0 {
        lemma_weighed_linear(reach, n - 1, x, y, z, a, b);
        let (r, u, v) = (reach[n - 1].count as int, x(n - 1), y(n - 1));
        let (p, q) = (weighed(reach, n - 1, x), weighed(reach, n - 1, y));
        assert(z(n - 1) == a * u + b * v);
        let (x, y) = (r * u, r * v);
        assert(r * (a * u) == a * (r * u)) by (nonlinear_arith);
        assert(r * (b * v) == b * (r * v)) by (nonlinear_arith);
        vstd::arithmetic::mul::lemma_mul_is_distributive_add(r, a * u, b * v);
        vstd::arithmetic::mul::lemma_mul_is_distributive_add(a, p, x);
        vstd::arithmetic::mul::lemma_mul_is_distributive_add(b, q, y);
    } else {
        assert(a * 0 + b * 0 == 0);
    }
}

/// Values that are near each other weigh nearly the same.
pub(crate) proof fn lemma_weighed_near(
    reach: Seq<Nano>,
    n: int,
    x: spec_fn(int) -> int,
    y: spec_fn(int) -> int,
    e: int,
)
    requires
        play_laws::none_negative(reach),
        0 <= n <= reach.len(),
        0 <= e,
        forall|i: int| 0 <= i < n ==> size(#[trigger] x(i) - y(i)) <= e,
    ensures
        size(weighed(reach, n, x) - weighed(reach, n, y)) <= e * play_laws::reach_counted(reach, n),
        0 <= play_laws::reach_counted(reach, n) <= play_laws::counted(reach),
    decreases n,
{
    play_laws::lemma_taken_bound(reach, n);
    if n > 0 {
        lemma_weighed_near(reach, n - 1, x, y, e);
        assert(reach.take(n).drop_last() =~= reach.take(n - 1));
        let (r, u, v) = (reach[n - 1].count as int, x(n - 1), y(n - 1));
        assert(r >= 0);
        assert(size(u - v) <= e);
        let c = play_laws::reach_counted(reach, n - 1);
        assert(play_laws::reach_counted(reach, n) == c + r);
        assert(r * u - r * v <= e * r && r * v - r * u <= e * r) by (nonlinear_arith)
            requires
                0 <= r,
                u - v <= e,
                v - u <= e,
        ;
        assert(e * (c + r) == e * c + e * r) by (nonlinear_arith);
    } else {
        assert(reach.take(0) =~= Seq::<Nano>::empty());
        assert(e * 0 == 0);
    }
}

/// Sums that are near, hand by hand.
pub(crate) proof fn lemma_weighed_within(
    reach: Seq<Nano>,
    n: int,
    x: spec_fn(int) -> int,
    y: spec_fn(int) -> int,
    e: spec_fn(int) -> int,
)
    requires
        play_laws::none_negative(reach),
        n <= reach.len(),
        forall|i: int| 0 <= i < n ==> size(#[trigger] x(i) - y(i)) <= e(i),
    ensures
        size(weighed(reach, n, x) - weighed(reach, n, y))
            <= weighed(reach, n, e),
    decreases n,
{
    if n > 0 {
        lemma_weighed_within(reach, n - 1, x, y, e);
        let (r, u, v, w) = (reach[n - 1].count as int, x(n - 1), y(n - 1), e(n - 1));
        assert(r >= 0);
        assert(size(u - v) <= w);
        assert(r * u - r * v <= r * w && r * v - r * u <= r * w) by (nonlinear_arith)
            requires
                0 <= r,
                u - v <= w,
                v - u <= w,
        ;
    }
}

/// The weight of one hand against those that it is paired with.
proof fn lemma_one_row(reach: Seq<Nano>, n: int, r: int, asked: spec_fn(int) -> bool)
    ensures
        weighed(
            reach,
            n,
            |j: int|
                if asked(j) {
                    r
                } else {
                    0
                },
        ) == r * removal_laws::reach_where(reach, n, asked),
    decreases n,
{
    if n > 0 {
        lemma_one_row(reach, n - 1, r, asked);
        let w = removal_laws::reach_where(reach, n - 1, asked);
        let c = reach[n - 1].count as int;
        assert(r * (w + c) == r * w + c * r && r * (w + 0) == r * w && c * 0 == 0)
            by (nonlinear_arith);
    } else {
        assert(r * 0 == 0);
    }
}

/// Pairs of hands weigh the same from either side.
pub(crate) proof fn lemma_either_side(
    r0: Seq<Nano>,
    r1: Seq<Nano>,
    n0: int,
    n1: int,
    paired: spec_fn(int, int) -> bool,
)
    requires
        0 <= n0,
    ensures
        weighed(r0, n0, |i: int| removal_laws::reach_where(r1, n1, |j: int| paired(i, j)))
            == weighed(r1, n1, |j: int| removal_laws::reach_where(r0, n0, |i: int| paired(i, j))),
    decreases n0,
{
    let left = |i: int| removal_laws::reach_where(r1, n1, |j: int| paired(i, j));
    let right = |j: int| removal_laws::reach_where(r0, n0, |i: int| paired(i, j));
    if n0 > 0 {
        let m = n0 - 1;
        lemma_either_side(r0, r1, m, n1, paired);
        let before = |j: int| removal_laws::reach_where(r0, m, |i: int| paired(i, j));
        let row = |j: int| paired(m, j);
        let r = r0[m].count as int;
        let part = |j: int|
            if row(j) {
                r
            } else {
                0
            };
        lemma_one_row(r1, n1, r, row);
        assert forall|j: int| 0 <= j < n1 implies #[trigger] right(j) == 1 * before(j) + 1 * part(
            j,
        ) by {}
        lemma_weighed_linear(r1, n1, before, part, right, 1, 1);
        assert(left(m) == removal_laws::reach_where(r1, n1, |j: int| paired(m, j)));
        removal_laws::lemma_same_where(r1, n1, |j: int| paired(m, j), row);
    } else {
        assert forall|j: int| 0 <= j < n1 implies #[trigger] right(j) == 0 * left(j) + 0 * left(
            j,
        ) by {}
        lemma_weighed_linear(r1, n1, left, left, right, 0, 0);
    }
}

// ---------------------------------------------------------------------------
// Cutting off
// ---------------------------------------------------------------------------

/// What cutting off leaves is no larger, and near.
pub(crate) proof fn lemma_cut_near(y: int, d: int)
    requires
        0 < d,
    ensures
        d * size(nano::cut_div(y, d)) <= size(y),
        size(d * nano::cut_div(y, d) - y) <= d,
{
    let u = size(y);
    vstd::arithmetic::div_mod::lemma_fundamental_div_mod(u, d);
    vstd::arithmetic::div_mod::lemma_mod_bound(u, d);
    vstd::arithmetic::div_mod::lemma_div_pos_is_pos(u, d);
    let q = u / d;
    assert(d * (-q) == -(d * q)) by (nonlinear_arith);
    assert(0 <= d * q) by (nonlinear_arith)
        requires
            0 < d,
            0 <= q,
    ;
}

/// A product of counts that stays in range.
pub(crate) proof fn lemma_times_near(a: Nano, b: Nano, most: int)
    requires
        size(a.count * b.count) <= most * BILLION,
        most <= i64::MAX,
    ensures
        a.times_spec(b).count == nano::cut_div(a.count * b.count, BILLION as int),
        size(a.times_spec(b).count as int) <= most,
{
    let y = a.count * b.count;
    let q = nano::cut_div(y, BILLION as int);
    lemma_cut_near(y, BILLION as int);
    assert(size(q) <= most) by (nonlinear_arith)
        requires
            BILLION * size(q) <= most * BILLION,
            BILLION == 1_000_000_000,
    ;
}

/// A share of a value, weighed by reach, is near the share of the reach that
/// weighs the value.
proof fn lemma_share_moves(r: int, s: int, v: int)
    requires
        0 <= r,
        0 <= s <= BILLION,
    ensures
        size(
            r * nano::cut_div(s * v, BILLION as int) - nano::cut_div(r * s, BILLION as int) * v,
        ) <= r + size(v),
{
    let b = BILLION as int;
    let x = nano::cut_div(s * v, b);
    let y = nano::cut_div(r * s, b);
    lemma_cut_near(s * v, b);
    lemma_cut_near(r * s, b);
    let p = b * x - s * v;
    let q = b * y - r * s;
    assert(b * (r * x - y * v) == r * p - q * v) by (nonlinear_arith)
        requires
            p == b * x - s * v,
            q == b * y - r * s,
    ;
    assert(size(r * p) <= r * b) by (nonlinear_arith)
        requires
            0 <= r,
            -b <= p <= b,
            size(r * p) == r * p || size(r * p) == -(r * p),
    ;
    let w = size(v);
    assert(size(q * v) <= b * w) by (nonlinear_arith)
        requires
            -b <= q <= b,
            w == v && 0 <= v || w == -v && v <= 0,
            size(q * v) == q * v || size(q * v) == -(q * v),
            0 < b,
    ;
    let d = r * x - y * v;
    assert(size(d) <= r + w) by (nonlinear_arith)
        requires
            b * d <= r * b + b * w,
            -(b * d) <= r * b + b * w,
            0 < b,
            size(d) == d || size(d) == -d,
    ;
}

/// Whether a list plays an action with given shares, and every value of it
/// stays in range.
pub open spec fn shared(term: Seq<Nano>, sigma: Seq<Nano>, nh: int, a: int, v: Seq<Nano>) -> bool {
    forall|i: int|
        0 <= i < nh ==> (#[trigger] term[i]).count == nano::cut_div(
            sigma[strategy::cell(nh, a, i)].count * v[i].count,
            BILLION as int,
        )
}

/// What an action is worth where it is taken, weighed by reach, is near what
/// the reach that takes it weighs.
pub(crate) proof fn lemma_action_moves(
    reach: Seq<Nano>,
    sigma: Seq<Nano>,
    a: int,
    v: Seq<Nano>,
    term: Seq<Nano>,
    n: int,
)
    requires
        play_laws::none_negative(reach),
        0 <= n <= reach.len(),
        shared(term, sigma, reach.len() as int, a, v),
        forall|i: int|
            0 <= i < reach.len() ==> 0 <= (#[trigger] sigma[strategy::cell(
                reach.len() as int,
                a,
                i,
            )]).count <= BILLION,
    ensures
        size(dot(reach, term, n) - dot(strategy::reach_through(reach, sigma, a), v, n))
            <= play_laws::reach_counted(reach, n) + heft(v, n),
    decreases n,
{
    let nh = reach.len() as int;
    let through = strategy::reach_through(reach, sigma, a);
    if n > 0 {
        lemma_action_moves(reach, sigma, a, v, term, n - 1);
        let i = n - 1;
        let (r, s, x) = (
            reach[i].count as int,
            sigma[strategy::cell(nh, a, i)].count as int,
            v[i].count as int,
        );
        assert(r >= 0);
        assert(0 <= s <= BILLION);
        lemma_share_moves(r, s, x);
        assert(term[i].count == nano::cut_div(s * x, BILLION as int));
        assert(0 <= r * s <= r * BILLION) by (nonlinear_arith)
            requires
                0 <= r,
                0 <= s <= BILLION,
        ;
        lemma_times_near(reach[i], sigma[strategy::cell(nh, a, i)], r);
        assert(through[i].count == nano::cut_div(r * s, BILLION as int));
        assert(reach.take(n).drop_last() =~= reach.take(n - 1));
    } else {
        assert(reach.take(0) =~= Seq::<Nano>::empty());
    }
}

// ---------------------------------------------------------------------------
// Reach that splits
// ---------------------------------------------------------------------------

/// How much reach of the hands that are asked for takes the first `k` actions.
pub open spec fn taking(
    reach: Seq<Nano>,
    sigma: Seq<Nano>,
    n: int,
    asked: spec_fn(int) -> bool,
    k: int,
) -> int
    decreases k,
{
    if k <= 0 {
        0
    } else {
        taking(reach, sigma, n, asked, k - 1) + removal_laws::reach_where(
            strategy::reach_through(reach, sigma, k - 1),
            n,
            asked,
        )
    }
}

/// What one hand's reach comes to over its actions.
pub open spec fn pieces(reach: Seq<Nano>, sigma: Seq<Nano>, na: int, j: int) -> Seq<Nano> {
    Seq::new(
        na as nat,
        |a: int| reach[j].times_spec(sigma[strategy::cell(reach.len() as int, a, j)]),
    )
}

proof fn lemma_taking_step(
    reach: Seq<Nano>,
    sigma: Seq<Nano>,
    na: int,
    n: int,
    asked: spec_fn(int) -> bool,
    k: int,
)
    requires
        0 < n <= reach.len(),
        0 <= k <= na,
    ensures
        taking(reach, sigma, n, asked, k) == taking(reach, sigma, n - 1, asked, k) + if asked(
            n - 1,
        ) {
            play_laws::counted(pieces(reach, sigma, na, n - 1).take(k))
        } else {
            0
        },
    decreases k,
{
    let all = pieces(reach, sigma, na, n - 1);
    if k > 0 {
        lemma_taking_step(reach, sigma, na, n, asked, k - 1);
        assert(all.take(k).drop_last() =~= all.take(k - 1));
        assert(strategy::reach_through(reach, sigma, k - 1)[n - 1] == all[k - 1]);
    } else {
        assert(all.take(0) =~= Seq::<Nano>::empty());
    }
}

/// Reach that splits between actions does not grow.
pub(crate) proof fn lemma_taking(
    reach: Seq<Nano>,
    sigma: Seq<Nano>,
    na: int,
    n: int,
    asked: spec_fn(int) -> bool,
    k: int,
)
    requires
        play_laws::none_negative(reach),
        play_laws::range_shares_one(reach, sigma, na),
        0 <= n <= reach.len(),
        0 <= k <= na,
    ensures
        taking(reach, sigma, n, asked, k) <= removal_laws::reach_where(reach, n, asked),
    decreases n,
{
    if n > 0 {
        lemma_taking(reach, sigma, na, n - 1, asked, k);
        lemma_taking_step(reach, sigma, na, n, asked, k);
        let r = reach[n - 1];
        let b = BILLION as int;
        let shares = strategy::column(sigma, na, reach.len() as int, n - 1);
        let all = pieces(reach, sigma, na, n - 1);
        assert(play_laws::share_one(shares));
        assert(r.count >= 0);
        play_laws::lemma_reach_split(r, shares, all);
        play_laws::lemma_taken_bound(all, k);
        let (c, t) = (play_laws::counted(shares), play_laws::counted(all));
        assert(t <= r.count) by (nonlinear_arith)
            requires
                0 <= r.count * c - b * t,
                c <= b,
                0 <= r.count,
                0 < b,
        ;
    } else {
        lemma_taking_none(reach, sigma, asked, k);
    }
}

proof fn lemma_taking_none(
    reach: Seq<Nano>,
    sigma: Seq<Nano>,
    asked: spec_fn(int) -> bool,
    k: int,
)
    ensures
        taking(reach, sigma, 0, asked, k) == 0,
    decreases k,
{
    if k > 0 {
        lemma_taking_none(reach, sigma, asked, k - 1);
    }
}

/// Whether a list is nowhere negative and nowhere larger than another.
pub open spec fn inside(u: Seq<Nano>, v: Seq<Nano>) -> bool {
    &&& u.len() == v.len()
    &&& forall|i: int| 0 <= i < u.len() ==> 0 <= (#[trigger] u[i]).count <= v[i].count
}

pub(crate) proof fn lemma_inside(u: Seq<Nano>, v: Seq<Nano>, n: int, asked: spec_fn(int) -> bool)
    requires
        inside(u, v),
        0 <= n <= u.len(),
    ensures
        play_laws::none_negative(u),
        play_laws::none_negative(v),
        0 <= removal_laws::reach_where(u, n, asked) <= removal_laws::reach_where(v, n, asked),
        play_laws::counted(u.take(n)) <= play_laws::counted(v.take(n)),
    decreases n,
{
    assert forall|i: int| 0 <= i < v.len() implies (#[trigger] v[i]).count >= 0 by {
        assert(0 <= u[i].count);
    }
    if n > 0 {
        lemma_inside(u, v, n - 1, asked);
        assert(u.take(n).drop_last() =~= u.take(n - 1));
        assert(v.take(n).drop_last() =~= v.take(n - 1));
        assert(0 <= u[n - 1].count <= v[n - 1].count);
    } else {
        assert(u.take(0) =~= v.take(0));
    }
}

/// Reach that passes an action is no larger.
pub(crate) proof fn lemma_through_inside(reach: Seq<Nano>, sigma: Seq<Nano>, na: int, a: int)
    requires
        play_laws::none_negative(reach),
        play_laws::range_shares_one(reach, sigma, na),
        0 <= a < na,
    ensures
        inside(strategy::reach_through(reach, sigma, a), reach),
        forall|i: int|
            0 <= i < reach.len() ==> 0 <= (#[trigger] sigma[strategy::cell(
                reach.len() as int,
                a,
                i,
            )]).count <= BILLION,
{
    let through = strategy::reach_through(reach, sigma, a);
    let nh = reach.len() as int;
    assert forall|i: int| 0 <= i < nh implies 0 <= (#[trigger] sigma[strategy::cell(
        nh,
        a,
        i,
    )]).count <= BILLION by {
        let shares = strategy::column(sigma, na, nh, i);
        assert(play_laws::share_one(shares));
        play_laws::lemma_counted_bound(shares);
        assert(shares[a] == sigma[strategy::cell(nh, a, i)]);
    }
    assert forall|i: int| 0 <= i < nh implies 0 <= (#[trigger] through[i]).count
        <= reach[i].count by {
        let s = sigma[strategy::cell(nh, a, i)];
        let (x, y) = (reach[i].count as int, s.count as int);
        assert(0 <= x * y <= x * BILLION) by (nonlinear_arith)
            requires
                0 <= x,
                0 <= y <= BILLION,
        ;
        lemma_times_near(reach[i], s, x);
        vstd::arithmetic::div_mod::lemma_div_pos_is_pos(x * y, BILLION as int);
    }
}

} // verus!
