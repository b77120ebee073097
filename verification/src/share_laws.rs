//! What the players are shown, in exact numbers and where no rake is taken:
//! their expected values share the pot between them.

use crate::cfr::Solver;
use crate::inspect;
use crate::inspect::{HandView, NodeView};
use crate::load_laws;
use crate::nano;
use crate::nano::{Nano, BILLION};
use crate::num::Num;
use crate::path::{Place, Step};
use crate::play_laws;
use crate::pot_laws;
use crate::removal_laws;
use crate::response_laws;
use crate::strategy;
use crate::tree;
use crate::tree::{Strictness, TreeConfig};
use crate::tree_laws;
use crate::weigh_laws;
use crate::weigh_laws::size;
use crate::zero_sum_laws;
use vstd::prelude::*;

verus! {

// ---------------------------------------------------------------------------
// Trees without rake
// ---------------------------------------------------------------------------

proof fn lemma_no_rake(cfg: TreeConfig<Nano>, pot: Nano)
    requires
        cfg.rake_pct.count == 0,
    ensures
        tree::rake_of(cfg, pot).count == 0,
{
    assert(nano::ten_to(0) == 1);
    assert(cfg.rake_pct.count * pot.count == 0) by (nonlinear_arith)
        requires
            cfg.rake_pct.count == 0,
    ;
    assert(nano::cut_div(0, BILLION as int) == 0);
}

/// Law: where no rake is taken, every node of a built spot evens out, and pays
/// no more than the stack.
pub proof fn law_unraked_spots_are_lossless(
    s: Solver<Nano>,
    max_nodes: Option<usize>,
    strictness: Strictness,
)
    requires
        s.wf(),
        load_laws::born(s.spot, max_nodes, strictness),
        s.spot.config.tree.rake_pct.count == 0,
        pot_laws::whole_stack(s.spot.config.tree) <= i64::MAX,
    ensures
        zero_sum_laws::lossless(s, pot_laws::whole_stack(s.spot.config.tree)),
{
    let cfg = s.spot.config.tree;
    let top = pot_laws::whole_stack(cfg);
    let hands = [s.spot.hands[0]@.len() as usize, s.spot.hands[1]@.len() as usize];
    let nodes = s.spot.tree.nodes@;
    assert(nano::ten_to(0) == 1);
    assert(s.spot.tree.arena().nodes == nodes);
    assert forall|j: int| 0 <= j < nodes.len() implies zero_sum_laws::evens_out(
        #[trigger] nodes[j],
        top,
    ) by {
        pot_laws::law_contributions_are_fair(cfg, s.spot.board@, hands, max_nodes, strictness, j);
        let n = nodes[j];
        assert(pot_laws::fair(cfg, n));
        lemma_no_rake(cfg, pot_laws::raked_pot(n));
    }
    pot_laws::law_contributions_are_fair(cfg, s.spot.board@, hands, max_nodes, strictness, 0);
}

// ---------------------------------------------------------------------------
// Sums over views
// ---------------------------------------------------------------------------

/// What the first `n` hands of a view are shown to expect, weighed by reach and
/// by the reach that each meets.
pub open spec fn expected(hands: Seq<HandView<Nano>>, n: int) -> int
    decreases n,
{
    if n <= 0 {
        0
    } else {
        let h = hands[n - 1];
        expected(hands, n - 1) + h.reach.count * match h.ev {
            Some(e) => h.valid.count * e.count,
            None => 0,
        }
    }
}

/// The weight of the first `n` hands of a view: reach times the reach that
/// each meets.
pub open spec fn weight(hands: Seq<HandView<Nano>>, n: int) -> int
    decreases n,
{
    if n <= 0 {
        0
    } else {
        weight(hands, n - 1) + hands[n - 1].reach.count * hands[n - 1].valid.count
    }
}

proof fn lemma_weighed_ones(reach: Seq<Nano>, n: int)
    requires
        0 <= n <= reach.len(),
    ensures
        weigh_laws::weighed(reach, n, |i: int| 1) == play_laws::reach_counted(reach, n),
    decreases n,
{
    if n > 0 {
        lemma_weighed_ones(reach, n - 1);
        assert(reach.take(n).drop_last() =~= reach.take(n - 1));
    } else {
        assert(reach.take(0) =~= Seq::<Nano>::empty());
    }
}

// ---------------------------------------------------------------------------
// One hand
// ---------------------------------------------------------------------------

/// How many actions a node rounds a hand's value with.
pub open spec fn roundings(s: Solver<Nano>, idx: int) -> int {
    if s.node(idx).kind == tree::KIND_ACTION {
        s.node(idx).num_children as int
    } else {
        1
    }
}

/// How far, in billionths of billionths, rounding can take a hand's shown value
/// from what it is worth, times the reach `m` that it meets.
pub open spec fn blur(na: int, top: int, m: int) -> int {
    na * (2 * BILLION + top) * m + (na * (BILLION * BILLION) + 5 * BILLION * top)
}

proof fn lemma_blur(na: int, top: int, m: int)
    requires
        1 <= na,
        0 <= top,
        0 <= m,
    ensures
        na * (2 * (BILLION * m) + BILLION * BILLION + m * top) <= blur(na, top, m),
        BILLION * m <= blur(na, top, m),
        5 * BILLION * top <= blur(na, top, m),
{
    let b = BILLION as int;
    assert(na * (2 * (b * m) + b * b + m * top) == na * (2 * b + top) * m + na * (b * b))
        by (nonlinear_arith);
    assert(0 <= b * top && 0 <= na * (b * b) && b * m <= na * (2 * b + top) * m)
        by (nonlinear_arith)
        requires
            1 <= na,
            0 <= top,
            0 <= m,
            0 < b,
    ;
    assert(5 * b * top == 5 * (b * top)) by (nonlinear_arith);
}

/// A value per unit of met reach.
pub(crate) proof fn lemma_per_unit(v: Nano, met: Nano, top: int, put: Nano)
    requires
        1 <= met.count,
        zero_sum_laws::backed(v.count as int, top, 4, met.count as int),
        0 <= top,
        5 * top <= i64::MAX,
        0 <= put.count <= top,
    ensures
        size(inspect::chips::<Nano>(v, met, put).count as int) <= 5 * top,
        size(
            met.count * inspect::chips::<Nano>(v, met, put).count - met.count * put.count - BILLION
                * v.count,
        ) <= met.count,
{
    let b = BILLION as int;
    let (x, m, t) = (v.count as int, met.count as int, put.count as int);
    let q = nano::cut_div(x * b, m);
    weigh_laws::lemma_cut_near(x * b, m);
    assert(size(x * b) == b * size(x)) by (nonlinear_arith)
        requires
            0 < b,
            x < 0 ==> size(x) == -x,
            x >= 0 ==> size(x) == x,
            x * b < 0 ==> size(x * b) == -(x * b),
            x * b >= 0 ==> size(x * b) == x * b,
    ;
    let sq = size(q);
    assert(sq <= 4 * top) by (nonlinear_arith)
        requires
            m * sq <= top * 4 * m,
            1 <= m,
    ;
    assert(v.over_spec(met).count == q);
    assert(m * (q + t) == m * q + m * t) by (nonlinear_arith);
}

/// Values that are backed less than fourfold are backed fourfold.
pub(crate) proof fn lemma_backed_fourfold(v: int, top: int, over: int, met: int)
    requires
        zero_sum_laws::backed(v, top, over, met),
        0 <= over <= 4,
        0 <= top,
        0 <= met,
    ensures
        zero_sum_laws::backed(v, top, 4, met),
{
    assert(top * over * met <= top * 4 * met) by (nonlinear_arith)
        requires
            0 <= over <= 4,
            0 <= top,
            0 <= met,
    ;
}

/// A value that next to no reach meets weighs next to nothing.
pub(crate) proof fn lemma_unmet(v: int, top: int, met: int, put: int)
    requires
        zero_sum_laws::backed(v, top, 4, met),
        0 <= met <= 1,
        0 <= put <= top,
    ensures
        size(met * put + BILLION * v) <= 5 * top,
{
    assert(top * 4 * met <= 4 * top && 0 <= met * put <= top) by (nonlinear_arith)
        requires
            0 <= met <= 1,
            0 <= put <= top,
    ;
    let b = BILLION as int;
    assert(size(b * v) == b * size(v)) by (nonlinear_arith)
        requires
            0 < b,
            v < 0 ==> size(v) == -v,
            v >= 0 ==> size(v) == v,
            b * v < 0 ==> size(b * v) == -(b * v),
            b * v >= 0 ==> size(b * v) == b * v,
    ;
}

/// One action of a mixture, per unit of met reach.
proof fn lemma_mixed_term(share: Nano, v: Nano, met: Nano, top: int, put: Nano, part: int)
    requires
        0 <= share.count <= BILLION,
        1 <= met.count,
        zero_sum_laws::backed(v.count as int, top, 4, met.count as int),
        0 <= top,
        5 * top <= i64::MAX,
        0 <= put.count <= top,
        part == nano::cut_div(share.count * v.count, BILLION as int),
    ensures
        ({
            let t = share.times_spec(inspect::chips::<Nano>(v, met, put)).count as int;
            &&& BILLION * size(t) <= share.count * (5 * top)
            &&& size(
                BILLION * (met.count * t) - BILLION * (BILLION * part) - share.count * (met.count
                    * put.count),
            ) <= 2 * (BILLION * met.count) + BILLION * BILLION
        }),
{
    let b = BILLION as int;
    let c = inspect::chips::<Nano>(v, met, put);
    let (s, x, m, p, y) = (
        share.count as int,
        v.count as int,
        met.count as int,
        put.count as int,
        c.count as int,
    );
    lemma_per_unit(v, met, top, put);
    let z = s * y;
    assert(size(z) == s * size(y)) by (nonlinear_arith)
        requires
            z == s * y,
            0 <= s,
            y < 0 ==> size(y) == -y,
            y >= 0 ==> size(y) == y,
            z < 0 ==> size(z) == -z,
            z >= 0 ==> size(z) == z,
    ;
    let sy = size(y);
    assert(s * sy <= s * (5 * top) && s * (5 * top) <= i64::MAX * b) by (nonlinear_arith)
        requires
            0 <= s <= b,
            0 <= sy <= 5 * top,
            5 * top <= i64::MAX,
    ;
    weigh_laws::lemma_times_near(share, c, i64::MAX as int);
    let t = nano::cut_div(z, b);
    weigh_laws::lemma_cut_near(z, b);
    weigh_laws::lemma_cut_near(s * x, b);
    // the product that was cut off, the quotient in it, and the part
    let (e1, e2, e3) = (b * t - s * y, m * y - m * p - b * x, b * part - s * x);
    assert(m * e1 == b * (m * t) - m * (s * y)) by (nonlinear_arith)
        requires
            e1 == b * t - s * y,
    ;
    assert(s * e2 == m * (s * y) - s * (m * p) - b * (s * x)) by (nonlinear_arith)
        requires
            e2 == m * y - m * p - b * x,
    ;
    assert(b * e3 == b * (b * part) - b * (s * x)) by (nonlinear_arith)
        requires
            e3 == b * part - s * x,
    ;
    assert(size(m * e1) <= b * m && size(s * e2) <= b * m && size(b * e3) <= b * b)
        by (nonlinear_arith)
        requires
            -b <= e1 <= b,
            -m <= e2 <= m,
            -b <= e3 <= b,
            0 <= s <= b,
            1 <= m,
            0 < b,
            size(m * e1) == m * e1 || size(m * e1) == -(m * e1),
            size(s * e2) == s * e2 || size(s * e2) == -(s * e2),
            size(b * e3) == b * e3 || size(b * e3) == -(b * e3),
    ;
}

/// The shown value of a hand that acts, per unit of met reach.
proof fn lemma_mixed_shown(
    s: Solver<Nano>,
    at: Place<Nano>,
    p: int,
    i: int,
    top: int,
    met: Nano,
    k: int,
)
    requires
        response_laws::arrives(s, at.idx, p, at.reach(1 - p), at.dealt, i),
        zero_sum_laws::fair_play(s, top),
        zero_sum_laws::bearable(at.reach(1 - p), top),
        5 * top <= i64::MAX,
        s.node(at.idx).kind == tree::KIND_ACTION,
        s.node(at.idx).player == p,
        met.count == zero_sum_laws::meets(s, p, at.reach(1 - p), i),
        1 <= met.count,
        0 <= k <= s.node(at.idx).num_children,
    ensures
        ({
            let n = s.node(at.idx);
            let shares = strategy::column(
                s.played(at.idx),
                n.num_children as int,
                s.nh(p),
                i,
            );
            let e = inspect::mixed_ev::<Nano>(
                s.played(at.idx),
                s.nh(p),
                i,
                s.action_worths(false, at, p),
                met,
                n.put[p],
                k,
            ).count as int;
            let w = s.worth_mixing(
                false,
                at.idx,
                p,
                at.reach(1 - p),
                at.dealt,
                k as nat,
            )[i].count as int;
            let u = play_laws::counted(shares.take(k));
            &&& BILLION * size(e) <= u * (5 * top)
            &&& 0 <= u <= BILLION
            &&& size(
                BILLION * (met.count * e) - BILLION * (BILLION * w) - u * (met.count
                    * n.put[p].count),
            ) <= k * (2 * (BILLION * met.count) + BILLION * BILLION)
        }),
    decreases k,
{
    let idx = at.idx;
    let n = s.node(idx);
    let b = BILLION as int;
    let reach = at.reach(1 - p);
    let put = n.put[p];
    s.lemma_decision(idx);
    let na = n.num_children as int;
    let shares = strategy::column(s.played(idx), na, s.nh(p), i);
    assert(play_laws::share_one(shares));
    play_laws::lemma_counted_bound(shares);
    play_laws::lemma_taken_bound(shares, k);
    assert(nano::ten_to(0) == 1);
    assert(zero_sum_laws::evens_out(s.spot.tree.nodes@[idx], top));
    let unit = 2 * (b * met.count) + b * b;
    let stake = met.count * put.count;
    if k > 0 {
        let a = k - 1;
        lemma_mixed_shown(s, at, p, i, top, met, k - 1);
        zero_sum_laws::lemma_backed_mixing(s, idx, p, reach, at.dealt, i, k as nat, top);
        assert(zero_sum_laws::mixes_up(s, idx, p, reach, at.dealt, i, a, top));
        let cfvs = s.action_worths(false, at, p);
        let v = cfvs[a][i];
        assert(idx < s.child(idx, a) < s.spot.tree.nodes@.len());
        assert(cfvs[a] == s.worth_below(false, idx, a, p, reach, at.dealt));
        let share = shares[a];
        assert(share == s.played(idx)[strategy::cell(s.nh(p), a, i)]);
        let part = nano::cut_div(share.count * v.count, b);
        lemma_backed_fourfold(
            v.count as int,
            top,
            zero_sum_laws::times_over(n.street as int),
            met.count as int,
        );
        lemma_mixed_term(share, v, met, top, put, part);
        let t = share.times_spec(inspect::chips::<Nano>(v, met, put)).count as int;
        assert(shares.take(k).drop_last() =~= shares.take(a));
        let (u0, u1) = (play_laws::counted(shares.take(a)), play_laws::counted(shares.take(k)));
        assert(u1 == u0 + share.count);
        let e0 = inspect::mixed_ev::<Nano>(
            s.played(idx),
            s.nh(p),
            i,
            cfvs,
            met,
            put,
            a,
        ).count as int;
        let w0 = s.worth_mixing(false, idx, p, reach, at.dealt, a as nat)[i].count as int;
        let sum = e0 + t;
        let five = 5 * top;
        assert(b * size(sum) <= u1 * five) by (nonlinear_arith)
            requires
                b * size(e0) <= u0 * five,
                b * size(t) <= share.count * five,
                u1 == u0 + share.count,
                size(sum) <= size(e0) + size(t),
                0 < b,
        ;
        assert(size(sum) <= five) by (nonlinear_arith)
            requires
                b * size(sum) <= u1 * five,
                u1 <= b,
                0 <= five,
                0 < b,
        ;
        let (m, c) = (met.count as int, share.count as int);
        assert(b * (m * (e0 + t)) == b * (m * e0) + b * (m * t)) by (nonlinear_arith);
        assert(b * (b * (w0 + part)) == b * (b * w0) + b * (b * part)) by (nonlinear_arith);
        assert((u0 + c) * stake == u0 * stake + c * stake) by (nonlinear_arith);
        assert(k * unit == a * unit + unit) by (nonlinear_arith)
            requires
                k == a + 1,
        ;
    } else {
        assert(shares.take(0) =~= Seq::<Nano>::empty());
        assert(b * (met.count * 0) == 0 && b * (b * 0) == 0 && 0 * stake == 0 && 0 * unit == 0)
            by (nonlinear_arith);
    }
}

/// What a hand is shown to expect, times the reach that it meets; nothing
/// where it is shown nothing.
pub open spec fn shown_share(h: HandView<Nano>) -> int {
    match h.ev {
        Some(e) => h.valid.count * e.count,
        None => 0,
    }
}

/// What a hand is shown is near what it is worth and what the player has put
/// in.
proof fn lemma_shown_near(
    s: Solver<Nano>,
    at: Place<Nano>,
    p: int,
    i: int,
    top: int,
    h: HandView<Nano>,
)
    requires
        response_laws::arrives(s, at.idx, p, at.reach(1 - p), at.dealt, i),
        zero_sum_laws::fair_play(s, top),
        zero_sum_laws::bearable(at.reach(1 - p), top),
        5 * top <= i64::MAX,
        s.hand_shown(at, p, i, h),
    ensures
        ({
            let m = zero_sum_laws::meets(s, p, at.reach(1 - p), i);
            let w = s.worth(false, at.idx, p, at.reach(1 - p), at.dealt)[i].count;
            &&& h.valid.count == m
            &&& 0 <= m
            &&& size(
                BILLION * shown_share(h) - BILLION * (m * s.node(at.idx).put[p].count + BILLION
                    * w),
            ) <= blur(roundings(s, at.idx), top, m)
        }),
{
    let n = s.node(at.idx);
    let b = BILLION as int;
    let reach = at.reach(1 - p);
    let m = zero_sum_laws::meets(s, p, reach, i);
    let w = s.worth(false, at.idx, p, reach, at.dealt)[i];
    let put = n.put[p];
    let na = roundings(s, at.idx);
    removal_laws::law_met_reach_is_exact(s, p, reach, i);
    zero_sum_laws::law_values_are_backed(s, at.idx, p, reach, at.dealt, i, top);
    lemma_backed_fourfold(
        w.count as int,
        top,
        zero_sum_laws::times_over(tree_laws::street_reached(n)),
        m,
    );
    assert(zero_sum_laws::evens_out(s.spot.tree.nodes@[at.idx], top));
    assert(tree_laws::node_sound(s.spot.tree.arena(), s.spot.board_mask, at.idx));
    assert(nano::ten_to(9) == 1_000_000_000) by {
        reveal_with_fuel(nano::ten_to, 10);
    }
    assert(Nano::decimal_spec(1, 9).count == 1);
    lemma_blur(na, top, m);
    let met = h.valid;
    let base = m * put.count + b * w.count;
    if m <= 1 {
        lemma_unmet(w.count as int, top, m, put.count as int);
        assert(h.ev is None);
        assert(size(b * 0 - b * base) <= 5 * b * top) by (nonlinear_arith)
            requires
                -(5 * top) <= base <= 5 * top,
                0 < b,
                size(b * 0 - b * base) == b * 0 - b * base || size(b * 0 - b * base) == b * base
                    - b * 0,
        ;
    } else if s.acts(at.idx, p) {
        s.lemma_decision(at.idx);
        lemma_mixed_shown(s, at, p, i, top, met, na);
        let e = h.ev->Some_0.count as int;
        let shares = strategy::column(s.played(at.idx), na, s.nh(p), i);
        assert(play_laws::share_one(shares));
        assert(shares.take(na) =~= shares);
        let u = play_laws::counted(shares);
        let stake = m * put.count;
        assert(0 <= stake <= m * top) by (nonlinear_arith)
            requires
                stake == m * put.count,
                0 <= put.count <= top,
                0 <= m,
        ;
        assert(size(u * stake - b * stake) <= na * (m * top)) by (nonlinear_arith)
            requires
                b - na < u <= b,
                0 <= stake <= m * top,
                0 <= na,
                size(u * stake - b * stake) == u * stake - b * stake || size(
                    u * stake - b * stake,
                ) == b * stake - u * stake,
        ;
        assert(b * (stake + b * w.count) == b * stake + b * (b * w.count)) by (nonlinear_arith);
        assert(na * (2 * (b * m) + b * b) + na * (m * top) == na * (2 * (b * m) + b * b + m * top))
            by (nonlinear_arith);
    } else {
        lemma_per_unit(w, met, top, put);
        let e = h.ev->Some_0.count as int;
        let x = m * e - base;
        assert(size(x) <= m);
        assert(size(b * (m * e) - b * base) <= b * m) by (nonlinear_arith)
            requires
                -m <= x <= m,
                x == m * e - base,
                0 < b,
                size(b * (m * e) - b * base) == b * (m * e) - b * base || size(
                    b * (m * e) - b * base,
                ) == b * base - b * (m * e),
        ;
    }
}

/// What a player's hands are shown to expect, all together.
proof fn lemma_player_near(
    s: Solver<Nano>,
    at: Place<Nano>,
    p: int,
    top: int,
    hands: Seq<HandView<Nano>>,
)
    requires
        zero_sum_laws::both_arrive(s, at.idx, at.oop, at.ip, at.dealt, top),
        5 * top <= i64::MAX,
        0 <= p < 2,
        hands.len() == s.nh(p),
        forall|i: int| 0 <= i < hands.len() ==> s.hand_shown(at, p, i, #[trigger] hands[i]),
    ensures
        ({
            let m = weight(hands, s.nh(p));
            let d = weigh_laws::dot(
                at.reach(p),
                s.worth(false, at.idx, p, at.reach(1 - p), at.dealt),
                s.nh(p),
            );
            let na = roundings(s, at.idx);
            &&& m == weigh_laws::weighed(
                at.reach(p),
                s.nh(p),
                |i: int| zero_sum_laws::meets(s, p, at.reach(1 - p), i),
            )
            &&& 0 <= m
            &&& size(
                BILLION * expected(hands, s.nh(p)) - BILLION * (m * s.node(at.idx).put[p].count)
                    - BILLION * (BILLION * d),
            ) <= na * (2 * BILLION + top) * m + (na * (BILLION * BILLION) + 5 * BILLION * top)
                * play_laws::counted(at.reach(p))
        }),
{
    let n = s.nh(p);
    let b = BILLION as int;
    let own = at.reach(p);
    let reach = at.reach(1 - p);
    let w = s.worth(false, at.idx, p, reach, at.dealt);
    let put = s.node(at.idx).put[p].count as int;
    let na = roundings(s, at.idx);
    let f = |i: int| zero_sum_laws::meets(s, p, reach, i);
    let v = |i: int| w[i].count as int;
    let x = |i: int| shown_share(hands[i]);
    let one = |i: int| 1int;
    let y = |i: int| put * f(i) + b * v(i);
    let shown = |i: int| b * x(i) + 0 * x(i);
    let worth = |i: int| b * y(i) + 0 * y(i);
    let (k1, k2) = (na * (2 * b + top), na * (b * b) + 5 * b * top);
    let e = |i: int| k1 * f(i) + k2 * one(i);
    assert forall|i: int| 0 <= i < n implies size(#[trigger] shown(i) - worth(i)) <= e(i) by {
        assert(s.hand_shown(at, p, i, hands[i]));
        lemma_shown_near(s, at, p, i, top, hands[i]);
        let m = f(i);
        assert(m * put == put * m) by (nonlinear_arith);
        assert(y(i) == m * put + b * v(i));
        assert(blur(na, top, m) == k1 * m + k2 * 1);
        assert(0 * x(i) == 0 && 0 * y(i) == 0);
        assert(shown(i) - worth(i) == b * x(i) - b * y(i));
    }
    assert forall|i: int| 0 <= i < n implies hands[i].reach == own[i] && (
    #[trigger] hands[i]).valid.count == f(i) && 0 <= f(i) by {
        assert(s.hand_shown(at, p, i, hands[i]));
        lemma_shown_near(s, at, p, i, top, hands[i]);
    }
    lemma_view_sums(hands, own, n, f);
    weigh_laws::lemma_weighed_within(own, n, shown, worth, e);
    weigh_laws::lemma_weighed_linear(own, n, x, x, shown, b, 0);
    weigh_laws::lemma_weighed_linear(own, n, y, y, worth, b, 0);
    weigh_laws::lemma_weighed_linear(own, n, f, v, y, put, b);
    weigh_laws::lemma_weighed_linear(own, n, f, one, e, k1, k2);
    lemma_weighed_ones(own, n);
    assert(own.take(n) =~= own);
    let (m, d) = (weigh_laws::weighed(own, n, f), weigh_laws::weighed(own, n, v));
    assert(b * (put * m + b * d) == b * (m * put) + b * (b * d)) by (nonlinear_arith);
    assert(weigh_laws::weighed(own, n, one) == play_laws::counted(own)) by {
        weigh_laws::lemma_weighed_same(own, n, one, |i: int| 1);
    }
}

/// The sums over a view, as sums over reach.
proof fn lemma_view_sums(
    hands: Seq<HandView<Nano>>,
    own: Seq<Nano>,
    n: int,
    f: spec_fn(int) -> int,
)
    requires
        n <= hands.len(),
        n <= own.len(),
        play_laws::none_negative(own),
        forall|i: int|
            0 <= i < n ==> hands[i].reach == own[i] && (#[trigger] hands[i]).valid.count == f(i)
                && 0 <= f(i),
    ensures
        expected(hands, n) == weigh_laws::weighed(own, n, |i: int| shown_share(hands[i])),
        weight(hands, n) == weigh_laws::weighed(own, n, f),
        0 <= weight(hands, n),
    decreases n,
{
    if n > 0 {
        lemma_view_sums(hands, own, n - 1, f);
        assert(hands[n - 1].reach == own[n - 1]);
        let (r, m) = (own[n - 1].count as int, f(n - 1));
        assert(0 <= r * m) by (nonlinear_arith)
            requires
                0 <= r,
                0 <= m,
        ;
    }
}

/// Law: where no rake is taken, the expected values that a node's view shows
/// share the pot between the players. Both ranges weigh the same, each hand by
/// its reach times the reach that it meets, and their averages add up to what
/// both have put in, up to rounding.
pub proof fn law_shown_values_share_the_pot(
    s: Solver<Nano>,
    way: Seq<Step>,
    v: NodeView<Nano>,
    top: int,
)
    requires
        s.walked(way) is Ok,
        s.node_shown(way, v),
        zero_sum_laws::fair_play(s, top),
        zero_sum_laws::bearable(s.walked(way)->Ok_0.oop, top),
        zero_sum_laws::bearable(s.walked(way)->Ok_0.ip, top),
        5 * top <= i64::MAX,
    ensures
        ({
            let at = s.walked(way)->Ok_0;
            let (h0, h1) = (v.players[0].hands@, v.players[1].hands@);
            let m = weight(h0, s.nh(0));
            let shown = expected(h0, s.nh(0)) + expected(h1, s.nh(1));
            let pot = v.put[0].count + v.put[1].count;
            let na = roundings(s, at.idx);
            &&& weight(h1, s.nh(1)) == m
            &&& 0 <= m
            &&& BILLION * size(shown - pot * m) <= BILLION * (BILLION * zero_sum_laws::drift(
                s,
                at.idx,
                at.oop,
                at.ip,
                at.dealt,
            )) + 2 * (na * (2 * BILLION + top) * m) + (na * (BILLION * BILLION) + 5 * BILLION
                * top) * zero_sum_laws::all_reach(at.oop, at.ip)
        }),
{
    let at = s.walked(way)->Ok_0;
    let b = BILLION as int;
    s.lemma_walked(way);
    let (h0, h1) = (v.players[0].hands@, v.players[1].hands@);
    let (r0, r1) = (at.oop, at.ip);
    assert(at.reach(0) == r0 && at.reach(1) == r1);
    lemma_player_near(s, at, 0, top, h0);
    lemma_player_near(s, at, 1, top, h1);
    zero_sum_laws::lemma_meet_alike(s, r0, r1);
    zero_sum_laws::law_what_one_wins_the_other_loses(s, at.idx, r0, r1, at.dealt, top);
    let d0 = weigh_laws::dot(r0, s.worth(false, at.idx, 0, r1, at.dealt), s.nh(0));
    let d1 = weigh_laws::dot(r1, s.worth(false, at.idx, 1, r0, at.dealt), s.nh(1));
    let drift = zero_sum_laws::drift(s, at.idx, r0, r1, at.dealt);
    let m = weight(h0, s.nh(0));
    let (p0, p1) = (v.put[0].count as int, v.put[1].count as int);
    let (e0, e1) = (expected(h0, s.nh(0)), expected(h1, s.nh(1)));
    let na = roundings(s, at.idx);
    let (k1, k2) = (na * (2 * b + top) * m, na * (b * b) + 5 * b * top);
    let (c0, c1) = (play_laws::counted(r0), play_laws::counted(r1));
    assert(k2 * (c0 + c1) == k2 * c0 + k2 * c1) by (nonlinear_arith);
    assert(b * (b * (d0 + d1)) == b * (b * d0) + b * (b * d1)) by (nonlinear_arith);
    let z = e0 + e1 - (p0 + p1) * m;
    assert(b * z == b * e0 + b * e1 - b * (m * p0) - b * (m * p1)) by (nonlinear_arith)
        requires
            z == e0 + e1 - (p0 + p1) * m,
    ;
    let d = d0 + d1;
    assert(size(b * (b * d)) <= b * (b * drift)) by (nonlinear_arith)
        requires
            -drift <= d <= drift,
            0 < b,
            size(b * (b * d)) == b * (b * d) || size(b * (b * d)) == -(b * (b * d)),
    ;
    assert(b * size(z) == size(b * z)) by (nonlinear_arith)
        requires
            0 < b,
            z < 0 ==> size(z) == -z,
            z >= 0 ==> size(z) == z,
            b * z < 0 ==> size(b * z) == -(b * z),
            b * z >= 0 ==> size(b * z) == b * z,
    ;
}

} // verus!
