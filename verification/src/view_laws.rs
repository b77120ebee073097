//! What the views show of a hand, in exact numbers: what each action earns it,
//! what it earns as it is played, and what it would gain.

use crate::cfr::Solver;
use crate::exploit::ExploitHandView;
use crate::inspect;
use crate::inspect::HandView;
use crate::nano;
use crate::nano::{Nano, BILLION};
use crate::num::Num;
use crate::path::{Place, Step};
use crate::play_laws;
use crate::pot_laws;
use crate::removal_laws;
use crate::response_laws;
use crate::share_laws;
use crate::strategy;
use crate::tree;
use crate::tree::KIND_ACTION;
use crate::view;
use crate::view::{ActionView, HistoryStep};
use crate::weigh_laws;
use crate::weigh_laws::size;
use crate::zero_sum_laws;
use vstd::prelude::*;

verus! {

/// Whether a shown value is what a hand is worth per unit of the reach that it
/// meets, with the player's own chips back, up to rounding.
pub open spec fn worth_shown(ev: Nano, worth: Nano, met: int, put: Nano) -> bool {
    size(met * (ev.count - put.count) - BILLION * worth.count) <= met
}

/// Law: what an action is shown to earn a hand is what the hand is worth after
/// that action, per unit of the reach that it meets, with the player's own chips
/// back. It is shown where more than a billionth is met.
pub proof fn law_action_values_are_what_comes_after(
    s: Solver<Nano>,
    at: Place<Nano>,
    p: int,
    i: int,
    top: int,
    h: HandView<Nano>,
    a: int,
)
    requires
        response_laws::arrives(s, at.idx, p, at.reach(1 - p), at.dealt, i),
        zero_sum_laws::fair_play(s, top),
        zero_sum_laws::bearable(at.reach(1 - p), top),
        5 * top <= i64::MAX,
        s.hand_shown(at, p, i, h),
        s.acts(at.idx, p),
        0 <= a < s.node(at.idx).num_children,
    ensures
        h.evs is Some,
        h.evs->Some_0@.len() == s.node(at.idx).num_children,
        ({
            let m = zero_sum_laws::meets(s, p, at.reach(1 - p), i);
            let ev = h.evs->Some_0@[a];
            let w = s.worth(false, s.child(at.idx, a), p, at.reach(1 - p), at.dealt)[i];
            &&& ev is Some <==> m > 1
            &&& m > 1 ==> worth_shown(ev->Some_0, w, m, s.node(at.idx).put[p])
            &&& m > 1 ==> size(ev->Some_0.count as int) <= 5 * top
        }),
{
    let idx = at.idx;
    let n = s.node(idx);
    let reach = at.reach(1 - p);
    let m = zero_sum_laws::meets(s, p, reach, i);
    removal_laws::law_met_reach_is_exact(s, p, reach, i);
    s.lemma_decision(idx);
    assert(nano::ten_to(9) == 1_000_000_000) by {
        reveal_with_fuel(nano::ten_to, 10);
    }
    assert(Nano::decimal_spec(1, 9).count == 1);
    assert(zero_sum_laws::evens_out(s.spot.tree.nodes@[idx], top));
    zero_sum_laws::lemma_backed_mixing(s, idx, p, reach, at.dealt, i, (a + 1) as nat, top);
    assert(zero_sum_laws::mixes_up(s, idx, p, reach, at.dealt, i, a, top));
    let cfvs = s.action_worths(false, at, p);
    let v = cfvs[a][i];
    assert(idx < s.child(idx, a) < s.spot.tree.nodes@.len());
    assert(cfvs[a] == s.worth_below(false, idx, a, p, reach, at.dealt));
    zero_sum_laws::lemma_sides(s, p, reach, at.dealt, i);
    share_laws::lemma_backed_fourfold(
        v.count as int,
        top,
        zero_sum_laws::times_over(n.street as int),
        m,
    );
    if m > 1 {
        let met = s.met(p, reach)[i];
        assert(met.count == m);
        share_laws::lemma_per_unit(v, met, top, n.put[p]);
        let e = inspect::chips::<Nano>(v, met, n.put[p]);
        let (x, y) = (e.count as int, n.put[p].count as int);
        assert(m * (x - y) == m * x - m * y) by (nonlinear_arith);
    }
}

/// What the first `k` actions earn a hand, each as often as it is played.
pub open spec fn mix_of(shares: Seq<Nano>, evs: Seq<Option<Nano>>, k: int) -> int
    decreases k,
{
    if k <= 0 {
        0
    } else {
        mix_of(shares, evs, k - 1) + shares[k - 1].count * evs[k - 1]->Some_0.count
    }
}

proof fn lemma_mix(
    s: Solver<Nano>,
    at: Place<Nano>,
    p: int,
    i: int,
    top: int,
    h: HandView<Nano>,
    k: int,
)
    requires
        response_laws::arrives(s, at.idx, p, at.reach(1 - p), at.dealt, i),
        zero_sum_laws::fair_play(s, top),
        zero_sum_laws::bearable(at.reach(1 - p), top),
        5 * top <= i64::MAX,
        s.hand_shown(at, p, i, h),
        s.acts(at.idx, p),
        0 <= k <= s.node(at.idx).num_children,
        zero_sum_laws::meets(s, p, at.reach(1 - p), i) > 1,
    ensures
        ({
            let e = inspect::mixed_ev::<Nano>(
                s.played(at.idx),
                s.nh(p),
                i,
                s.action_worths(false, at, p),
                s.met(p, at.reach(1 - p))[i],
                s.node(at.idx).put[p],
                k,
            ).count as int;
            let u = play_laws::counted(h.strategy->Some_0@.take(k));
            &&& BILLION * size(e) <= u * (5 * top)
            &&& size(BILLION * e - mix_of(h.strategy->Some_0@, h.evs->Some_0@, k)) <= k * BILLION
        }),
    decreases k,
{
    let b = BILLION as int;
    let n = s.node(at.idx);
    let shares = h.strategy->Some_0@;
    let na = n.num_children as int;
    s.lemma_decision(at.idx);
    assert(shares == strategy::column(s.played(at.idx), na, s.nh(p), i));
    assert(play_laws::share_one(shares));
    play_laws::lemma_taken_bound(shares, k);
    assert(nano::ten_to(0) == 1);
    if k > 0 {
        let a = k - 1;
        lemma_mix(s, at, p, i, top, h, a);
        law_action_values_are_what_comes_after(s, at, p, i, top, h, a);
        let cfvs = s.action_worths(false, at, p);
        let met = s.met(p, at.reach(1 - p))[i];
        removal_laws::law_met_reach_is_exact(s, p, at.reach(1 - p), i);
        let c = inspect::chips::<Nano>(cfvs[a][i], met, n.put[p]);
        assert(h.evs->Some_0@[a] == Some(c));
        let share = shares[a];
        assert(share == s.played(at.idx)[strategy::cell(s.nh(p), a, i)]);
        let (x, y) = (share.count as int, c.count as int);
        let five = 5 * top;
        let z = x * y;
        assert(0 <= x <= b) by {
            play_laws::lemma_counted_bound(shares);
        }
        assert(size(z) <= x * five && x * five <= b * five) by (nonlinear_arith)
            requires
                z == x * y,
                0 <= x <= b,
                -five <= y <= five,
                size(z) == z || size(z) == -z,
        ;
        weigh_laws::lemma_times_near(share, c, five);
        weigh_laws::lemma_cut_near(z, b);
        let t = share.times_spec(c).count as int;
        assert(shares.take(k).drop_last() =~= shares.take(a));
        let (u0, u1) = (play_laws::counted(shares.take(a)), play_laws::counted(shares.take(k)));
        assert(u1 == u0 + x);
        let e0 = inspect::mixed_ev::<Nano>(
            s.played(at.idx),
            s.nh(p),
            i,
            cfvs,
            met,
            n.put[p],
            a,
        ).count as int;
        let sum = e0 + t;
        assert(b * size(sum) <= u1 * five) by (nonlinear_arith)
            requires
                b * size(e0) <= u0 * five,
                b * size(t) <= x * five,
                u1 == u0 + x,
                size(sum) <= size(e0) + size(t),
                0 < b,
        ;
        assert(u1 <= b) by {
            play_laws::lemma_counted_bound(shares);
        }
        assert(size(sum) <= five) by (nonlinear_arith)
            requires
                b * size(sum) <= u1 * five,
                u1 <= b,
                0 <= five,
                0 < b,
        ;
    } else {
        assert(shares.take(0) =~= Seq::<Nano>::empty());
        assert(0 * (5 * top) == 0);
    }
}

/// Law: what a hand that acts is shown to expect is what its actions are shown
/// to earn, each as often as the hand is shown to take it, up to rounding.
pub proof fn law_shown_values_mix_the_actions(
    s: Solver<Nano>,
    at: Place<Nano>,
    p: int,
    i: int,
    top: int,
    h: HandView<Nano>,
)
    requires
        response_laws::arrives(s, at.idx, p, at.reach(1 - p), at.dealt, i),
        zero_sum_laws::fair_play(s, top),
        zero_sum_laws::bearable(at.reach(1 - p), top),
        5 * top <= i64::MAX,
        s.hand_shown(at, p, i, h),
        s.acts(at.idx, p),
    ensures
        h.strategy is Some,
        h.evs is Some,
        h.ev is Some <==> zero_sum_laws::meets(s, p, at.reach(1 - p), i) > 1,
        h.ev is Some ==> ({
            let na = s.node(at.idx).num_children as int;
            size(
                BILLION * h.ev->Some_0.count - mix_of(h.strategy->Some_0@, h.evs->Some_0@, na),
            ) <= na * BILLION
        }),
{
    removal_laws::law_met_reach_is_exact(s, p, at.reach(1 - p), i);
    assert(nano::ten_to(9) == 1_000_000_000) by {
        reveal_with_fuel(nano::ten_to, 10);
    }
    assert(Nano::decimal_spec(1, 9).count == 1);
    if zero_sum_laws::meets(s, p, at.reach(1 - p), i) > 1 {
        lemma_mix(s, at, p, i, top, h, s.node(at.idx).num_children as int);
    }
}

/// Whether a value per unit of met reach stays in range, with the chips back.
pub open spec fn in_range(worth: Nano, met: int, put: Nano) -> bool {
    &&& 0 <= put.count
    &&& BILLION * (2 * size(worth.count as int)) <= met * (i64::MAX - 2 * put.count)
}

proof fn lemma_ev_of(v: Nano, met: Nano, put: Nano)
    requires
        met.count > 1,
        in_range(v, met.count as int, put),
    ensures
        inspect::ev_of::<Nano>(v, met, put) is Some,
        worth_shown(inspect::ev_of::<Nano>(v, met, put)->Some_0, v, met.count as int, put),
        2 * size(inspect::ev_of::<Nano>(v, met, put)->Some_0.count as int) <= i64::MAX,
{
    let b = BILLION as int;
    assert(nano::ten_to(9) == 1_000_000_000) by {
        reveal_with_fuel(nano::ten_to, 10);
    }
    assert(Nano::decimal_spec(1, 9).count == 1);
    let (x, m, t) = (v.count as int, met.count as int, put.count as int);
    let y = x * b;
    let sx = size(x);
    weigh_laws::lemma_cut_near(y, m);
    let q = nano::cut_div(y, m);
    let sq = size(q);
    assert(size(y) == b * sx) by (nonlinear_arith)
        requires
            y == x * b,
            0 < b,
            x < 0 ==> sx == -x,
            x >= 0 ==> sx == x,
            y < 0 ==> size(y) == -y,
            y >= 0 ==> size(y) == y,
    ;
    let most = i64::MAX - 2 * t;
    assert(2 * sq <= most) by (nonlinear_arith)
        requires
            m * sq <= b * sx,
            b * (2 * sx) <= m * most,
            0 < m,
    ;
    let e = inspect::ev_of::<Nano>(v, met, put)->Some_0;
    assert(e.count == q + t);
    assert(m * (e.count - t) == m * q) by {
        assert(e.count - t == q);
    }
}

/// Law: what a best response and the current play are shown to earn a hand is
/// what the hand is worth by either, per unit of the reach that its stand-in
/// meets, with the player's own chips back. The gain is the difference; no play
/// gains less than nothing, up to rounding.
pub proof fn law_gains_are_what_best_play_adds(
    s: Solver<Nano>,
    at: Place<Nano>,
    perm: [u8; 4],
    p: int,
    i: int,
    v: ExploitHandView<Nano>,
)
    requires
        response_laws::player_shares_one(s, p),
        removal_laws::summable(at.reach(1 - p)),
        s.exploit_hand_shown(at, perm, p, i, v),
        response_laws::arrives(
            s,
            at.idx,
            p,
            at.reach(1 - p),
            at.dealt,
            s.stand_in(p, perm, i),
        ),
        ({
            let j = s.stand_in(p, perm, i);
            let put = s.node(at.idx).put[p];
            let m = zero_sum_laws::meets(s, p, at.reach(1 - p), j);
            &&& m > 1
            &&& in_range(s.worth(true, at.idx, p, at.reach(1 - p), at.dealt)[j], m, put)
            &&& in_range(s.worth(false, at.idx, p, at.reach(1 - p), at.dealt)[j], m, put)
        }),
    ensures
        v.br_ev is Some,
        v.cur_ev is Some,
        v.gain is Some,
        v.gain->Some_0.count == v.br_ev->Some_0.count - v.cur_ev->Some_0.count,
        ({
            let j = s.stand_in(p, perm, i);
            let reach = at.reach(1 - p);
            let put = s.node(at.idx).put[p];
            let m = zero_sum_laws::meets(s, p, reach, j);
            &&& worth_shown(v.br_ev->Some_0, s.worth(true, at.idx, p, reach, at.dealt)[j], m, put)
            &&& worth_shown(v.cur_ev->Some_0, s.worth(false, at.idx, p, reach, at.dealt)[j], m, put)
            &&& m * v.gain->Some_0.count >= -(BILLION * response_laws::room(
                s,
                at.idx,
                p,
                reach,
                at.dealt,
                j,
            ) + 2 * m)
        }),
{
    let b = BILLION as int;
    let j = s.stand_in(p, perm, i);
    let reach = at.reach(1 - p);
    let put = s.node(at.idx).put[p];
    let m = zero_sum_laws::meets(s, p, reach, j);
    removal_laws::law_met_reach_is_exact(s, p, reach, j);
    let met = s.met(p, reach)[j];
    assert(met.count == m);
    let best = s.worth(true, at.idx, p, reach, at.dealt)[j];
    let now = s.worth(false, at.idx, p, reach, at.dealt)[j];
    lemma_ev_of(best, met, put);
    lemma_ev_of(now, met, put);
    response_laws::law_best_play_is_no_worse(s, at.idx, p, reach, at.dealt, j);
    let (e, c, t) = (
        v.br_ev->Some_0.count as int,
        v.cur_ev->Some_0.count as int,
        put.count as int,
    );
    let g = v.gain->Some_0.count as int;
    assert(g == e - c);
    let off = response_laws::room(s, at.idx, p, reach, at.dealt, j);
    let (x, y) = (best.count as int, now.count as int);
    assert(m * g == m * (e - t) - m * (c - t)) by (nonlinear_arith)
        requires
            g == e - c,
    ;
    assert(b * y <= b * x + b * off) by (nonlinear_arith)
        requires
            y <= x + off,
            0 < b,
    ;
}

// ---------------------------------------------------------------------------
// Stops and actions
// ---------------------------------------------------------------------------

/// Whether contributions of a node are affordable in a game that adds up in
/// range.
pub open spec fn payable(s: Solver<Nano>, idx: int) -> bool {
    &&& pot_laws::roomy(s.spot.tree.config)
    &&& pot_laws::affordable(s.spot.tree.config, s.node(idx).put)
    &&& s.node(idx).put[0].count + s.node(idx).put[1].count <= i64::MAX
}

/// Law: a history has one stop for every step, and one more. Each tells the pot,
/// which is what both players had put in, and where a player acts that player's
/// stack, which is what it had left.
pub proof fn law_histories_tell_pots_and_stacks(
    s: Solver<Nano>,
    way: Seq<Step>,
    h: Seq<HistoryStep<Nano>>,
    i: int,
)
    requires
        s.history_shown(way, h),
        0 <= i <= way.len(),
        payable(s, s.node_after(way, i)),
        s.node(s.node_after(way, i)).player < 2,
        i < way.len() && way[i] is Action ==> s.node(s.node_after(way, i)).kind == KIND_ACTION,
    ensures
        h.len() == way.len() + 1,
        ({
            let n = s.node(s.node_after(way, i));
            let acts = n.kind == KIND_ACTION && (i < way.len() ==> way[i] is Action);
            &&& h[i].pot.count == n.put[0].count + n.put[1].count
            &&& acts ==> h[i].player == Some(n.player) && h[i].stack.count == pot_laws::whole_stack(
                s.spot.tree.config,
            ) - n.put[n.player as int].count
            &&& !acts ==> h[i].player is None && h[i].stack.count == 0
            &&& h[i].chosen == if i < way.len() && way[i] is Action {
                Some(way[i]->index)
            } else {
                None
            }
        }),
{
    let n = s.node(s.node_after(way, i));
    assert(nano::ten_to(0) == 1);
    pot_laws::lemma_behind(s.spot.tree.config, n.put[0]);
    pot_laws::lemma_behind(s.spot.tree.config, n.put[1]);
    if i < way.len() {
        assert(s.passed_shown(s.node_after(way, i), way[i], h[i]));
    } else {
        assert(h[i] == h.last());
    }
}

/// Law: a bet or raise is told to be all-in where it leaves the player less than
/// a millionth of a chip.
pub proof fn law_all_in_is_told(s: Solver<Nano>, idx: int, a: int)
    requires
        payable(s, s.child(idx, a)),
        s.node(idx).player < 2,
    ensures
        ({
            let act = s.action_at(idx, a);
            let left = pot_laws::whole_stack(s.spot.tree.config) - s.node(
                s.child(idx, a),
            ).put[s.node(idx).player as int].count;
            s.goes_all_in(idx, a) <==> (act is Bet || act is Raise) && left < 1000
        }),
{
    let put = s.node(s.child(idx, a)).put;
    pot_laws::lemma_behind(s.spot.tree.config, put[0]);
    pot_laws::lemma_behind(s.spot.tree.config, put[1]);
    assert(nano::ten_to(0) == 1);
    assert(nano::ten_to(6) == 1_000_000) by {
        reveal_with_fuel(nano::ten_to, 7);
    }
    assert(Nano::decimal_spec(1, 6).count == 1000);
}

/// Law: a bet is called by its amount and by what percentage of the pot it is,
/// to the nearest whole percent, which is returned; bets and raises that are
/// all-in are called that.
pub proof fn law_bets_are_called_by_the_pot(
    s: Solver<Nano>,
    idx: int,
    a: int,
    v: ActionView<Nano>,
) -> (pct: Nano)
    requires
        s.action_shown(idx, a, v),
        payable(s, idx),
        s.action_at(idx, a) is Bet || s.action_at(idx, a) is Raise,
        ({
            let pot = s.node(idx).put[0].count + s.node(idx).put[1].count;
            let amount = view::amount_of(s.action_at(idx, a)).count;
            0 < pot && 0 <= amount && 200 * BILLION * amount <= i64::MAX * pot
        }),
    ensures
        ({
            let pot = s.node(idx).put[0].count + s.node(idx).put[1].count;
            let amount = tree::amount_text(v.amount);
            &&& v.amount == view::amount_of(s.action_at(idx, a))
            &&& s.goes_all_in(idx, a) ==> v.label@ == "All-in "@ + amount
            &&& !s.goes_all_in(idx, a) && s.action_at(idx, a) is Raise ==> v.label@ == "Raise "@
                + amount
            &&& !s.goes_all_in(idx, a) && s.action_at(idx, a) is Bet ==> v.label@ == "Bet "@
                + amount + " ("@ + pct.shown_spec() + "%)"@
            &&& size(pct.count * pot - 100 * BILLION * v.amount.count) <= 100 * pot + pot * (BILLION
                / 2)
        }),
{
    let b = BILLION as int;
    let x = v.amount;
    let pot = s.pot_at(idx);
    let k = s.node(idx).put[0].count + s.node(idx).put[1].count;
    assert(pot.count == k);
    assert(nano::ten_to(0) == 1);
    let hundred = Nano::decimal_spec(100, 0);
    assert(hundred.count == 100 * b);
    let y = x.count * b;
    assert(0 <= y && 200 * y <= i64::MAX * k) by (nonlinear_arith)
        requires
            y == x.count * b,
            0 <= x.count,
            0 < b,
            200 * b * x.count <= i64::MAX * k,
    ;
    vstd::arithmetic::div_mod::lemma_fundamental_div_mod(y, k);
    vstd::arithmetic::div_mod::lemma_mod_bound(y, k);
    vstd::arithmetic::div_mod::lemma_div_pos_is_pos(y, k);
    let q = y / k;
    assert(200 * q <= i64::MAX) by (nonlinear_arith)
        requires
            k * q <= y,
            200 * y <= i64::MAX * k,
            0 < k,
    ;
    let ratio = x.over_spec(pot);
    assert(ratio.count == q);
    let z = q * (100 * b);
    assert(z / b == 100 * q && 0 <= z) by (nonlinear_arith)
        requires
            z == q * (100 * b),
            0 < b,
            0 <= q,
    ;
    let up = ratio.times_spec(hundred);
    assert(up.count == 100 * q);
    let pct = up.rounded_spec();
    let w = nano::whole_count(100 * q);
    assert(size(w - 100 * q) <= b / 2 && pct.count == w);
    let r = y % k;
    let e = w - 100 * q;
    assert(size(w * k - 100 * y) <= 100 * k + k * (b / 2)) by (nonlinear_arith)
        requires
            y == k * q + r,
            0 <= r < k,
            e == w - 100 * q,
            -(b / 2) <= e <= b / 2,
            size(w * k - 100 * y) == w * k - 100 * y || size(w * k - 100 * y) == 100 * y - w * k,
    ;
    assert(100 * y == 100 * b * x.count) by (nonlinear_arith)
        requires
            y == x.count * b,
    ;
    pct
}

} // verus!
