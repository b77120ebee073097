//! What players could gain, in exact numbers: a best response takes the best
//! action everywhere, and exploitability counts what both players gain by it.

use crate::cards::Card;
use crate::cfr::Solver;
use crate::nano;
use crate::nano::{Nano, BILLION};
use crate::num;
use crate::num::Num;
use crate::preflop_build;
use crate::preflop_solver;
use crate::preflop_solver::Field;
use crate::preflop_tree;
use crate::removal_laws;
use crate::response_laws;
use crate::solve;
use crate::strategy;
use crate::terminal;
use crate::weigh_laws;
use crate::weigh_laws::size;
use crate::zero_sum_laws;
use vstd::prelude::*;

verus! {

// ---------------------------------------------------------------------------
// Best responses
// ---------------------------------------------------------------------------

/// What hand `i` of player `p` is worth behind action `a` of a decision, under
/// a best response.
pub open spec fn best_behind(
    s: Solver<Nano>,
    idx: int,
    a: int,
    p: int,
    reach: Seq<Nano>,
    dealt: Seq<Card>,
    i: int,
) -> int {
    s.worth(true, s.child(idx, a), p, reach, dealt)[i].count as int
}

proof fn lemma_choosing(
    s: Solver<Nano>,
    idx: int,
    p: int,
    reach: Seq<Nano>,
    dealt: Seq<Card>,
    i: int,
    k: nat,
) -> (a: int)
    requires
        response_laws::arrives(s, idx, p, reach, dealt, i),
        response_laws::player_shares_one(s, p),
        s.decides(idx),
        s.node(idx).player == p,
        1 <= k <= s.node(idx).num_children,
    ensures
        0 <= a < k,
        s.worth_choosing(true, idx, p, reach, dealt, k)[i].count == best_behind(
            s,
            idx,
            a,
            p,
            reach,
            dealt,
            i,
        ),
        forall|x: int|
            0 <= x < k ==> #[trigger] best_behind(s, idx, x, p, reach, dealt, i)
                <= s.worth_choosing(true, idx, p, reach, dealt, k)[i].count,
    decreases k,
{
    s.lemma_decision(idx);
    let c = s.child(idx, k - 1);
    assert(idx < c < s.spot.tree.nodes@.len());
    response_laws::law_best_play_is_no_worse(s, c, p, reach, dealt, i);
    let v = s.worth_below(true, idx, k - 1, p, reach, dealt);
    assert(v == s.worth(true, c, p, reach, dealt));
    if k == 1 {
        0
    } else {
        let a = lemma_choosing(s, idx, p, reach, dealt, i, (k - 1) as nat);
        response_laws::lemma_acting(s, idx, p, reach, dealt, i, (k - 1) as nat);
        let top = s.worth_choosing(true, idx, p, reach, dealt, (k - 1) as nat);
        if top[i].count < v[i].count {
            k - 1
        } else {
            a
        }
    }
}

/// Law: a best response takes the best action. Where a player is free to choose,
/// a hand is worth under a best response what the best of its actions is worth,
/// and so at least what any of them is.
pub proof fn law_best_responses_take_the_best_action(
    s: Solver<Nano>,
    idx: int,
    p: int,
    reach: Seq<Nano>,
    dealt: Seq<Card>,
    i: int,
) -> (a: int)
    requires
        response_laws::arrives(s, idx, p, reach, dealt, i),
        response_laws::player_shares_one(s, p),
        s.decides(idx),
        s.node(idx).player == p,
        !s.locks@.contains_key(idx as u32),
    ensures
        0 <= a < s.node(idx).num_children,
        s.worth(true, idx, p, reach, dealt)[i].count == best_behind(
            s,
            idx,
            a,
            p,
            reach,
            dealt,
            i,
        ),
        forall|x: int|
            0 <= x < s.node(idx).num_children ==> #[trigger] best_behind(
                s,
                idx,
                x,
                p,
                reach,
                dealt,
                i,
            ) <= s.worth(true, idx, p, reach, dealt)[i].count,
{
    s.lemma_decision(idx);
    lemma_choosing(s, idx, p, reach, dealt, i, s.node(idx).num_children as nat)
}

/// Law: the same before the flop, for every seat, class and node.
pub proof fn law_best_responses_take_the_best_action_before_the_flop(
    f: Field<Nano>,
    strat: Seq<Nano>,
    i: int,
    p: int,
    reaches: Seq<Seq<Nano>>,
    h: int,
) -> (a: int)
    requires
        f.wf(),
        0 <= i < f.tree.nodes.len(),
        0 <= p < f.n(),
        0 <= h < 169,
        f.tree.nodes[i].kind == preflop_tree::KIND_ACTION,
        f.tree.nodes[i].actor == p,
    ensures
        0 <= a < f.tree.nodes[i].actions.len(),
        f.worth(strat, i, p, true, reaches)[h].count == best_after(f, strat, i, a, p, reaches, h),
        forall|x: int|
            0 <= x < f.tree.nodes[i].actions.len() ==> #[trigger] best_after(
                f,
                strat,
                i,
                x,
                p,
                reaches,
                h,
            ) <= f.worth(strat, i, p, true, reaches)[h].count,
{
    let nd = f.tree.nodes[i];
    let na = nd.actions.len();
    assert(preflop_build::knot_sound(f.n(), f.tree, i));
    lemma_worth_each(f, strat, i, p, reaches, na);
    let vals = strategy::slice_at(f.worth_below(strat, i, p, true, reaches, na), h);
    assert forall|x: int| 0 <= x < na implies #[trigger] best_after(f, strat, i, x, p, reaches, h)
        == vals[x].count by {}
    let a = lemma_topmost_found(vals);
    assert forall|x: int| 0 <= x < na implies #[trigger] best_after(f, strat, i, x, p, reaches, h)
        <= strategy::topmost(vals).count by {
        response_laws::lemma_topmost(vals, x);
    }
    assert(best_after(f, strat, i, a, p, reaches, h) == vals[a].count);
    a
}

/// What class `h` of seat `p` is worth behind action `a` of a node before the
/// flop, under a best response.
pub open spec fn best_after(
    f: Field<Nano>,
    strat: Seq<Nano>,
    i: int,
    a: int,
    p: int,
    reaches: Seq<Seq<Nano>>,
    h: int,
) -> int {
    f.worth(
        strat,
        f.child(i, a),
        p,
        true,
        preflop_solver::acted(reaches, f.tree.nodes[i].actor as int, f.plays(strat, i), a),
    )[h].count as int
}

proof fn lemma_worth_each(
    f: Field<Nano>,
    strat: Seq<Nano>,
    i: int,
    p: int,
    reaches: Seq<Seq<Nano>>,
    k: nat,
)
    requires
        f.wf(),
        0 <= i < f.tree.nodes.len(),
        f.tree.nodes[i].kind == preflop_tree::KIND_ACTION,
        k <= f.tree.nodes[i].actions.len(),
    ensures
        f.worth_below(strat, i, p, true, reaches, k).len() == k,
        forall|x: int|
            0 <= x < k ==> #[trigger] f.worth_below(strat, i, p, true, reaches, k)[x] == f.worth(
                strat,
                f.child(i, x),
                p,
                true,
                preflop_solver::acted(
                    reaches,
                    f.tree.nodes[i].actor as int,
                    f.plays(strat, i),
                    x,
                ),
            ),
    decreases k,
{
    if k > 0 {
        lemma_worth_each(f, strat, i, p, reaches, (k - 1) as nat);
        assert(preflop_build::knot_sound(f.n(), f.tree, i));
        let c = f.child(i, k - 1);
        assert(i < c < f.tree.nodes.len());
        let before = f.worth_below(strat, i, p, true, reaches, (k - 1) as nat);
        let all = f.worth_below(strat, i, p, true, reaches, k);
        assert forall|x: int| 0 <= x < k implies #[trigger] all[x] == f.worth(
            strat,
            f.child(i, x),
            p,
            true,
            preflop_solver::acted(reaches, f.tree.nodes[i].actor as int, f.plays(strat, i), x),
        ) by {
            if x < k - 1 {
                assert(all[x] == before[x]);
            }
        }
    }
}

proof fn lemma_topmost_found(s: Seq<Nano>) -> (a: int)
    requires
        s.len() > 0,
    ensures
        0 <= a < s.len(),
        strategy::topmost(s).count == s[a].count,
    decreases s.len(),
{
    if s.len() == 1 {
        0
    } else {
        let rest = s.drop_last();
        let a = lemma_topmost_found(rest);
        assert(rest[a] == s[a]);
        if strategy::topmost(rest).count < s.last().count {
            s.len() - 1
        } else {
            a
        }
    }
}

// ---------------------------------------------------------------------------
// What a player wins on average
// ---------------------------------------------------------------------------

/// Whether a player's weights are shares: none is negative or more than one.
pub open spec fn shares(weights: Seq<Nano>) -> bool {
    forall|i: int| 0 <= i < weights.len() ==> 0 <= (#[trigger] weights[i]).count <= BILLION
}

/// A sum of products of weights and values, each cut off.
proof fn lemma_weighed_sum(weights: Seq<Nano>, vals: Seq<Nano>, k: int)
    requires
        shares(weights),
        vals.len() == weights.len(),
        0 <= k <= vals.len(),
        weigh_laws::heft(vals, vals.len() as int) <= i64::MAX,
    ensures
        ({
            let sum = num::total_of(solve::weighed::<Nano>(weights, vals).take(k)).count as int;
            &&& size(sum) <= weigh_laws::heft(vals, k)
            &&& weigh_laws::heft(vals, k) <= i64::MAX
            &&& size(BILLION * sum - weigh_laws::dot(weights, vals, k)) <= k * BILLION
        }),
    decreases k,
{
    let terms = solve::weighed::<Nano>(weights, vals);
    let b = BILLION as int;
    assert(nano::ten_to(0) == 1);
    lemma_heft_grows(vals, k, vals.len() as int);
    if k > 0 {
        lemma_weighed_sum(weights, vals, k - 1);
        assert(terms.take(k).drop_last() =~= terms.take(k - 1));
        let (w, v) = (weights[k - 1], vals[k - 1]);
        let (x, y) = (w.count as int, v.count as int);
        assert(0 <= x <= b);
        zero_sum_laws::lemma_heft_positive(vals, k - 1);
        let z = x * y;
        let m = size(y);
        assert(size(z) <= m * b) by (nonlinear_arith)
            requires
                z == x * y,
                0 <= x <= b,
                m == y && 0 <= y || m == -y && y <= 0,
                size(z) == z || size(z) == -z,
        ;
        weigh_laws::lemma_times_near(w, v, m);
        weigh_laws::lemma_cut_near(z, b);
    } else {
        assert(terms.take(0) =~= Seq::<Nano>::empty());
    }
}

proof fn lemma_heft_grows(vals: Seq<Nano>, k: int, n: int)
    requires
        0 <= k <= n <= vals.len(),
    ensures
        weigh_laws::heft(vals, k) <= weigh_laws::heft(vals, n),
    decreases n,
{
    if k < n {
        lemma_heft_grows(vals, k, n - 1);
    }
}

/// The weight of all deals, from player `p`'s side: each hand's weight times
/// the opponent weight that shares no card with it.
pub open spec fn deals(s: Solver<Nano>, p: int) -> int {
    weigh_laws::weighed(
        s.spot.weights[p]@,
        s.nh(p),
        |i: int| zero_sum_laws::meets(s, p, s.spot.weights[1 - p]@, i),
    )
}

/// What the deals are counted as.
pub open spec fn deals_counted(s: Solver<Nano>, p: int) -> Nano {
    num::total_of(
        solve::met::<Nano>(
            s.spot.weights[p]@,
            terminal::met_reach::<Nano>(
                s.spot.hands[p]@,
                s.spot.hands[1 - p]@,
                s.spot.weights[1 - p]@,
                s.spot.same_combo[p]@,
            ),
        ),
    )
}

/// Whether a player's weights are shares, and all of them, and all deals, add
/// up in range.
pub open spec fn dealable(s: Solver<Nano>, p: int) -> bool {
    &&& s.wf()
    &&& 0 <= p < 2
    &&& shares(s.spot.weights[0]@)
    &&& shares(s.spot.weights[1]@)
    &&& removal_laws::summable(s.spot.weights[0]@)
    &&& removal_laws::summable(s.spot.weights[1]@)
    &&& deals(s, p) <= i64::MAX * BILLION
}

proof fn lemma_deals(s: Solver<Nano>, p: int, k: int)
    requires
        dealable(s, p),
        0 <= k <= s.nh(p),
    ensures
        ({
            let reach = terminal::met_reach::<Nano>(
                s.spot.hands[p]@,
                s.spot.hands[1 - p]@,
                s.spot.weights[1 - p]@,
                s.spot.same_combo[p]@,
            );
            let sum = num::total_of(
                solve::met::<Nano>(s.spot.weights[p]@, reach).take(k),
            ).count as int;
            let exact = weigh_laws::weighed(
                s.spot.weights[p]@,
                k,
                |i: int| zero_sum_laws::meets(s, p, s.spot.weights[1 - p]@, i),
            );
            &&& 0 <= sum
            &&& 0 <= exact - BILLION * sum <= k * BILLION
            &&& exact <= deals(s, p)
        }),
{
    lemma_deals_up(s, p, k);
    lemma_deals_part(s, p, k);
}

proof fn lemma_deals_part(s: Solver<Nano>, p: int, k: int)
    requires
        dealable(s, p),
        0 <= k <= s.nh(p),
    ensures
        0 <= weigh_laws::weighed(
            s.spot.weights[p]@,
            k,
            |i: int| zero_sum_laws::meets(s, p, s.spot.weights[1 - p]@, i),
        ) <= deals(s, p),
    decreases s.nh(p) - k,
{
    let f = |i: int| zero_sum_laws::meets(s, p, s.spot.weights[1 - p]@, i);
    lemma_deals_sign(s, p, k);
    if k < s.nh(p) {
        lemma_deals_part(s, p, k + 1);
        lemma_one_meets(s, p, k);
        let (w, m) = (s.spot.weights[p]@[k].count as int, f(k));
        assert(0 <= w);
        assert(0 <= w * m) by (nonlinear_arith)
            requires
                0 <= w,
                0 <= m,
        ;
    }
}

proof fn lemma_deals_sign(s: Solver<Nano>, p: int, k: int)
    requires
        dealable(s, p),
        0 <= k <= s.nh(p),
    ensures
        0 <= weigh_laws::weighed(
            s.spot.weights[p]@,
            k,
            |i: int| zero_sum_laws::meets(s, p, s.spot.weights[1 - p]@, i),
        ),
    decreases k,
{
    let f = |i: int| zero_sum_laws::meets(s, p, s.spot.weights[1 - p]@, i);
    if k > 0 {
        lemma_deals_sign(s, p, k - 1);
        lemma_one_meets(s, p, k - 1);
        let (w, m) = (s.spot.weights[p]@[k - 1].count as int, f(k - 1));
        assert(0 <= w);
        assert(0 <= w * m) by (nonlinear_arith)
            requires
                0 <= w,
                0 <= m,
        ;
    }
}

proof fn lemma_one_meets(s: Solver<Nano>, p: int, i: int)
    requires
        dealable(s, p),
        0 <= i < s.nh(p),
    ensures
        terminal::met_reach::<Nano>(
            s.spot.hands[p]@,
            s.spot.hands[1 - p]@,
            s.spot.weights[1 - p]@,
            s.spot.same_combo[p]@,
        )[i].count == zero_sum_laws::meets(s, p, s.spot.weights[1 - p]@, i),
        0 <= zero_sum_laws::meets(s, p, s.spot.weights[1 - p]@, i),
{
    let reach = s.spot.weights[1 - p]@;
    removal_laws::law_met_reach_is_exact(s, p, reach, i);
    removal_laws::lemma_where_bound(
        reach,
        s.nh(1 - p),
        |j: int| removal_laws::apart(s.spot.hands[1 - p]@[j], s.spot.hands[p]@[i]),
    );
}

proof fn lemma_deals_up(s: Solver<Nano>, p: int, k: int)
    requires
        dealable(s, p),
        0 <= k <= s.nh(p),
    ensures
        ({
            let reach = terminal::met_reach::<Nano>(
                s.spot.hands[p]@,
                s.spot.hands[1 - p]@,
                s.spot.weights[1 - p]@,
                s.spot.same_combo[p]@,
            );
            let sum = num::total_of(
                solve::met::<Nano>(s.spot.weights[p]@, reach).take(k),
            ).count as int;
            let exact = weigh_laws::weighed(
                s.spot.weights[p]@,
                k,
                |i: int| zero_sum_laws::meets(s, p, s.spot.weights[1 - p]@, i),
            );
            &&& 0 <= sum
            &&& 0 <= exact - BILLION * sum <= k * BILLION
        }),
    decreases k,
{
    let b = BILLION as int;
    let weights = s.spot.weights[p]@;
    let f = |i: int| zero_sum_laws::meets(s, p, s.spot.weights[1 - p]@, i);
    let reach = terminal::met_reach::<Nano>(
        s.spot.hands[p]@,
        s.spot.hands[1 - p]@,
        s.spot.weights[1 - p]@,
        s.spot.same_combo[p]@,
    );
    let terms = solve::met::<Nano>(weights, reach);
    assert(nano::ten_to(0) == 1);
    if k > 0 {
        lemma_deals_up(s, p, k - 1);
        lemma_deals_part(s, p, k);
        lemma_one_meets(s, p, k - 1);
        assert(terms.take(k).drop_last() =~= terms.take(k - 1));
        let (w, m) = (weights[k - 1], reach[k - 1]);
        let (x, y) = (w.count as int, m.count as int);
        assert(0 <= x <= b);
        assert(0 <= x * y <= y * b) by (nonlinear_arith)
            requires
                0 <= x <= b,
                0 <= y,
        ;
        weigh_laws::lemma_times_near(w, m, y);
        vstd::arithmetic::div_mod::lemma_fundamental_div_mod(x * y, b);
        vstd::arithmetic::div_mod::lemma_mod_bound(x * y, b);
        vstd::arithmetic::div_mod::lemma_div_pos_is_pos(x * y, b);
        let was = num::total_of(terms.take(k - 1)).count as int;
        let q = (x * y) / b;
        assert(was + q <= i64::MAX) by (nonlinear_arith)
            requires
                b * (was + q) <= i64::MAX * b,
                0 < b,
        ;
    } else {
        assert(terms.take(0) =~= Seq::<Nano>::empty());
    }
}

/// Law: what a player wins is an average over all deals. Times the weight of
/// all deals, it is what the player's hands are worth, each weighed by its
/// weight, up to rounding.
pub proof fn law_winnings_are_an_average(s: Solver<Nano>, best: bool, p: int)
    requires
        dealable(s, p),
        s.worth(best, 0, p, s.spot.weights[1 - p]@, Seq::empty()).len() == s.nh(p),
        weigh_laws::heft(
            s.worth(best, 0, p, s.spot.weights[1 - p]@, Seq::empty()),
            s.nh(p),
        ) <= i64::MAX,
        weigh_laws::heft(
            s.worth(best, 0, p, s.spot.weights[1 - p]@, Seq::empty()),
            s.nh(p),
        ) * BILLION <= i64::MAX * deals_counted(s, p).count,
        0 < deals_counted(s, p).count,
    ensures
        ({
            let d = deals_counted(s, p).count as int;
            &&& 0 <= deals(s, p) - BILLION * d <= s.nh(p) * BILLION
            &&& size(
                s.winnings(best, p).count * d - weigh_laws::dot(
                    s.spot.weights[p]@,
                    s.worth(best, 0, p, s.spot.weights[1 - p]@, Seq::empty()),
                    s.nh(p),
                ),
            ) <= d + s.nh(p) * BILLION
        }),
{
    let b = BILLION as int;
    let n = s.nh(p);
    let weights = s.spot.weights[p]@;
    let vals = s.worth(best, 0, p, s.spot.weights[1 - p]@, Seq::empty());
    let d = deals_counted(s, p);
    assert(weights.len() == n);
    lemma_deals(s, p, n);
    let reach = terminal::met_reach::<Nano>(
        s.spot.hands[p]@,
        s.spot.hands[1 - p]@,
        s.spot.weights[1 - p]@,
        s.spot.same_combo[p]@,
    );
    let met = solve::met::<Nano>(weights, reach);
    assert(met.take(n) =~= met);
    lemma_weighed_sum(weights, vals, n);
    let terms = solve::weighed::<Nano>(weights, vals);
    assert(terms.take(n) =~= terms);
    let t = num::total_of(terms).count as int;
    let y = t * b;
    let k = d.count as int;
    let q = nano::cut_div(y, k);
    weigh_laws::lemma_cut_near(y, k);
    let sq = size(q);
    let most = weigh_laws::heft(vals, n);
    assert(size(y) <= most * b) by (nonlinear_arith)
        requires
            y == t * b,
            -most <= t <= most,
            0 < b,
            size(y) == y || size(y) == -y,
    ;
    assert(sq <= i64::MAX) by (nonlinear_arith)
        requires
            k * sq <= i64::MAX * k,
            1 <= k,
            0 <= sq,
    ;
    assert(s.winnings(best, p).count == q);
    assert(k * q == q * k && t * b == b * t) by (nonlinear_arith);
}

// ---------------------------------------------------------------------------
// Exploitability
// ---------------------------------------------------------------------------

/// What rounding can add to what the first `k` hands of a player win.
pub open spec fn slack_of(s: Solver<Nano>, p: int, k: int) -> int
    decreases k,
{
    if k <= 0 {
        0
    } else {
        slack_of(s, p, k - 1) + response_laws::room(
            s,
            0,
            p,
            s.spot.weights[1 - p]@,
            Seq::empty(),
            k - 1,
        )
    }
}

/// What rounding can take off what a player seems to gain.
pub open spec fn blur(s: Solver<Nano>, p: int) -> int {
    let d = deals_counted(s, p).count as int;
    if d <= 0 {
        0
    } else {
        slack_of(s, p, s.nh(p)) * BILLION / d + 1
    }
}

proof fn lemma_sums_ordered(s: Solver<Nano>, p: int, k: int)
    requires
        dealable(s, p),
        response_laws::player_shares_one(s, p),
        0 <= k <= s.nh(p),
    ensures
        ({
            let o = s.spot.weights[1 - p]@;
            let avg = solve::weighed::<Nano>(
                s.spot.weights[p]@,
                s.worth(false, 0, p, o, Seq::empty()),
            );
            let best = solve::weighed::<Nano>(
                s.spot.weights[p]@,
                s.worth(true, 0, p, o, Seq::empty()),
            );
            &&& 0 <= slack_of(s, p, k)
            &&& num::total_of(avg.take(k)).count <= num::total_of(best.take(k)).count + slack_of(
                s,
                p,
                k,
            )
        }),
    decreases k,
{
    let o = s.spot.weights[1 - p]@;
    let none = Seq::<Card>::empty();
    let w = s.spot.weights[p]@;
    let (va, vb) = (s.worth(false, 0, p, o, none), s.worth(true, 0, p, o, none));
    let avg = solve::weighed::<Nano>(w, va);
    let best = solve::weighed::<Nano>(w, vb);
    if k > 0 {
        lemma_sums_ordered(s, p, k - 1);
        s.lemma_root();
        let i = k - 1;
        assert(response_laws::arrives(s, 0, p, o, none, i));
        response_laws::law_best_play_is_no_worse(s, 0, p, o, none, i);
        let off = response_laws::room(s, 0, p, o, none, i);
        assert(0 <= w[i].count <= BILLION);
        response_laws::lemma_share_off(w[i], va[i], vb[i], off);
        assert(avg.take(k).drop_last() =~= avg.take(k - 1));
        assert(best.take(k).drop_last() =~= best.take(k - 1));
        response_laws::lemma_sum_step(
            num::total_of(avg.take(k - 1)),
            avg[i],
            num::total_of(best.take(k - 1)),
            best[i],
            slack_of(s, p, k - 1),
            off,
        );
    } else {
        assert(avg.take(0) =~= best.take(0));
    }
}

/// Law: no player wins more as it plays than by a best response, up to
/// rounding.
pub proof fn law_best_responses_win_no_less(s: Solver<Nano>, p: int)
    requires
        dealable(s, p),
        response_laws::player_shares_one(s, p),
    ensures
        0 <= blur(s, p),
        s.winnings(false, p).count <= s.winnings(true, p).count + blur(s, p),
{
    let b = BILLION as int;
    let n = s.nh(p);
    let o = s.spot.weights[1 - p]@;
    let none = Seq::<Card>::empty();
    let w = s.spot.weights[p]@;
    assert(w.len() == n);
    let avg = solve::weighed::<Nano>(w, s.worth(false, 0, p, o, none));
    let best = solve::weighed::<Nano>(w, s.worth(true, 0, p, o, none));
    lemma_sums_ordered(s, p, n);
    assert(avg.take(n) =~= avg);
    assert(best.take(n) =~= best);
    lemma_deals(s, p, n);
    let reach = terminal::met_reach::<Nano>(
        s.spot.hands[p]@,
        s.spot.hands[1 - p]@,
        o,
        s.spot.same_combo[p]@,
    );
    let met = solve::met::<Nano>(w, reach);
    assert(met.take(n) =~= met);
    let d = deals_counted(s, p).count as int;
    let r = slack_of(s, p, n);
    if d > 0 {
        let (x, y) = (num::total_of(avg).count as int, num::total_of(best).count as int);
        assert(0 <= r * b) by (nonlinear_arith)
            requires
                0 <= r,
                0 < b,
        ;
        vstd::arithmetic::div_mod::lemma_fundamental_div_mod(r * b, d);
        vstd::arithmetic::div_mod::lemma_mod_bound(r * b, d);
        vstd::arithmetic::div_mod::lemma_div_pos_is_pos(r * b, d);
        let off = r * b / d + 1;
        assert(x * b <= y * b + d * off) by (nonlinear_arith)
            requires
                x <= y + r,
                r * b < d * (r * b / d) + d,
                off == r * b / d + 1,
                0 < b,
        ;
        response_laws::lemma_cut_shift(x * b, y * b, off, d);
    }
}

/// What player `p` gains by a best response.
pub open spec fn gains(s: Solver<Nano>, p: int) -> int {
    s.winnings(true, p).count - s.winnings(false, p).count
}

/// Law: exploitability counts both players. It is the mean of what the two gain
/// by their best responses, so neither gains more than twice of it, up to
/// rounding: it vanishes only where no one can profit by playing otherwise.
pub proof fn law_exploitability_counts_both_players(s: Solver<Nano>, p: int)
    requires
        dealable(s, 0),
        dealable(s, 1),
        0 <= p < 2,
        response_laws::player_shares_one(s, 0),
        response_laws::player_shares_one(s, 1),
        size(s.winnings(true, 0).count as int) <= 2_000_000_000_000_000_000,
        size(s.winnings(true, 1).count as int) <= 2_000_000_000_000_000_000,
        size(s.winnings(false, 0).count as int) <= 2_000_000_000_000_000_000,
        size(s.winnings(false, 1).count as int) <= 2_000_000_000_000_000_000,
    ensures
        gains(s, p) <= 2 * s.exploited().count + blur(s, 1 - p) + 1,
        size(2 * s.exploited().count - (gains(s, 0) + gains(s, 1))) <= 1,
        -blur(s, p) <= gains(s, p),
{
    let b = BILLION as int;
    law_best_responses_win_no_less(s, 0);
    law_best_responses_win_no_less(s, 1);
    assert(nano::ten_to(0) == 1);
    assert(Nano::decimal_spec(2, 0).count == 2 * b);
    let (g0, g1) = (gains(s, 0), gains(s, 1));
    let sum = g0 + g1;
    let t = size(sum);
    assert((t * b) / (2 * b) == t / 2) by {
        vstd::arithmetic::div_mod::lemma_div_denominator(t * b, b, 2);
        vstd::arithmetic::div_mod::lemma_div_multiples_vanish(t, b);
        assert(t * b == b * t) by (nonlinear_arith);
    }
    assert((-sum) * b == -(sum * b)) by (nonlinear_arith);
    assert(s.exploited().count == nano::cut_div(sum * b, 2 * b));
}

} // verus!
