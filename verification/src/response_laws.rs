//! What holds of best responses, counted in exact numbers: no way to play is
//! worth more, but for what rounding leaves.

use crate::cards::Card;
use crate::cfr;
use crate::cfr::Solver;
use crate::nano;
use crate::nano::{Nano, BILLION};
use crate::num;
use crate::num::Num;
use crate::play_laws;
use crate::preflop_build;
use crate::preflop_solver;
use crate::preflop_solver::Field;
use crate::preflop_tree::KIND_ACTION;
use crate::strategy;
use crate::terminal;
use crate::tree;
use crate::tree::{KIND_CHANCE, KIND_TERM_FOLD, KIND_TERM_SHOWDOWN};
use crate::tree_laws;
use vstd::prelude::*;

verus! {

// ---------------------------------------------------------------------------
// Rounding
// ---------------------------------------------------------------------------

/// What rounding can add to a mixture of `na` actions, the best of which is
/// worth `top` billionths: one for each action, and what the billionths that
/// the shares lack of one would have lost.
pub open spec fn rounding(na: int, top: int) -> int {
    na + if top < 0 {
        na * (-top) / (BILLION as int) + 1
    } else {
        0
    }
}

proof fn lemma_rounding(na: int, top: int)
    requires
        0 <= na,
    ensures
        0 <= na <= rounding(na, top),
{
    if top < 0 {
        assert(0 <= na * (-top)) by (nonlinear_arith)
            requires
                0 <= na,
                top < 0,
        ;
        vstd::arithmetic::div_mod::lemma_div_pos_is_pos(na * (-top), BILLION as int);
    }
}

proof fn lemma_cut_upper(y: int)
    ensures
        BILLION * nano::cut_div(y, BILLION as int) <= y + BILLION - 1,
{
    let b = BILLION as int;
    if y < 0 {
        vstd::arithmetic::div_mod::lemma_fundamental_div_mod(-y, b);
        assert(0 <= (-y) % b < b);
    } else {
        vstd::arithmetic::div_mod::lemma_fundamental_div_mod(y, b);
    }
}

/// One term of a mixture of actions that are worth no more than `x`.
proof fn lemma_term(share: Nano, v: Nano, x: int)
    requires
        0 <= share.count <= BILLION,
        v.count <= x,
    ensures
        BILLION * share.times_spec(v).count <= share.count * x + BILLION,
{
    let s = share.count as int;
    let y = s * v.count;
    lemma_cut_upper(y);
    assert(y <= s * x && i64::MIN * BILLION <= s * x) by (nonlinear_arith)
        requires
            y == s * v.count,
            i64::MIN <= v.count <= x,
            0 <= s <= BILLION,
            BILLION == 1_000_000_000,
    ;
}

/// A mixture of actions that are worth no more than `x`.
proof fn lemma_mixture(shares: Seq<Nano>, vals: Seq<Nano>, terms: Seq<Nano>, x: int)
    requires
        shares.len() == vals.len() == terms.len(),
        play_laws::none_negative(shares),
        play_laws::counted(shares) <= BILLION,
        i64::MIN <= x,
        forall|a: int| 0 <= a < vals.len() ==> (#[trigger] vals[a]).count <= x,
        forall|a: int|
            0 <= a < vals.len() ==> #[trigger] terms[a] == shares[a].times_spec(vals[a]),
    ensures
        BILLION * num::total_of(terms).count <= play_laws::counted(shares) * x + BILLION
            * vals.len(),
    decreases vals.len(),
{
    if vals.len() == 0 {
        assert(nano::ten_to(0) == 1);
        assert(play_laws::counted(shares) * x == 0) by (nonlinear_arith)
            requires
                play_laws::counted(shares) == 0,
        ;
    } else {
        let n = vals.len() - 1;
        let s0 = shares.drop_last();
        let v0 = vals.drop_last();
        let t0 = terms.drop_last();
        play_laws::lemma_counted_bound(shares);
        assert(play_laws::none_negative(s0)) by {
            assert forall|a: int| 0 <= a < s0.len() implies (#[trigger] s0[a]).count >= 0 by {
                assert(s0[a] == shares[a]);
            }
        }
        assert(shares[n].count >= 0);
        play_laws::lemma_counted_bound(s0);
        assert forall|a: int| 0 <= a < v0.len() implies (#[trigger] v0[a]).count <= x by {
            assert(v0[a] == vals[a]);
        }
        assert forall|a: int| 0 <= a < v0.len() implies #[trigger] t0[a] == s0[a].times_spec(
            v0[a],
        ) by {
            assert(t0[a] == terms[a]);
        }
        lemma_mixture(s0, v0, t0, x);
        lemma_term(shares[n], vals[n], x);
        assert(terms[n] == shares[n].times_spec(vals[n]));
        let p = play_laws::counted(shares);
        let p0 = play_laws::counted(s0);
        let s = shares[n].count as int;
        assert(p * x == p0 * x + s * x) by (nonlinear_arith)
            requires
                p == p0 + s,
        ;
        assert(i64::MIN * BILLION <= p * x) by (nonlinear_arith)
            requires
                i64::MIN <= x,
                0 <= p <= BILLION,
                BILLION == 1_000_000_000,
        ;
    }
}

/// A mixture is worth no more than its best action, but for rounding, and for
/// what the actions' own values are off by.
proof fn lemma_mixture_below_top(
    shares: Seq<Nano>,
    vals: Seq<Nano>,
    terms: Seq<Nano>,
    top: int,
    off: int,
)
    requires
        shares.len() == vals.len() == terms.len(),
        play_laws::share_one(shares),
        i64::MIN <= top,
        0 <= off,
        forall|a: int| 0 <= a < vals.len() ==> (#[trigger] vals[a]).count <= top + off,
        forall|a: int|
            0 <= a < vals.len() ==> #[trigger] terms[a] == shares[a].times_spec(vals[a]),
    ensures
        num::total_of(terms).count <= top + off + rounding(vals.len() as int, top),
{
    let x = top + off;
    let p = play_laws::counted(shares);
    let n = vals.len() as int;
    let t = num::total_of(terms).count as int;
    let b = BILLION as int;
    lemma_mixture(shares, vals, terms, x);
    if x >= 0 {
        assert(p * x <= b * x) by (nonlinear_arith)
            requires
                p <= b,
                0 <= x,
        ;
        assert(t <= x + n) by (nonlinear_arith)
            requires
                b * t <= b * x + b * n,
                0 < b,
        ;
        lemma_rounding(n, top);
    } else {
        let m = n * (-top);
        assert(p * x <= b * x + m) by (nonlinear_arith)
            requires
                b - n < p,
                x < 0,
                top <= x,
                0 <= n,
                m == n * (-top),
        ;
        vstd::arithmetic::div_mod::lemma_fundamental_div_mod(m, b);
        assert(m % b < b);
        assert(t <= x + n + m / b + 1) by (nonlinear_arith)
            requires
                b * t <= b * x + m + b * n,
                m < b * (m / b) + b,
                0 < b,
        ;
    }
}

/// Numbers that are no more than others, but for what each is off by, add up
/// to no more, but for what all are off by.
pub(crate) proof fn lemma_sum_step(a: Nano, x: Nano, b: Nano, y: Nano, off: int, more: int)
    requires
        a.count <= b.count + off,
        x.count <= y.count + more,
        0 <= off,
        0 <= more,
    ensures
        a.plus_spec(x).count <= b.plus_spec(y).count + off + more,
{
}

/// The largest of a list is as large as each.
pub(crate) proof fn lemma_topmost(s: Seq<Nano>, a: int)
    requires
        0 <= a < s.len(),
    ensures
        s[a].count <= strategy::topmost(s).count,
    decreases s.len(),
{
    if s.len() > 1 && a < s.len() - 1 {
        lemma_topmost(s.drop_last(), a);
        assert(s.drop_last()[a] == s[a]);
    }
}

// ---------------------------------------------------------------------------
// Before the flop
// ---------------------------------------------------------------------------

/// Whether a seat's strategies share one, class by class and node by node.
pub open spec fn seat_shares_one(f: Field<Nano>, strat: Seq<Nano>, p: int) -> bool {
    forall|i: int, h: int|
        0 <= i < f.tree.nodes.len() && f.tree.nodes[i].kind == KIND_ACTION
            && f.tree.nodes[i].actor == p && 0 <= h < 169 ==> #[trigger] play_laws::share_one(
            strategy::column(f.plays(strat, i), f.tree.nodes[i].actions.len() as int, 169, h),
        )
}

/// What rounding can add to what a class of seat `p` expects below a node: it
/// adds up over the decisions, and at each decision of the seat's own one
/// mixture is rounded.
pub open spec fn leeway(
    f: Field<Nano>,
    strat: Seq<Nano>,
    i: int,
    p: int,
    reaches: Seq<Seq<Nano>>,
    h: int,
) -> int
    decreases f.tree.nodes.len() - i, f.tree.nodes[i].actions.len() + 1,
{
    let nd = f.tree.nodes[i];
    if nd.kind != KIND_ACTION {
        0
    } else {
        let below = leeway_below(f, strat, i, p, reaches, h, nd.actions.len());
        if nd.actor != p {
            below
        } else {
            below + rounding(
                nd.actions.len() as int,
                f.worth(strat, i, p, true, reaches)[h].count as int,
            )
        }
    }
}

/// What rounding can add below the first `k` actions of a node.
pub open spec fn leeway_below(
    f: Field<Nano>,
    strat: Seq<Nano>,
    i: int,
    p: int,
    reaches: Seq<Seq<Nano>>,
    h: int,
    k: nat,
) -> int
    decreases f.tree.nodes.len() - i, k,
{
    if k == 0 {
        0
    } else {
        let nd = f.tree.nodes[i];
        let c = f.child(i, k - 1);
        let before = leeway_below(f, strat, i, p, reaches, h, (k - 1) as nat);
        if i < c < f.tree.nodes.len() {
            before + leeway(
                f,
                strat,
                c,
                p,
                preflop_solver::acted(reaches, nd.actor as int, f.plays(strat, i), k - 1),
                h,
            )
        } else {
            before
        }
    }
}

/// Law: a seat's best response is worth at least its average strategy, class
/// by class and at every node, up to rounding.
pub proof fn law_best_response_is_no_worse(
    f: Field<Nano>,
    strat: Seq<Nano>,
    i: int,
    p: int,
    reaches: Seq<Seq<Nano>>,
    h: int,
)
    requires
        f.wf(),
        0 <= i < f.tree.nodes.len(),
        0 <= p < f.n(),
        0 <= h < 169,
        seat_shares_one(f, strat, p),
    ensures
        0 <= leeway(f, strat, i, p, reaches, h),
        f.worth(strat, i, p, false, reaches)[h].count
            <= f.worth(strat, i, p, true, reaches)[h].count + leeway(f, strat, i, p, reaches, h),
    decreases f.tree.nodes.len() - i, f.tree.nodes[i].actions.len() + 1,
{
    let nd = f.tree.nodes[i];
    if nd.kind == KIND_ACTION {
        let na = nd.actions.len();
        lemma_below(f, strat, i, p, reaches, h, na);
        let avg = f.worth_below(strat, i, p, false, reaches, na);
        let best = f.worth_below(strat, i, p, true, reaches, na);
        let off = leeway_below(f, strat, i, p, reaches, h, na);
        if nd.actor == p {
            assert(preflop_build::knot_sound(f.n(), f.tree, i));
            let ups = strategy::slice_at(best, h);
            let vals = strategy::slice_at(avg, h);
            let top = strategy::topmost(ups).count as int;
            let sigma = f.plays(strat, i);
            let shares = strategy::column(sigma, na as int, 169, h);
            let terms = strategy::mix_terms(sigma, avg, 169, h);
            assert(play_laws::share_one(shares));
            assert forall|a: int| 0 <= a < vals.len() implies (#[trigger] vals[a]).count <= top
                + off by {
                lemma_topmost(ups, a);
                assert(avg[a][h].count <= best[a][h].count + off);
            }
            lemma_mixture_below_top(shares, vals, terms, top, off);
            assert(f.worth(strat, i, p, true, reaches)[h].count == top);
            lemma_rounding(na as int, top);
        }
    }
}

proof fn lemma_below(
    f: Field<Nano>,
    strat: Seq<Nano>,
    i: int,
    p: int,
    reaches: Seq<Seq<Nano>>,
    h: int,
    k: nat,
)
    requires
        f.wf(),
        0 <= i < f.tree.nodes.len(),
        f.tree.nodes[i].kind == KIND_ACTION,
        k <= f.tree.nodes[i].actions.len(),
        0 <= p < f.n(),
        0 <= h < 169,
        seat_shares_one(f, strat, p),
    ensures
        0 <= leeway_below(f, strat, i, p, reaches, h, k),
        f.worth_below(strat, i, p, false, reaches, k).len() == k,
        f.worth_below(strat, i, p, true, reaches, k).len() == k,
        forall|a: int|
            0 <= a < k ==> (#[trigger] f.worth_below(strat, i, p, false, reaches, k)[a])[h].count
                <= f.worth_below(strat, i, p, true, reaches, k)[a][h].count + leeway_below(
                f,
                strat,
                i,
                p,
                reaches,
                h,
                k,
            ),
        num::total_of(
            strategy::slice_at(f.worth_below(strat, i, p, false, reaches, k), h),
        ).count <= num::total_of(
            strategy::slice_at(f.worth_below(strat, i, p, true, reaches, k), h),
        ).count + leeway_below(f, strat, i, p, reaches, h, k),
    decreases f.tree.nodes.len() - i, k,
{
    if k > 0 {
        let nd = f.tree.nodes[i];
        let less = (k - 1) as nat;
        lemma_below(f, strat, i, p, reaches, h, less);
        assert(preflop_build::knot_sound(f.n(), f.tree, i));
        let c = f.child(i, k - 1);
        assert(i < c < f.tree.nodes.len());
        let on = preflop_solver::acted(reaches, nd.actor as int, f.plays(strat, i), k - 1);
        law_best_response_is_no_worse(f, strat, c, p, on, h);
        let avg = f.worth_below(strat, i, p, false, reaches, k);
        let best = f.worth_below(strat, i, p, true, reaches, k);
        let avg0 = f.worth_below(strat, i, p, false, reaches, less);
        let best0 = f.worth_below(strat, i, p, true, reaches, less);
        assert(strategy::slice_at(avg, h).drop_last() =~= strategy::slice_at(avg0, h));
        assert(strategy::slice_at(best, h).drop_last() =~= strategy::slice_at(best0, h));
        assert forall|a: int| 0 <= a < k implies (#[trigger] avg[a])[h].count <= best[a][h].count
            + leeway_below(f, strat, i, p, reaches, h, k) by {
            if a < less {
                assert(avg[a] == avg0[a]);
                assert(best[a] == best0[a]);
            }
        }
        lemma_sum_step(
            num::total_of(strategy::slice_at(avg0, h)),
            avg[k - 1][h],
            num::total_of(strategy::slice_at(best0, h)),
            best[k - 1][h],
            leeway_below(f, strat, i, p, reaches, h, less),
            leeway(f, strat, c, p, on, h),
        );
    }
}

// ---------------------------------------------------------------------------
// After the flop
// ---------------------------------------------------------------------------

pub(crate) proof fn lemma_cut_shift(y: int, z: int, off: int, d: int)
    requires
        y <= z + d * off,
        0 <= off,
        0 < d,
    ensures
        nano::cut_div(y, d) <= nano::cut_div(z, d) + off,
{
    let u = if y < 0 {
        -y
    } else {
        y
    };
    let w = if z < 0 {
        -z
    } else {
        z
    };
    assert(d * (u / d) <= u < d * (u / d) + d && 0 <= u / d) by (nonlinear_arith)
        requires
            0 <= u,
            0 < d,
    ;
    assert(d * (w / d) <= w < d * (w / d) + d && 0 <= w / d) by (nonlinear_arith)
        requires
            0 <= w,
            0 < d,
    ;
    let a = u / d;
    let b = w / d;
    if y >= 0 && z >= 0 {
        assert(a <= b + off) by (nonlinear_arith)
            requires
                d * a <= u,
                u <= w + d * off,
                w < d * b + d,
                0 < d,
        ;
    } else if y >= 0 {
        assert(a <= -b + off) by (nonlinear_arith)
            requires
                d * a <= u,
                u <= -w + d * off,
                d * b <= w,
                0 < d,
        ;
    } else if z < 0 {
        assert(b <= a + off) by (nonlinear_arith)
            requires
                d * b <= w,
                w <= u + d * off,
                u < d * a + d,
                0 < d,
        ;
    }
}

/// A share of an action that is worth more by at most `off`.
pub(crate) proof fn lemma_share_off(share: Nano, v: Nano, w: Nano, off: int)
    requires
        0 <= share.count <= BILLION,
        v.count <= w.count + off,
        0 <= off,
    ensures
        share.times_spec(v).count <= share.times_spec(w).count + off,
{
    let s = share.count as int;
    assert(s * v.count <= s * w.count + BILLION * off) by (nonlinear_arith)
        requires
            0 <= s <= BILLION,
            v.count <= w.count + off,
            0 <= off,
    ;
    lemma_cut_shift(s * v.count, s * w.count, off, BILLION as int);
}

/// One card's part of a value that is larger by at most `off`.
proof fn lemma_part_off(v: Nano, w: Nano, n: i64, off: int)
    requires
        1 <= n <= 52,
        v.count <= w.count + off,
        0 <= off,
    ensures
        v.over_spec(Nano::decimal_spec(n, 0)).count <= w.over_spec(
            Nano::decimal_spec(n, 0),
        ).count + off,
{
    assert(nano::ten_to(0) == 1);
    let d = n * BILLION;
    assert(Nano::decimal_spec(n, 0).count == d);
    assert(v.count * BILLION <= w.count * BILLION + d * off) by (nonlinear_arith)
        requires
            v.count <= w.count + off,
            d == n * BILLION,
            1 <= n,
            0 <= off,
            BILLION == 1_000_000_000,
    ;
    lemma_cut_shift(v.count * BILLION, w.count * BILLION, off, d);
}

/// Whether a player's strategies share one, hand by hand and node by node.
pub open spec fn player_shares_one(s: Solver<Nano>, p: int) -> bool {
    forall|j: int, i: int|
        s.decides(j) && s.node(j).player == p && 0 <= i < s.nh(p)
            ==> #[trigger] play_laws::share_one(
            strategy::column(s.played(j), s.node(j).num_children as int, s.nh(p), i),
        )
}

/// Whether the entries that hand `i`'s strategy at a decision is made from are
/// not negative, and add up in range.
pub open spec fn sums_sound(s: Solver<Nano>, j: int, i: int) -> bool {
    let n = s.node(j);
    let q = n.player as int;
    let block = s.strat[q].block(j, n.data_offset as int, s.block_len(j));
    let entries = strategy::column(block, n.num_children as int, s.nh(q), i);
    &&& play_laws::none_negative(entries)
    &&& play_laws::counted(entries) <= i64::MAX
}

/// Law: a player's strategies share one where the player's locks do, as long
/// as no strategy sum is negative and each hand's add up in range.
pub proof fn law_strategies_share_one_everywhere(s: Solver<Nano>, p: int)
    requires
        s.wf(),
        0 <= p < 2,
        forall|j: int, i: int|
            s.decides(j) && s.node(j).player == p && 0 <= i < s.nh(p) && s.locks@.contains_key(
                j as u32,
            ) ==> #[trigger] play_laws::share_one(
                strategy::column(s.played(j), s.node(j).num_children as int, s.nh(p), i),
            ),
        forall|j: int, i: int|
            s.decides(j) && s.node(j).player == p && 0 <= i < s.nh(p) ==> #[trigger] sums_sound(
                s,
                j,
                i,
            ),
    ensures
        player_shares_one(s, p),
{
    assert forall|j: int, i: int|
        s.decides(j) && s.node(j).player == p && 0 <= i < s.nh(
            p,
        ) implies #[trigger] play_laws::share_one(
        strategy::column(s.played(j), s.node(j).num_children as int, s.nh(p), i),
    ) by {
        if !s.locks@.contains_key(j as u32) {
            let n = s.node(j);
            let na = n.num_children as int;
            let block = s.strat[p].block(j, n.data_offset as int, s.block_len(j));
            s.lemma_decision(j);
            s.lemma_played(j);
            assert(sums_sound(s, j, i));
            play_laws::law_strategies_share_one(block, na, s.nh(p), i);
        }
    }
}

/// What rounding can add to what hand `i` of player `p` is worth at a node: it
/// adds up over cards and actions, and one mixture is rounded wherever the
/// player is free to choose.
pub open spec fn room(
    s: Solver<Nano>,
    idx: int,
    p: int,
    reach: Seq<Nano>,
    dealt: Seq<Card>,
    i: int,
) -> int
    decreases s.spot.tree.nodes@.len() - idx, 256nat,
{
    let n = s.node(idx);
    if idx < 0 || idx >= s.spot.tree.nodes@.len() || n.kind == KIND_TERM_FOLD || n.kind
        == KIND_TERM_SHOWDOWN {
        0
    } else if n.kind == KIND_CHANCE {
        room_dealt(s, idx, p, reach, dealt, i, 52)
    } else if n.player != p {
        room_facing(s, idx, p, reach, dealt, i, n.num_children as nat)
    } else if s.locks@.contains_key(idx as u32) {
        room_acting(s, idx, p, reach, dealt, i, n.num_children as nat)
    } else {
        room_acting(s, idx, p, reach, dealt, i, n.num_children as nat) + rounding(
            n.num_children as int,
            s.worth(true, idx, p, reach, dealt)[i].count as int,
        )
    }
}

/// What rounding can add at a child of a node.
pub open spec fn room_below(
    s: Solver<Nano>,
    idx: int,
    slot: int,
    p: int,
    reach: Seq<Nano>,
    dealt: Seq<Card>,
    i: int,
) -> int
    decreases s.spot.tree.nodes@.len() - idx, 0nat,
{
    let c = s.child(idx, slot);
    if idx < c < s.spot.tree.nodes@.len() && idx >= 0 {
        room(s, c, p, reach, dealt, i)
    } else {
        0
    }
}

/// What rounding can add over the first `k` cards.
pub open spec fn room_dealt(
    s: Solver<Nano>,
    idx: int,
    p: int,
    reach: Seq<Nano>,
    dealt: Seq<Card>,
    i: int,
    k: nat,
) -> int
    decreases s.spot.tree.nodes@.len() - idx, k,
{
    if k == 0 {
        0
    } else {
        let c = k - 1;
        let before = room_dealt(s, idx, p, reach, dealt, i, (k - 1) as nat);
        if s.comes(idx, dealt, c) {
            before + room_below(
                s,
                idx,
                c,
                p,
                cfr::reach_past(s.spot.hands[1 - p]@, reach, c),
                dealt.push(c as u8),
                i,
            )
        } else {
            before
        }
    }
}

/// What rounding can add over the opponent's first `k` actions.
pub open spec fn room_facing(
    s: Solver<Nano>,
    idx: int,
    p: int,
    reach: Seq<Nano>,
    dealt: Seq<Card>,
    i: int,
    k: nat,
) -> int
    decreases s.spot.tree.nodes@.len() - idx, k,
{
    if k == 0 {
        0
    } else {
        room_facing(s, idx, p, reach, dealt, i, (k - 1) as nat) + room_below(
            s,
            idx,
            k - 1,
            p,
            strategy::reach_through(reach, s.played(idx), k - 1),
            dealt,
            i,
        )
    }
}

/// What rounding can add over the player's own first `k` actions.
pub open spec fn room_acting(
    s: Solver<Nano>,
    idx: int,
    p: int,
    reach: Seq<Nano>,
    dealt: Seq<Card>,
    i: int,
    k: nat,
) -> int
    decreases s.spot.tree.nodes@.len() - idx, k,
{
    if k == 0 {
        0
    } else {
        room_acting(s, idx, p, reach, dealt, i, (k - 1) as nat) + room_below(
            s,
            idx,
            k - 1,
            p,
            reach,
            dealt,
            i,
        )
    }
}

/// Whether a hand of a player stands before a node.
pub open spec fn arrives(
    s: Solver<Nano>,
    idx: int,
    p: int,
    reach: Seq<Nano>,
    dealt: Seq<Card>,
    i: int,
) -> bool {
    &&& s.wf()
    &&& 0 <= p < 2
    &&& 0 <= i < s.nh(p)
    &&& reach.len() == s.nh(1 - p)
    &&& s.dealt_to(idx, dealt)
}

/// Whether a best response is worth at least what is played, up to `off`.
pub open spec fn no_worse(avg: Seq<Nano>, best: Seq<Nano>, nh: int, i: int, off: int) -> bool {
    &&& avg.len() == nh
    &&& best.len() == nh
    &&& 0 <= off
    &&& avg[i].count <= best[i].count + off
}

/// Law: a best response that keeps to the locks is worth at least what is
/// played, hand by hand and at every node, up to rounding.
pub proof fn law_best_play_is_no_worse(
    s: Solver<Nano>,
    idx: int,
    p: int,
    reach: Seq<Nano>,
    dealt: Seq<Card>,
    i: int,
)
    requires
        arrives(s, idx, p, reach, dealt, i),
        player_shares_one(s, p),
    ensures
        no_worse(
            s.worth(false, idx, p, reach, dealt),
            s.worth(true, idx, p, reach, dealt),
            s.nh(p),
            i,
            room(s, idx, p, reach, dealt, i),
        ),
    decreases s.spot.tree.nodes@.len() - idx, 256nat,
{
    let n = s.node(idx);
    assert(tree_laws::node_sound(s.spot.tree.arena(), s.spot.board_mask, idx));
    assert(tree_laws::node_sound(s.spot.tree.arena(), s.spot.board_mask, 0));
    if n.kind == KIND_TERM_FOLD {
    } else if n.kind == KIND_TERM_SHOWDOWN {
        s.lemma_strengths(p, reach, dealt);
        lemma_settled_len(
            s.face_off(p, reach, dealt),
            s.zeros(p),
            0,
            n.t_win,
            n.t_lose,
            n.t_tie,
        );
    } else if n.kind == KIND_CHANCE {
        lemma_over_cards(s, idx, p, reach, dealt, i, 52);
    } else if n.player != p {
        lemma_facing(s, idx, p, reach, dealt, i, n.num_children as nat);
    } else {
        let na = n.num_children as nat;
        s.lemma_decision(idx);
        lemma_acting(s, idx, p, reach, dealt, i, na);
        if !s.locks@.contains_key(idx as u32) {
            let off = room_acting(s, idx, p, reach, dealt, i, na);
            let top = s.worth_choosing(true, idx, p, reach, dealt, na)[i].count as int;
            let shares = strategy::column(s.played(idx), na as int, s.nh(p), i);
            let vals = Seq::new(
                na,
                |a: int| s.worth_below(false, idx, a, p, reach, dealt)[i],
            );
            let terms = mixture(s, idx, p, reach, dealt, i, na);
            assert(play_laws::share_one(shares));
            lemma_mixture_below_top(shares, vals, terms, top, off);
            lemma_rounding(na as int, top);
        }
    }
}

/// Showdowns keep the length of the list that they fill in.
proof fn lemma_settled_len(
    duel: terminal::Duel<Nano>,
    out: Seq<Nano>,
    k: int,
    win: Nano,
    lose: Nano,
    tie: Nano,
)
    requires
        0 <= k,
        forall|m: int| 0 <= m < duel.mine.len() ==> (#[trigger] duel.mine[m]).1 < out.len(),
    ensures
        duel.settled(out, k, win, lose, tie).len() == out.len(),
    decreases duel.mine.len() - k,
{
    if k < duel.mine.len() {
        lemma_settled_len(duel, out, k + 1, win, lose, tie);
        assert(duel.mine[k].1 < out.len());
    }
}

/// What each of the first `k` actions adds to what hand `i` is worth as played.
pub open spec fn mixture(
    s: Solver<Nano>,
    idx: int,
    p: int,
    reach: Seq<Nano>,
    dealt: Seq<Card>,
    i: int,
    k: nat,
) -> Seq<Nano> {
    Seq::new(
        k,
        |a: int|
            s.played(idx)[strategy::cell(s.nh(p), a, i)].times_spec(
                s.worth_below(false, idx, a, p, reach, dealt)[i],
            ),
    )
}

proof fn lemma_over_cards(
    s: Solver<Nano>,
    idx: int,
    p: int,
    reach: Seq<Nano>,
    dealt: Seq<Card>,
    i: int,
    k: nat,
)
    requires
        arrives(s, idx, p, reach, dealt, i),
        player_shares_one(s, p),
        s.node(idx).kind == KIND_CHANCE,
        k <= 52,
    ensures
        no_worse(
            s.worth_dealt(false, idx, p, reach, dealt, k),
            s.worth_dealt(true, idx, p, reach, dealt, k),
            s.nh(p),
            i,
            room_dealt(s, idx, p, reach, dealt, i, k),
        ),
    decreases s.spot.tree.nodes@.len() - idx, k,
{
    if k > 0 {
        let less = (k - 1) as nat;
        lemma_over_cards(s, idx, p, reach, dealt, i, less);
        s.lemma_chance(idx);
        let c = k - 1;
        if s.comes(idx, dealt, c) {
            s.lemma_deal(idx, dealt, c);
            let past = cfr::reach_past(s.spot.hands[1 - p]@, reach, c);
            let next = dealt.push(c as u8);
            law_best_play_is_no_worse(s, s.child(idx, c), p, past, next, i);
            let avg = s.worth_below(false, idx, c, p, past, next)[i];
            let best = s.worth_below(true, idx, c, p, past, next)[i];
            let off = room_below(s, idx, c, p, past, next, i);
            let left = (46 - s.node(idx).street) as i64;
            lemma_part_off(avg, best, left, off);
            lemma_sum_step(
                s.worth_dealt(false, idx, p, reach, dealt, less)[i],
                avg.over_spec(Nano::decimal_spec(left, 0)),
                s.worth_dealt(true, idx, p, reach, dealt, less)[i],
                best.over_spec(Nano::decimal_spec(left, 0)),
                room_dealt(s, idx, p, reach, dealt, i, less),
                off,
            );
        }
    }
}

proof fn lemma_facing(
    s: Solver<Nano>,
    idx: int,
    p: int,
    reach: Seq<Nano>,
    dealt: Seq<Card>,
    i: int,
    k: nat,
)
    requires
        arrives(s, idx, p, reach, dealt, i),
        player_shares_one(s, p),
        s.node(idx).kind == tree::KIND_ACTION,
        k <= s.node(idx).num_children,
    ensures
        no_worse(
            s.worth_facing(false, idx, p, reach, dealt, k),
            s.worth_facing(true, idx, p, reach, dealt, k),
            s.nh(p),
            i,
            room_facing(s, idx, p, reach, dealt, i, k),
        ),
    decreases s.spot.tree.nodes@.len() - idx, k,
{
    if k > 0 {
        let less = (k - 1) as nat;
        lemma_facing(s, idx, p, reach, dealt, i, less);
        s.lemma_decision(idx);
        let on = strategy::reach_through(reach, s.played(idx), k - 1);
        let c = s.child(idx, k - 1);
        assert(idx < c);
        law_best_play_is_no_worse(s, c, p, on, dealt, i);
        lemma_sum_step(
            s.worth_facing(false, idx, p, reach, dealt, less)[i],
            s.worth_below(false, idx, k - 1, p, on, dealt)[i],
            s.worth_facing(true, idx, p, reach, dealt, less)[i],
            s.worth_below(true, idx, k - 1, p, on, dealt)[i],
            room_facing(s, idx, p, reach, dealt, i, less),
            room_below(s, idx, k - 1, p, on, dealt, i),
        );
    }
}

pub(crate) proof fn lemma_acting(
    s: Solver<Nano>,
    idx: int,
    p: int,
    reach: Seq<Nano>,
    dealt: Seq<Card>,
    i: int,
    k: nat,
)
    requires
        arrives(s, idx, p, reach, dealt, i),
        player_shares_one(s, p),
        s.node(idx).kind == tree::KIND_ACTION,
        s.node(idx).player == p,
        k <= s.node(idx).num_children,
    ensures
        no_worse(
            s.worth_mixing(false, idx, p, reach, dealt, k),
            s.worth_mixing(true, idx, p, reach, dealt, k),
            s.nh(p),
            i,
            room_acting(s, idx, p, reach, dealt, i, k),
        ),
        s.worth_mixing(false, idx, p, reach, dealt, k)[i] == num::total_of(
            mixture(s, idx, p, reach, dealt, i, k),
        ),
        s.worth_choosing(true, idx, p, reach, dealt, k).len() == s.nh(p),
        forall|a: int|
            0 <= a < k ==> (#[trigger] s.worth_below(false, idx, a, p, reach, dealt))[i].count
                <= s.worth_choosing(true, idx, p, reach, dealt, k)[i].count + room_acting(
                s,
                idx,
                p,
                reach,
                dealt,
                i,
                k,
            ),
    decreases s.spot.tree.nodes@.len() - idx, k,
{
    if k > 0 {
        let less = (k - 1) as nat;
        let a = k - 1;
        lemma_acting(s, idx, p, reach, dealt, i, less);
        s.lemma_decision(idx);
        let na = s.node(idx).num_children as int;
        let c = s.child(idx, a);
        assert(idx < c);
        law_best_play_is_no_worse(s, c, p, reach, dealt, i);
        let avg = s.worth_below(false, idx, a, p, reach, dealt)[i];
        let best = s.worth_below(true, idx, a, p, reach, dealt)[i];
        let off = room_below(s, idx, a, p, reach, dealt, i);
        let shares = strategy::column(s.played(idx), na, s.nh(p), i);
        assert(play_laws::share_one(shares));
        play_laws::lemma_counted_bound(shares);
        let share = shares[a];
        assert(share == s.played(idx)[strategy::cell(s.nh(p), a, i)]);
        lemma_share_off(share, avg, best, off);
        lemma_sum_step(
            s.worth_mixing(false, idx, p, reach, dealt, less)[i],
            share.times_spec(avg),
            s.worth_mixing(true, idx, p, reach, dealt, less)[i],
            share.times_spec(best),
            room_acting(s, idx, p, reach, dealt, i, less),
            off,
        );
        let terms = mixture(s, idx, p, reach, dealt, i, k);
        assert(terms.drop_last() =~= mixture(s, idx, p, reach, dealt, i, less));
        assert(terms.last() == share.times_spec(avg));
    } else {
        assert(mixture(s, idx, p, reach, dealt, i, 0) =~= Seq::empty());
    }
}

} // verus!
