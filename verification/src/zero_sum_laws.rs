//! Where no rake is taken, what one player wins the other loses, at every node
//! of the tree and in exact numbers, up to stated rounding.

use crate::cards::Card;
use crate::cfr;
use crate::cfr::Solver;
use crate::nano;
use crate::nano::{Nano, BILLION};
use crate::num::Num;
use crate::play_laws;
use crate::removal_laws;
use crate::response_laws;
use crate::strategy;
use crate::terminal;
use crate::tree;
use crate::tree::{Node, KIND_CHANCE, KIND_TERM_FOLD, KIND_TERM_SHOWDOWN};
use crate::tree_laws;
use crate::weigh_laws;
use crate::weigh_laws::size;
use vstd::prelude::*;

verus! {

/// Whether what a node pays is no more than `top` billionths, and what one
/// player wins there the other loses.
pub open spec fn evens_out(n: Node<Nano>, top: int) -> bool {
    &&& 0 <= n.put[0].count <= top
    &&& 0 <= n.put[1].count <= top
    &&& n.kind == KIND_TERM_FOLD || n.kind == KIND_TERM_SHOWDOWN ==> {
        &&& n.t_win.count + n.t_lose.count == 0
        &&& size(n.t_win.count as int) <= top
    }
    &&& n.kind == KIND_TERM_SHOWDOWN ==> n.t_tie.count == 0
}

/// Whether every node evens out.
pub open spec fn lossless(s: Solver<Nano>, top: int) -> bool {
    &&& 0 <= top
    &&& forall|j: int|
        0 <= j < s.spot.tree.nodes@.len() ==> evens_out(#[trigger] s.spot.tree.nodes@[j], top)
}

/// Whether reach is not negative, and stakes of `top` billionths against all of
/// it stay in range.
pub open spec fn bearable(reach: Seq<Nano>, top: int) -> bool {
    &&& removal_laws::summable(reach)
    &&& 5 * top * play_laws::counted(reach) <= i64::MAX * BILLION
}

/// The opponent reach that shares no card with hand `i`.
pub open spec fn meets(s: Solver<Nano>, p: int, reach: Seq<Nano>, i: int) -> int {
    removal_laws::reach_where(
        reach,
        s.nh(1 - p),
        |j: int| removal_laws::apart(s.spot.hands[1 - p]@[j], s.spot.hands[p]@[i]),
    )
}

/// How many times over a value can count the reach that it meets: once for
/// each street that is still to come, twofold at most.
pub open spec fn times_over(street: int) -> int {
    if street <= 0 {
        4
    } else if street == 1 {
        2
    } else {
        1
    }
}

/// Whether a value is no more than the stakes against the reach that is met.
pub open spec fn backed(v: int, top: int, over: int, met: int) -> bool {
    BILLION * size(v) <= top * over * met
}

// ---------------------------------------------------------------------------
// The ends of a hand
// ---------------------------------------------------------------------------

/// What player `p` gets at a fold.
pub open spec fn fold_amount(n: Node<Nano>, p: int) -> Nano {
    if n.player == p {
        n.t_lose
    } else {
        n.t_win
    }
}

/// The value of a hand at a fold.
proof fn lemma_fold_at(
    s: Solver<Nano>,
    idx: int,
    p: int,
    reach: Seq<Nano>,
    dealt: Seq<Card>,
    i: int,
    top: int,
)
    requires
        response_laws::arrives(s, idx, p, reach, dealt, i),
        s.node(idx).kind == KIND_TERM_FOLD,
        lossless(s, top),
        bearable(reach, top),
    ensures
        s.worth(false, idx, p, reach, dealt).len() == s.nh(p),
        s.worth(false, idx, p, reach, dealt)[i].count == nano::cut_div(
            fold_amount(s.node(idx), p).count * meets(s, p, reach, i),
            BILLION as int,
        ),
        0 <= meets(s, p, reach, i) <= play_laws::counted(reach),
        size(fold_amount(s.node(idx), p).count * meets(s, p, reach, i)) <= top * meets(
            s,
            p,
            reach,
            i,
        ),
{
    let n = s.node(idx);
    let asked = |j: int| removal_laws::apart(s.spot.hands[1 - p]@[j], s.spot.hands[p]@[i]);
    let m = meets(s, p, reach, i);
    let r = play_laws::counted(reach);
    assert(evens_out(s.spot.tree.nodes@[idx], top));
    removal_laws::lemma_where_bound(reach, s.nh(1 - p), asked);
    let amount = fold_amount(n, p);
    let met = Nano { count: m as i64 };
    removal_laws::law_fold_value_is_exact(s, p, reach, amount, i, met);
    let a = amount.count as int;
    assert(size(a * m) <= top * m) by (nonlinear_arith)
        requires
            -top <= a <= top,
            0 <= m,
            size(a * m) == a * m || size(a * m) == -(a * m),
    ;
    assert(top * m <= i64::MAX * BILLION) by (nonlinear_arith)
        requires
            0 <= m <= r,
            0 <= top,
            5 * top * r <= i64::MAX * BILLION,
    ;
    weigh_laws::lemma_times_near(amount, met, i64::MAX as int);
}

/// What one entry of a showdown's list does to the values.
pub(crate) proof fn lemma_settled_at(
    d: terminal::Duel<Nano>,
    out: Seq<Nano>,
    from: int,
    win: Nano,
    lose: Nano,
    tie: Nano,
    i: int,
)
    requires
        0 <= from,
        0 <= i < out.len(),
        forall|k: int| 0 <= k < d.mine.len() ==> (#[trigger] d.mine[k]).1 < out.len(),
        forall|k: int, m: int|
            0 <= k < d.mine.len() && 0 <= m < d.mine.len() && k != m ==> (#[trigger] d.mine[k]).1
                != (#[trigger] d.mine[m]).1,
    ensures
        d.settled(out, from, win, lose, tie).len() == out.len(),
        forall|k: int|
            from <= k < d.mine.len() && (#[trigger] d.mine[k]).1 == i ==> d.settled(
                out,
                from,
                win,
                lose,
                tie,
            )[i] == d.value(k, win, lose, tie),
        (forall|k: int| from <= k < d.mine.len() ==> (#[trigger] d.mine[k]).1 != i) ==> d.settled(
            out,
            from,
            win,
            lose,
            tie,
        )[i] == out[i],
    decreases d.mine.len() - from,
{
    if from < d.mine.len() {
        lemma_settled_at(d, out, from + 1, win, lose, tie, i);
        assert(d.mine[from].1 < out.len());
    }
}

/// The reach that a hand in play beats, or that beats it.
pub open spec fn side(
    s: Solver<Nano>,
    p: int,
    reach: Seq<Nano>,
    dealt: Seq<Card>,
    i: int,
    beats: bool,
) -> int {
    let own = removal_laws::strong(
        s.spot.hands[p]@,
        s.spot.board@,
        removal_laws::runout(s, dealt),
        i,
    );
    if !removal_laws::in_play(s.spot.hands[p]@, removal_laws::runout(s, dealt), i) {
        0
    } else if beats {
        removal_laws::rivals(s, p, reach, dealt, i, |x: u32| x < own)
    } else {
        removal_laws::rivals(s, p, reach, dealt, i, |x: u32| x > own)
    }
}

/// Beaten and beating reach are parts of what a hand meets.
pub(crate) proof fn lemma_sides(s: Solver<Nano>, p: int, reach: Seq<Nano>, dealt: Seq<Card>, i: int)
    requires
        s.wf(),
        0 <= p < 2,
        0 <= i < s.nh(p),
        reach.len() == s.nh(1 - p),
        removal_laws::summable(reach),
    ensures
        0 <= side(s, p, reach, dealt, i, true),
        0 <= side(s, p, reach, dealt, i, false),
        side(s, p, reach, dealt, i, true) + side(s, p, reach, dealt, i, false) <= meets(
            s,
            p,
            reach,
            i,
        ),
        0 <= meets(s, p, reach, i) <= play_laws::counted(reach),
{
    let hands = s.spot.hands[1 - p]@;
    let extra = removal_laws::runout(s, dealt);
    let h = s.spot.hands[p]@[i];
    let own = removal_laws::strong(s.spot.hands[p]@, s.spot.board@, extra, i);
    let less = |x: u32| x < own;
    let more = |x: u32| x > own;
    let a = |j: int|
        removal_laws::in_play(hands, extra, j) && removal_laws::apart(hands[j], h) && less(
            removal_laws::strong(hands, s.spot.board@, extra, j),
        );
    let b = |j: int|
        removal_laws::in_play(hands, extra, j) && removal_laws::apart(hands[j], h) && more(
            removal_laws::strong(hands, s.spot.board@, extra, j),
        );
    let c = |j: int| removal_laws::apart(hands[j], h);
    lemma_two_parts(reach, s.nh(1 - p), a, b, c);
    removal_laws::lemma_where_bound(reach, s.nh(1 - p), c);
}

proof fn lemma_two_parts(
    reach: Seq<Nano>,
    n: int,
    a: spec_fn(int) -> bool,
    b: spec_fn(int) -> bool,
    c: spec_fn(int) -> bool,
)
    requires
        play_laws::none_negative(reach),
        n <= reach.len(),
        forall|j: int| 0 <= j < n ==> !(#[trigger] a(j) && b(j)),
        forall|j: int| 0 <= j < n && #[trigger] a(j) ==> c(j),
        forall|j: int| 0 <= j < n && #[trigger] b(j) ==> c(j),
    ensures
        0 <= removal_laws::reach_where(reach, n, a),
        0 <= removal_laws::reach_where(reach, n, b),
        removal_laws::reach_where(reach, n, a) + removal_laws::reach_where(reach, n, b)
            <= removal_laws::reach_where(reach, n, c),
    decreases n,
{
    if n > 0 {
        lemma_two_parts(reach, n - 1, a, b, c);
        assert(reach[n - 1].count >= 0);
        assert(!(a(n - 1) && b(n - 1)));
    }
}

/// The value of a hand at a showdown.
proof fn lemma_showdown_at(
    s: Solver<Nano>,
    idx: int,
    p: int,
    reach: Seq<Nano>,
    dealt: Seq<Card>,
    i: int,
    top: int,
)
    requires
        response_laws::arrives(s, idx, p, reach, dealt, i),
        s.node(idx).kind == KIND_TERM_SHOWDOWN,
        lossless(s, top),
        bearable(reach, top),
    ensures
        s.worth(false, idx, p, reach, dealt).len() == s.nh(p),
        ({
            let w = s.node(idx).t_win.count as int;
            let lo = side(s, p, reach, dealt, i, true);
            let hi = side(s, p, reach, dealt, i, false);
            let v = s.worth(false, idx, p, reach, dealt)[i].count as int;
            &&& v == nano::cut_div(w * lo, BILLION as int) + nano::cut_div(
                -w * hi,
                BILLION as int,
            )
            &&& size(w * lo) <= top * lo
            &&& size(-w * hi) <= top * hi
        }),
{
    let n = s.node(idx);
    let b = BILLION as int;
    assert(evens_out(s.spot.tree.nodes@[idx], top));
    assert(tree_laws::node_sound(s.spot.tree.arena(), s.spot.board_mask, idx));
    assert(tree_laws::node_sound(s.spot.tree.arena(), s.spot.board_mask, 0));
    assert(nano::ten_to(0) == 1);
    assert(removal_laws::runs_out(s, dealt));
    let d = s.face_off(p, reach, dealt);
    let zeros = s.zeros(p);
    let extra = removal_laws::runout(s, dealt);
    let mine = s.spot.hands[p]@;
    let (win, lose, tie) = (n.t_win, n.t_lose, n.t_tie);
    removal_laws::lemma_entries(s, p, reach, dealt);
    assert forall|k: int, m: int| 0 <= k < d.mine.len() && 0 <= m < d.mine.len() && k
        != m implies (#[trigger] d.mine[k]).1 != (#[trigger] d.mine[m]).1 by {
        assert(d.mine[k] != d.mine[m]);
    }
    lemma_settled_at(d, zeros, 0, win, lose, tie, i);
    lemma_sides(s, p, reach, dealt, i);
    let w = win.count as int;
    let lo = side(s, p, reach, dealt, i, true);
    let hi = side(s, p, reach, dealt, i, false);
    let r = play_laws::counted(reach);
    assert(size(w * lo) <= top * lo && size(-w * hi) <= top * hi) by (nonlinear_arith)
        requires
            -top <= w <= top,
            0 <= lo,
            0 <= hi,
            size(w * lo) == w * lo || size(w * lo) == -(w * lo),
            size(-w * hi) == -w * hi || size(-w * hi) == -(-w * hi),
    ;
    assert(2 * (top * lo) <= i64::MAX * b && 2 * (top * hi) <= i64::MAX * b) by (nonlinear_arith)
        requires
            0 <= lo <= r,
            0 <= hi <= r,
            0 <= top,
            5 * top * r <= i64::MAX * b,
    ;
    if removal_laws::in_play(mine, extra, i) {
        let e = removal_laws::entry_of(mine, s.spot.board@, extra, i);
        assert(d.mine.contains(e));
        let k = choose|k: int| 0 <= k < d.mine.len() && d.mine[k] == e;
        assert(d.mine[k].1 == i);
        removal_laws::law_showdown_reach_is_exact(s, p, reach, dealt, k);
        let (low, high) = (d.beaten(k), d.beating(k));
        assert(low.count == lo && high.count == hi);
        let half: int = 0x3fff_ffff_ffff_ffff;
        weigh_laws::lemma_cut_near(w * lo, b);
        weigh_laws::lemma_cut_near(-w * hi, b);
        let (x, y) = (nano::cut_div(w * lo, b), nano::cut_div(-w * hi, b));
        assert(size(x) <= half && size(y) <= half) by (nonlinear_arith)
            requires
                b * size(x) <= top * lo,
                b * size(y) <= top * hi,
                2 * (top * lo) <= 0x7fff_ffff_ffff_ffff * b,
                2 * (top * hi) <= 0x7fff_ffff_ffff_ffff * b,
                b == 1_000_000_000,
                half == 0x3fff_ffff_ffff_ffff,
        ;
        assert(win.times_spec(low).count == x);
        assert(lose.count == -w);
        assert(lose.times_spec(high).count == y);
        let valid = d.met(k).plus_spec(d.twin(k));
        let rest = valid.minus_spec(low).minus_spec(high);
        assert(tie.count * rest.count == 0) by (nonlinear_arith)
            requires
                tie.count == 0,
        ;
        assert(nano::cut_div(0, b) == 0);
        assert(tie.times_spec(rest).count == 0);
        assert(d.value(k, win, lose, tie).count == x + y);
    } else {
        assert forall|k: int| 0 <= k < d.mine.len() implies (#[trigger] d.mine[k]).1 != i by {
            assert(removal_laws::in_play(mine, extra, d.mine[k].1 as int));
        }
        assert(w * 0 == 0 && -w * 0 == 0);
        assert(nano::cut_div(0, b) == 0);
    }
}

// ---------------------------------------------------------------------------
// How large values get
// ---------------------------------------------------------------------------

/// Whether all that the laws on values ask of a solver holds: its strategies
/// share one, its nodes even out, and it is well-formed.
pub open spec fn fair_play(s: Solver<Nano>, top: int) -> bool {
    &&& s.wf()
    &&& lossless(s, top)
    &&& response_laws::player_shares_one(s, 0)
    &&& response_laws::player_shares_one(s, 1)
}

proof fn lemma_bearable(u: Seq<Nano>, v: Seq<Nano>, top: int)
    requires
        bearable(v, top),
        weigh_laws::inside(u, v),
        0 <= top,
    ensures
        bearable(u, top),
        play_laws::counted(u) <= play_laws::counted(v),
{
    weigh_laws::lemma_inside(u, v, u.len() as int, |j: int| true);
    assert(u.take(u.len() as int) =~= u);
    assert(v.take(v.len() as int) =~= v);
    let (a, b) = (play_laws::counted(u), play_laws::counted(v));
    assert(5 * top * a <= 5 * top * b) by (nonlinear_arith)
        requires
            a <= b,
            0 <= top,
    ;
}

/// Every hand of the player who acts shares one.
proof fn lemma_range_shares(s: Solver<Nano>, idx: int, reach: Seq<Nano>)
    requires
        response_laws::player_shares_one(s, s.node(idx).player as int),
        s.decides(idx),
        reach.len() == s.nh(s.node(idx).player as int),
    ensures
        play_laws::range_shares_one(reach, s.played(idx), s.node(idx).num_children as int),
{
    let q = s.node(idx).player as int;
    let na = s.node(idx).num_children as int;
    assert forall|i: int| 0 <= i < reach.len() implies #[trigger] play_laws::share_one(
        strategy::column(s.played(idx), na, reach.len() as int, i),
    ) by {
        assert(play_laws::share_one(strategy::column(s.played(idx), na, s.nh(q), i)));
    }
}

/// Reach past a card is no larger.
proof fn lemma_past_inside(s: Solver<Nano>, q: int, reach: Seq<Nano>, c: int)
    requires
        play_laws::none_negative(reach),
    ensures
        weigh_laws::inside(cfr::reach_past(s.spot.hands[q]@, reach, c), reach),
{
    let past = cfr::reach_past(s.spot.hands[q]@, reach, c);
    assert(nano::ten_to(0) == 1);
    assert forall|i: int| 0 <= i < past.len() implies 0 <= (#[trigger] past[i]).count
        <= reach[i].count by {
        assert(reach[i].count >= 0);
    }
}

/// Less reach to meet backs a value no better.
proof fn lemma_backed_more(v: int, top: int, over: int, met: int, more: int)
    requires
        backed(v, top, over, met),
        0 <= met <= more,
        0 <= top,
        0 <= over,
    ensures
        backed(v, top, over, more),
{
    assert(top * over * met <= top * over * more) by (nonlinear_arith)
        requires
            0 <= met <= more,
            0 <= top,
            0 <= over,
    ;
}

/// A value that is backed by bearable reach is in range.
proof fn lemma_backed_small(v: int, top: int, over: int, met: int, reach: Seq<Nano>)
    requires
        backed(v, top, over, met),
        bearable(reach, top),
        0 <= met <= play_laws::counted(reach),
        0 <= over <= 4,
        0 <= top,
    ensures
        size(v) <= i64::MAX,
{
    let r = play_laws::counted(reach);
    assert(top * over * met <= 5 * top * r) by (nonlinear_arith)
        requires
            0 <= met <= r,
            0 <= over <= 4,
            0 <= top,
    ;
}

/// Law: where no rake is taken, no value is more than the stakes against the
/// reach that the hand meets, a few times over.
pub proof fn law_values_are_backed(
    s: Solver<Nano>,
    idx: int,
    p: int,
    reach: Seq<Nano>,
    dealt: Seq<Card>,
    i: int,
    top: int,
)
    requires
        response_laws::arrives(s, idx, p, reach, dealt, i),
        fair_play(s, top),
        bearable(reach, top),
    ensures
        s.worth(false, idx, p, reach, dealt).len() == s.nh(p),
        backed(
            s.worth(false, idx, p, reach, dealt)[i].count as int,
            top,
            times_over(tree_laws::street_reached(s.node(idx))),
            meets(s, p, reach, i),
        ),
        0 <= meets(s, p, reach, i) <= play_laws::counted(reach),
    decreases s.spot.tree.nodes@.len() - idx, 256nat,
{
    let n = s.node(idx);
    let b = BILLION as int;
    let m = meets(s, p, reach, i);
    let v = s.worth(false, idx, p, reach, dealt)[i].count as int;
    let over = times_over(tree_laws::street_reached(n));
    assert(tree_laws::node_sound(s.spot.tree.arena(), s.spot.board_mask, idx));
    lemma_sides(s, p, reach, dealt, i);
    if n.kind == KIND_TERM_FOLD {
        lemma_fold_at(s, idx, p, reach, dealt, i, top);
        let y = fold_amount(n, p).count * m;
        weigh_laws::lemma_cut_near(y, b);
        assert(top * m <= top * over * m) by (nonlinear_arith)
            requires
                0 <= top,
                0 <= m,
                1 <= over,
        ;
    } else if n.kind == KIND_TERM_SHOWDOWN {
        lemma_showdown_at(s, idx, p, reach, dealt, i, top);
        let w = n.t_win.count as int;
        let lo = side(s, p, reach, dealt, i, true);
        let hi = side(s, p, reach, dealt, i, false);
        weigh_laws::lemma_cut_near(w * lo, b);
        weigh_laws::lemma_cut_near(-w * hi, b);
        assert(top * lo + top * hi <= top * over * m) by (nonlinear_arith)
            requires
                0 <= top,
                0 <= lo,
                0 <= hi,
                lo + hi <= m,
                1 <= over,
        ;
    } else if n.kind == KIND_CHANCE {
        s.lemma_chance(idx);
        lemma_backed_dealt(s, idx, p, reach, dealt, i, 52, top);
        let left = 46 - n.street;
        let child = times_over(n.street as int);
        assert(b * size(v) <= top * over * m) by (nonlinear_arith)
            requires
                left * (b * size(v)) <= 52 * (top * child * m),
                44 <= left,
                over == 2 * child,
                0 <= top,
                0 <= m,
                1 <= child,
        ;
    } else if n.player != p {
        s.lemma_decision(idx);
        let na = n.num_children as int;
        lemma_backed_facing(s, idx, p, reach, dealt, i, na as nat, top);
        lemma_range_shares(s, idx, reach);
        let asked = |j: int| removal_laws::apart(s.spot.hands[1 - p]@[j], s.spot.hands[p]@[i]);
        weigh_laws::lemma_taking(reach, s.played(idx), na, reach.len() as int, asked, na);
        let t = weigh_laws::taking(reach, s.played(idx), reach.len() as int, asked, na);
        assert(top * over * t <= top * over * m) by (nonlinear_arith)
            requires
                t <= m,
                0 <= top,
                0 <= over,
        ;
    } else {
        s.lemma_decision(idx);
        lemma_backed_mixing(s, idx, p, reach, dealt, i, n.num_children as nat, top);
    }
}

pub(crate) proof fn lemma_backed_dealt(
    s: Solver<Nano>,
    idx: int,
    p: int,
    reach: Seq<Nano>,
    dealt: Seq<Card>,
    i: int,
    k: nat,
    top: int,
)
    requires
        response_laws::arrives(s, idx, p, reach, dealt, i),
        fair_play(s, top),
        bearable(reach, top),
        s.node(idx).kind == KIND_CHANCE,
        k <= 52,
    ensures
        s.worth_dealt(false, idx, p, reach, dealt, k).len() == s.nh(p),
        (46 - s.node(idx).street) * (BILLION * size(
            s.worth_dealt(false, idx, p, reach, dealt, k)[i].count as int,
        )) <= k * (top * times_over(s.node(idx).street as int) * meets(s, p, reach, i)),
        forall|c: int|
            0 <= c < k && s.comes(idx, dealt, c) ==> (#[trigger] dealt_part(
                s,
                idx,
                p,
                reach,
                dealt,
                c,
            )).len() == s.nh(p) && sums_up(s, idx, p, reach, dealt, i, c),
    decreases s.spot.tree.nodes@.len() - idx, k,
{
    s.lemma_chance(idx);
    lemma_sides(s, p, reach, dealt, i);
    let b = BILLION as int;
    let left = 46 - s.node(idx).street;
    let child = times_over(s.node(idx).street as int);
    let m = meets(s, p, reach, i);
    let unit = top * child * m;
    assert(0 <= unit) by (nonlinear_arith)
        requires
            unit == top * child * m,
            0 <= top,
            0 <= m,
            1 <= child,
    ;
    assert(nano::ten_to(0) == 1);
    if k > 0 {
        let less = (k - 1) as nat;
        lemma_backed_dealt(s, idx, p, reach, dealt, i, less, top);
        let c = k - 1;
        let was = s.worth_dealt(false, idx, p, reach, dealt, less)[i];
        let now = s.worth_dealt(false, idx, p, reach, dealt, k)[i];
        assert(k * unit == less * unit + unit) by (nonlinear_arith)
            requires
                k == less + 1,
        ;
        if s.comes(idx, dealt, c) {
            s.lemma_deal(idx, dealt, c);
            let past = cfr::reach_past(s.spot.hands[1 - p]@, reach, c);
            let next = dealt.push(c as u8);
            lemma_past_inside(s, 1 - p, reach, c);
            lemma_bearable(past, reach, top);
            law_values_are_backed(s, s.child(idx, c), p, past, next, i, top);
            let asked = |j: int|
                removal_laws::apart(s.spot.hands[1 - p]@[j], s.spot.hands[p]@[i]);
            weigh_laws::lemma_inside(past, reach, reach.len() as int, asked);
            let v = s.worth_below(false, idx, c, p, past, next)[i];
            let x = v.count as int;
            lemma_backed_more(x, top, child, meets(s, p, past, i), m);
            let d = Nano::decimal_spec(left as i64, 0);
            assert(d.count == left * b);
            let part = v.over_spec(d);
            let q = nano::cut_div(x * b, left * b);
            weigh_laws::lemma_cut_near(x * b, left * b);
            assert(size(x * b) == size(x) * b) by (nonlinear_arith)
                requires
                    0 < b,
                    x < 0 ==> size(x) == -x,
                    x >= 0 ==> size(x) == x,
                    x * b < 0 ==> size(x * b) == -(x * b),
                    x * b >= 0 ==> size(x * b) == x * b,
            ;
            let (sq, sx) = (size(q), size(x));
            assert(left * sq <= sx && sq <= sx) by (nonlinear_arith)
                requires
                    left * b * sq <= sx * b,
                    0 < b,
                    1 <= left,
                    0 <= sq,
            ;
            assert(part.count == q);
            assert(left * (b * sq) <= unit) by (nonlinear_arith)
                requires
                    left * sq <= sx,
                    b * sx <= unit,
                    0 < b,
            ;
            let w = was.count as int;
            let sum = w + q;
            assert(left * (b * size(sum)) <= k * unit) by (nonlinear_arith)
                requires
                    left * (b * size(w)) <= less * unit,
                    left * (b * sq) <= unit,
                    k * unit == less * unit + unit,
                    size(sum) <= size(w) + sq,
                    0 < left,
                    0 < b,
            ;
            lemma_dealt_small(sum, left, k as int, top, child, m, reach);
            assert(now == if cfr::holds(s.spot.hands[p]@[i], c) {
                was
            } else {
                was.plus_spec(part)
            });
            assert(dealt_part(s, idx, p, reach, dealt, c)[i].count == if cfr::holds(
                s.spot.hands[p]@[i],
                c,
            ) {
                0
            } else {
                q
            });
            assert(sums_up(s, idx, p, reach, dealt, i, c));
        }
    } else {
        assert(left * (b * 0) == 0 && 0 * unit == 0) by (nonlinear_arith);
    }
}

/// What card `c` adds to the values at a chance node.
pub open spec fn dealt_part(
    s: Solver<Nano>,
    idx: int,
    p: int,
    reach: Seq<Nano>,
    dealt: Seq<Card>,
    c: int,
) -> Seq<Nano> {
    let v = s.worth_below(
        false,
        idx,
        c,
        p,
        cfr::reach_past(s.spot.hands[1 - p]@, reach, c),
        dealt.push(c as u8),
    );
    Seq::new(
        s.nh(p) as nat,
        |i: int|
            if cfr::holds(s.spot.hands[p]@[i], c) {
                Nano { count: 0 }
            } else {
                v[i].over_spec(Nano::decimal_spec((46 - s.node(idx).street) as i64, 0))
            },
    )
}

/// Whether the part of card `c` is added to hand `i` in range.
pub open spec fn sums_up(
    s: Solver<Nano>,
    idx: int,
    p: int,
    reach: Seq<Nano>,
    dealt: Seq<Card>,
    i: int,
    c: int,
) -> bool {
    s.worth_dealt(false, idx, p, reach, dealt, (c + 1) as nat)[i].count == s.worth_dealt(
        false,
        idx,
        p,
        reach,
        dealt,
        c as nat,
    )[i].count + dealt_part(s, idx, p, reach, dealt, c)[i].count
}

proof fn lemma_dealt_small(
    v: int,
    left: int,
    k: int,
    top: int,
    child: int,
    m: int,
    reach: Seq<Nano>,
)
    requires
        bearable(reach, top),
        0 <= m <= play_laws::counted(reach),
        0 <= top,
        1 <= child <= 2,
        44 <= left,
        0 <= k <= 52,
        left * (BILLION * size(v)) <= k * (top * child * m),
    ensures
        size(v) <= i64::MAX,
{
    let r = play_laws::counted(reach);
    let b = BILLION as int;
    let x = size(v);
    let unit = top * child * m;
    assert(0 <= unit <= 2 * (top * r)) by (nonlinear_arith)
        requires
            unit == top * child * m,
            0 <= m <= r,
            0 <= top,
            1 <= child <= 2,
    ;
    assert(44 * (b * x) <= 52 * unit) by (nonlinear_arith)
        requires
            left * (b * x) <= k * unit,
            44 <= left,
            k <= 52,
            0 <= x,
            0 < b,
            0 <= unit,
    ;
    assert(5 * top * r == 5 * (top * r)) by (nonlinear_arith);
    assert(b * x <= i64::MAX * b);
    assert(x <= i64::MAX) by (nonlinear_arith)
        requires
            b * x <= i64::MAX * b,
            0 < b,
    ;
}

/// Values that are backed add up to one that is.
proof fn lemma_backed_sum(x: int, y: int, top: int, over: int, m: int, n: int)
    requires
        backed(x, top, over, m),
        backed(y, top, over, n),
    ensures
        backed(x + y, top, over, m + n),
{
    let t = top * over;
    let (a, b, c) = (size(x), size(y), size(x + y));
    vstd::arithmetic::mul::lemma_mul_is_distributive_add(t, m, n);
    assert(BILLION * c <= BILLION * a + BILLION * b);
}

#[verifier::rlimit(40)]
#[verifier::spinoff_prover]
proof fn lemma_backed_facing(
    s: Solver<Nano>,
    idx: int,
    p: int,
    reach: Seq<Nano>,
    dealt: Seq<Card>,
    i: int,
    k: nat,
    top: int,
)
    requires
        response_laws::arrives(s, idx, p, reach, dealt, i),
        fair_play(s, top),
        bearable(reach, top),
        s.node(idx).kind == tree::KIND_ACTION,
        s.node(idx).player != p,
        k <= s.node(idx).num_children,
    ensures
        s.worth_facing(false, idx, p, reach, dealt, k).len() == s.nh(p),
        backed(
            s.worth_facing(false, idx, p, reach, dealt, k)[i].count as int,
            top,
            times_over(s.node(idx).street as int),
            weigh_laws::taking(
                reach,
                s.played(idx),
                reach.len() as int,
                |j: int| removal_laws::apart(s.spot.hands[1 - p]@[j], s.spot.hands[p]@[i]),
                k as int,
            ),
        ),
        forall|a: int|
            0 <= a < k ==> (#[trigger] facing_part(s, idx, p, reach, dealt, a)).len() == s.nh(p)
                && s.worth_facing(false, idx, p, reach, dealt, (a + 1) as nat)[i].count
                == s.worth_facing(false, idx, p, reach, dealt, a as nat)[i].count + facing_part(
                s,
                idx,
                p,
                reach,
                dealt,
                a,
            )[i].count,
    decreases s.spot.tree.nodes@.len() - idx, k,
{
    s.lemma_decision(idx);
    lemma_range_shares(s, idx, reach);
    let sigma = s.played(idx);
    let na = s.node(idx).num_children as int;
    let over = times_over(s.node(idx).street as int);
    let asked = |j: int| removal_laws::apart(s.spot.hands[1 - p]@[j], s.spot.hands[p]@[i]);
    let n = reach.len() as int;
    assert(nano::ten_to(0) == 1);
    if k > 0 {
        let less = (k - 1) as nat;
        let a = k - 1;
        lemma_backed_facing(s, idx, p, reach, dealt, i, less, top);
        let on = strategy::reach_through(reach, sigma, a);
        let c = s.child(idx, a);
        assert(idx < c);
        weigh_laws::lemma_through_inside(reach, sigma, na, a);
        lemma_bearable(on, reach, top);
        law_values_are_backed(s, c, p, on, dealt, i, top);
        let was = s.worth_facing(false, idx, p, reach, dealt, less)[i].count as int;
        let x = s.worth_below(false, idx, a, p, on, dealt)[i].count as int;
        let (t0, t1) = (
            weigh_laws::taking(reach, sigma, n, asked, a),
            removal_laws::reach_where(on, n, asked),
        );
        assert(t1 == meets(s, p, on, i));
        lemma_backed_sum(was, x, top, over, t0, t1);
        weigh_laws::lemma_taking(reach, sigma, na, n, asked, k as int);
        removal_laws::lemma_where_bound(reach, n, asked);
        lemma_sides(s, p, reach, dealt, i);
        assert(0 <= t0 + t1) by {
            lemma_taking_positive(reach, sigma, na, n, asked, k as int);
        }
        lemma_backed_small(was + x, top, over, t0 + t1, reach);
    } else {
        assert(top * over * 0 == 0) by (nonlinear_arith);
    }
}

/// What the opponent's action `a` adds to the values.
pub open spec fn facing_part(
    s: Solver<Nano>,
    idx: int,
    p: int,
    reach: Seq<Nano>,
    dealt: Seq<Card>,
    a: int,
) -> Seq<Nano> {
    s.worth_below(false, idx, a, p, strategy::reach_through(reach, s.played(idx), a), dealt)
}

proof fn lemma_taking_positive(
    reach: Seq<Nano>,
    sigma: Seq<Nano>,
    na: int,
    n: int,
    asked: spec_fn(int) -> bool,
    k: int,
)
    requires
        play_laws::none_negative(reach),
        play_laws::range_shares_one(reach, sigma, na),
        0 <= n <= reach.len(),
        k <= na,
    ensures
        0 <= weigh_laws::taking(reach, sigma, n, asked, k),
    decreases k,
{
    if k > 0 {
        lemma_taking_positive(reach, sigma, na, n, asked, k - 1);
        weigh_laws::lemma_through_inside(reach, sigma, na, k - 1);
        weigh_laws::lemma_inside(
            strategy::reach_through(reach, sigma, k - 1),
            reach,
            n,
            asked,
        );
    }
}

/// What the player's own action `a` adds to the values.
pub open spec fn mixing_part(
    s: Solver<Nano>,
    idx: int,
    p: int,
    reach: Seq<Nano>,
    dealt: Seq<Card>,
    a: int,
) -> Seq<Nano> {
    let v = s.worth_below(false, idx, a, p, reach, dealt);
    Seq::new(
        s.nh(p) as nat,
        |i: int| s.played(idx)[strategy::cell(s.nh(p), a, i)].times_spec(v[i]),
    )
}

/// One more action is mixed in.
proof fn lemma_mix_step(share: Nano, v: Nano, was: int, unit: int, u0: int)
    requires
        0 <= share.count,
        u0 + share.count <= BILLION,
        0 <= u0,
        0 <= unit,
        size(v.count as int) <= i64::MAX,
        BILLION * size(v.count as int) <= unit,
        BILLION * (BILLION * size(was)) <= unit * u0,
    ensures
        ({
            let q = nano::cut_div(share.count * v.count, BILLION as int);
            &&& share.times_spec(v).count == q
            &&& BILLION * (BILLION * size(was + q)) <= unit * (u0 + share.count)
            &&& BILLION * size(was + q) <= unit
        }),
{
    let b = BILLION as int;
    let (x, y) = (share.count as int, v.count as int);
    let z = x * y;
    assert(size(z) == x * size(y)) by (nonlinear_arith)
        requires
            z == x * y,
            0 <= x,
            y < 0 ==> size(y) == -y,
            y >= 0 ==> size(y) == y,
            z < 0 ==> size(z) == -z,
            z >= 0 ==> size(z) == z,
    ;
    let w = size(y);
    assert(x * w <= i64::MAX * b) by (nonlinear_arith)
        requires
            0 <= x <= b,
            0 <= w <= i64::MAX,
    ;
    weigh_laws::lemma_times_near(share, v, i64::MAX as int);
    let q = nano::cut_div(z, b);
    weigh_laws::lemma_cut_near(z, b);
    let (sum, sw, sq) = (size(was + q), size(was), size(q));
    assert(b * (b * sum) <= unit * (u0 + x)) by (nonlinear_arith)
        requires
            b * (b * sw) <= unit * u0,
            b * sq <= x * w,
            b * w <= unit,
            sum <= sw + sq,
            0 <= x,
            0 < b,
    ;
    let u1 = u0 + x;
    assert(b * sum <= unit) by (nonlinear_arith)
        requires
            b * (b * sum) <= unit * u1,
            u1 <= b,
            0 <= unit,
            0 < b,
    ;
}

#[verifier::rlimit(60)]
#[verifier::spinoff_prover]
pub(crate) proof fn lemma_backed_mixing(
    s: Solver<Nano>,
    idx: int,
    p: int,
    reach: Seq<Nano>,
    dealt: Seq<Card>,
    i: int,
    k: nat,
    top: int,
)
    requires
        response_laws::arrives(s, idx, p, reach, dealt, i),
        fair_play(s, top),
        bearable(reach, top),
        s.node(idx).kind == tree::KIND_ACTION,
        s.node(idx).player == p,
        k <= s.node(idx).num_children,
    ensures
        s.worth_mixing(false, idx, p, reach, dealt, k).len() == s.nh(p),
        backed(
            s.worth_mixing(false, idx, p, reach, dealt, k)[i].count as int,
            top,
            times_over(s.node(idx).street as int),
            meets(s, p, reach, i),
        ),
        BILLION * (BILLION * size(
            s.worth_mixing(false, idx, p, reach, dealt, k)[i].count as int,
        )) <= top * times_over(s.node(idx).street as int) * meets(s, p, reach, i)
            * play_laws::counted(
            strategy::column(
                s.played(idx),
                s.node(idx).num_children as int,
                s.nh(p),
                i,
            ).take(k as int),
        ),
        forall|a: int| 0 <= a < k ==> #[trigger] mixes_up(s, idx, p, reach, dealt, i, a, top),
    decreases s.spot.tree.nodes@.len() - idx, k,
{
    s.lemma_decision(idx);
    lemma_sides(s, p, reach, dealt, i);
    let b = BILLION as int;
    let na = s.node(idx).num_children as int;
    let over = times_over(s.node(idx).street as int);
    let m = meets(s, p, reach, i);
    let shares = strategy::column(s.played(idx), na, s.nh(p), i);
    assert(play_laws::share_one(shares));
    play_laws::lemma_counted_bound(shares);
    let unit = top * over * m;
    assert(0 <= unit) by (nonlinear_arith)
        requires
            unit == top * over * m,
            0 <= top,
            0 <= m,
            1 <= over,
    ;
    assert(nano::ten_to(0) == 1);
    if k > 0 {
        let less = (k - 1) as nat;
        let a = k - 1;
        lemma_backed_mixing(s, idx, p, reach, dealt, i, less, top);
        let c = s.child(idx, a);
        assert(idx < c);
        law_values_are_backed(s, c, p, reach, dealt, i, top);
        let v = s.worth_below(false, idx, a, p, reach, dealt)[i];
        let share = shares[a];
        assert(share == s.played(idx)[strategy::cell(s.nh(p), a, i)]);
        let (x, y) = (share.count as int, v.count as int);
        lemma_backed_small(y, top, over, m, reach);
        assert(shares.take(k as int).drop_last() =~= shares.take(less as int));
        play_laws::lemma_taken_bound(shares, k as int);
        play_laws::lemma_taken_bound(shares, less as int);
        let was = s.worth_mixing(false, idx, p, reach, dealt, less)[i].count as int;
        let u0 = play_laws::counted(shares.take(less as int));
        let sum = was + nano::cut_div(x * y, b);
        lemma_mix_step(share, v, was, unit, u0);
        lemma_backed_small(sum, top, over, m, reach);
        assert(mixes_up(s, idx, p, reach, dealt, i, a, top));
    } else {
        assert(shares.take(0) =~= Seq::<Nano>::empty());
        assert(b * (b * 0) == 0 && unit * 0 == 0) by (nonlinear_arith);
    }
}

/// Whether the part of action `a` is added to hand `i` in range, and the
/// action's value is backed.
pub open spec fn mixes_up(
    s: Solver<Nano>,
    idx: int,
    p: int,
    reach: Seq<Nano>,
    dealt: Seq<Card>,
    i: int,
    a: int,
    top: int,
) -> bool {
    let v = s.worth_below(false, idx, a, p, reach, dealt);
    let part = mixing_part(s, idx, p, reach, dealt, a);
    &&& v.len() == s.nh(p)
    &&& backed(v[i].count as int, top, times_over(s.node(idx).street as int), meets(s, p, reach, i))
    &&& part[i].count == nano::cut_div(
        s.played(idx)[strategy::cell(s.nh(p), a, i)].count * v[i].count,
        BILLION as int,
    )
    &&& s.worth_mixing(false, idx, p, reach, dealt, (a + 1) as nat)[i].count == s.worth_mixing(
        false,
        idx,
        p,
        reach,
        dealt,
        a as nat,
    )[i].count + part[i].count
}

// ---------------------------------------------------------------------------
// What one player wins
// ---------------------------------------------------------------------------

/// What both players' values come to together, each weighed by its own reach.
pub open spec fn together(
    s: Solver<Nano>,
    idx: int,
    r0: Seq<Nano>,
    r1: Seq<Nano>,
    dealt: Seq<Card>,
) -> int {
    weigh_laws::dot(r0, s.worth(false, idx, 0, r1, dealt), s.nh(0)) + weigh_laws::dot(
        r1,
        s.worth(false, idx, 1, r0, dealt),
        s.nh(1),
    )
}

/// All reach of both players.
pub open spec fn all_reach(r0: Seq<Nano>, r1: Seq<Nano>) -> int {
    play_laws::counted(r0) + play_laws::counted(r1)
}

/// The reach of player `p`.
pub open spec fn reach_of(p: int, r0: Seq<Nano>, r1: Seq<Nano>) -> Seq<Nano> {
    if p == 0 {
        r0
    } else {
        r1
    }
}

/// The reaches after player `p` has taken an action.
pub open spec fn taken_by(
    p: int,
    r0: Seq<Nano>,
    r1: Seq<Nano>,
    sigma: Seq<Nano>,
    a: int,
) -> (Seq<Nano>, Seq<Nano>) {
    if p == 0 {
        (strategy::reach_through(r0, sigma, a), r1)
    } else {
        (r0, strategy::reach_through(r1, sigma, a))
    }
}

/// How far rounding can take the values of both players from evening out: one
/// or two for all reach at the end of a hand, and at a decision one for each
/// hand's reach and value with each action.
pub open spec fn drift(
    s: Solver<Nano>,
    idx: int,
    r0: Seq<Nano>,
    r1: Seq<Nano>,
    dealt: Seq<Card>,
) -> int
    decreases s.spot.tree.nodes@.len() - idx, 256nat,
{
    let n = s.node(idx);
    if idx < 0 || idx >= s.spot.tree.nodes@.len() {
        0
    } else if n.kind == KIND_TERM_FOLD {
        all_reach(r0, r1)
    } else if n.kind == KIND_TERM_SHOWDOWN {
        2 * all_reach(r0, r1)
    } else if n.kind == KIND_CHANCE {
        drift_dealt(s, idx, r0, r1, dealt, 52) / (46 - n.street) + 1 + 52 * all_reach(r0, r1)
    } else {
        drift_acting(s, idx, r0, r1, dealt, n.num_children as nat)
    }
}

pub open spec fn drift_below(
    s: Solver<Nano>,
    idx: int,
    slot: int,
    r0: Seq<Nano>,
    r1: Seq<Nano>,
    dealt: Seq<Card>,
) -> int
    decreases s.spot.tree.nodes@.len() - idx, 0nat,
{
    let c = s.child(idx, slot);
    if idx < c < s.spot.tree.nodes@.len() && idx >= 0 {
        drift(s, c, r0, r1, dealt)
    } else {
        0
    }
}

/// How far the first `k` cards can take them.
pub open spec fn drift_dealt(
    s: Solver<Nano>,
    idx: int,
    r0: Seq<Nano>,
    r1: Seq<Nano>,
    dealt: Seq<Card>,
    k: nat,
) -> int
    decreases s.spot.tree.nodes@.len() - idx, k,
{
    if k == 0 {
        0
    } else {
        let c = k - 1;
        let before = drift_dealt(s, idx, r0, r1, dealt, (k - 1) as nat);
        if s.comes(idx, dealt, c) {
            before + drift_below(
                s,
                idx,
                c,
                cfr::reach_past(s.spot.hands[0]@, r0, c),
                cfr::reach_past(s.spot.hands[1]@, r1, c),
                dealt.push(c as u8),
            )
        } else {
            before
        }
    }
}

/// How far the first `k` actions can take them.
pub open spec fn drift_acting(
    s: Solver<Nano>,
    idx: int,
    r0: Seq<Nano>,
    r1: Seq<Nano>,
    dealt: Seq<Card>,
    k: nat,
) -> int
    decreases s.spot.tree.nodes@.len() - idx, k,
{
    if k == 0 {
        0
    } else {
        let p = s.node(idx).player as int;
        let (n0, n1) = taken_by(p, r0, r1, s.played(idx), k - 1);
        let v = s.worth_below(false, idx, k - 1, p, reach_of(1 - p, r0, r1), dealt);
        drift_acting(s, idx, r0, r1, dealt, (k - 1) as nat) + drift_below(
            s,
            idx,
            k - 1,
            n0,
            n1,
            dealt,
        ) + play_laws::counted(reach_of(p, r0, r1)) + weigh_laws::heft(v, s.nh(p))
    }
}

/// Values that are near an amount for what each hand counts.
proof fn lemma_pays(
    reach: Seq<Nano>,
    vals: Seq<Nano>,
    n: int,
    amount: int,
    f: spec_fn(int) -> int,
    e: int,
)
    requires
        play_laws::none_negative(reach),
        n == reach.len(),
        0 <= e,
        forall|i: int|
            0 <= i < n ==> size(BILLION * (#[trigger] vals[i]).count - amount * f(i)) <= e
                * BILLION,
    ensures
        size(
            BILLION * weigh_laws::dot(reach, vals, n) - amount * weigh_laws::weighed(reach, n, f),
        ) <= e * BILLION * play_laws::counted(reach),
{
    let b = BILLION as int;
    let v = |i: int| vals[i].count as int;
    let x = |i: int| b * v(i) + 0 * v(i);
    let y = |i: int| amount * f(i) + 0 * f(i);
    weigh_laws::lemma_weighed_linear(reach, n, v, v, x, b, 0);
    weigh_laws::lemma_weighed_linear(reach, n, f, f, y, amount, 0);
    assert forall|i: int| 0 <= i < n implies size(#[trigger] x(i) - y(i)) <= e * b by {
        assert(size(b * vals[i].count - amount * f(i)) <= e * b);
    }
    weigh_laws::lemma_weighed_near(reach, n, x, y, e * b);
    assert(reach.take(n) =~= reach);
}

/// Both players meet each other's reach alike.
pub(crate) proof fn lemma_meet_alike(s: Solver<Nano>, r0: Seq<Nano>, r1: Seq<Nano>)
    ensures
        weigh_laws::weighed(r0, s.nh(0), |i: int| meets(s, 0, r1, i)) == weigh_laws::weighed(
            r1,
            s.nh(1),
            |j: int| meets(s, 1, r0, j),
        ),
{
    let (h0, h1) = (s.spot.hands[0]@, s.spot.hands[1]@);
    let paired = |i: int, j: int| removal_laws::apart(h1[j], h0[i]);
    weigh_laws::lemma_either_side(r0, r1, s.nh(0), s.nh(1), paired);
    let left = |i: int| removal_laws::reach_where(r1, s.nh(1), |j: int| paired(i, j));
    let right = |j: int| removal_laws::reach_where(r0, s.nh(0), |i: int| paired(i, j));
    assert forall|i: int| 0 <= i < s.nh(0) implies #[trigger] left(i) == meets(s, 0, r1, i) by {
        removal_laws::lemma_same_where(
            r1,
            s.nh(1),
            |j: int| paired(i, j),
            |j: int| removal_laws::apart(h1[j], h0[i]),
        );
    }
    assert forall|j: int| 0 <= j < s.nh(1) implies #[trigger] right(j) == meets(s, 1, r0, j) by {
        removal_laws::lemma_same_where(
            r0,
            s.nh(0),
            |i: int| paired(i, j),
            |i: int| removal_laws::apart(h0[i], h1[j]),
        );
    }
    weigh_laws::lemma_weighed_same(r0, s.nh(0), left, |i: int| meets(s, 0, r1, i));
    weigh_laws::lemma_weighed_same(r1, s.nh(1), right, |j: int| meets(s, 1, r0, j));
}

/// What the one player beats is what beats the other.
proof fn lemma_beat_alike(
    s: Solver<Nano>,
    r0: Seq<Nano>,
    r1: Seq<Nano>,
    dealt: Seq<Card>,
    beats: bool,
)
    ensures
        weigh_laws::weighed(r0, s.nh(0), |i: int| side(s, 0, r1, dealt, i, beats))
            == weigh_laws::weighed(r1, s.nh(1), |j: int| side(s, 1, r0, dealt, j, !beats)),
{
    let (h0, h1) = (s.spot.hands[0]@, s.spot.hands[1]@);
    let (n0, n1) = (s.nh(0), s.nh(1));
    let board = s.spot.board@;
    let extra = removal_laws::runout(s, dealt);
    let paired = |i: int, j: int|
        removal_laws::in_play(h0, extra, i) && removal_laws::in_play(h1, extra, j)
            && removal_laws::apart(h1[j], h0[i]) && if beats {
            removal_laws::strong(h1, board, extra, j) < removal_laws::strong(h0, board, extra, i)
        } else {
            removal_laws::strong(h1, board, extra, j) > removal_laws::strong(h0, board, extra, i)
        };
    weigh_laws::lemma_either_side(r0, r1, n0, n1, paired);
    let left = |i: int| removal_laws::reach_where(r1, n1, |j: int| paired(i, j));
    let right = |j: int| removal_laws::reach_where(r0, n0, |i: int| paired(i, j));
    assert forall|i: int| 0 <= i < n0 implies #[trigger] left(i) == side(
        s,
        0,
        r1,
        dealt,
        i,
        beats,
    ) by {
        let own = removal_laws::strong(h0, board, extra, i);
        let row = |j: int| paired(i, j);
        if removal_laws::in_play(h0, extra, i) {
            let less = |x: u32| x < own;
            let more = |x: u32| x > own;
            if beats {
                removal_laws::lemma_same_where(
                    r1,
                    n1,
                    row,
                    |j: int|
                        removal_laws::in_play(h1, extra, j) && removal_laws::apart(h1[j], h0[i])
                            && less(removal_laws::strong(h1, board, extra, j)),
                );
            } else {
                removal_laws::lemma_same_where(
                    r1,
                    n1,
                    row,
                    |j: int|
                        removal_laws::in_play(h1, extra, j) && removal_laws::apart(h1[j], h0[i])
                            && more(removal_laws::strong(h1, board, extra, j)),
                );
            }
        } else {
            removal_laws::lemma_none_where(r1, n1, row);
        }
    }
    assert forall|j: int| 0 <= j < n1 implies #[trigger] right(j) == side(
        s,
        1,
        r0,
        dealt,
        j,
        !beats,
    ) by {
        let own = removal_laws::strong(h1, board, extra, j);
        let row = |i: int| paired(i, j);
        if removal_laws::in_play(h1, extra, j) {
            let less = |x: u32| x < own;
            let more = |x: u32| x > own;
            if beats {
                removal_laws::lemma_same_where(
                    r0,
                    n0,
                    row,
                    |i: int|
                        removal_laws::in_play(h0, extra, i) && removal_laws::apart(h0[i], h1[j])
                            && more(removal_laws::strong(h0, board, extra, i)),
                );
            } else {
                removal_laws::lemma_same_where(
                    r0,
                    n0,
                    row,
                    |i: int|
                        removal_laws::in_play(h0, extra, i) && removal_laws::apart(h0[i], h1[j])
                            && less(removal_laws::strong(h0, board, extra, i)),
                );
            }
        } else {
            removal_laws::lemma_none_where(r0, n0, row);
        }
    }
    weigh_laws::lemma_weighed_same(r0, n0, left, |i: int| side(s, 0, r1, dealt, i, beats));
    weigh_laws::lemma_weighed_same(r1, n1, right, |j: int| side(s, 1, r0, dealt, j, !beats));
}

/// Whether both players stand before a node.
pub open spec fn both_arrive(
    s: Solver<Nano>,
    idx: int,
    r0: Seq<Nano>,
    r1: Seq<Nano>,
    dealt: Seq<Card>,
    top: int,
) -> bool {
    &&& fair_play(s, top)
    &&& s.dealt_to(idx, dealt)
    &&& r0.len() == s.nh(0)
    &&& r1.len() == s.nh(1)
    &&& bearable(r0, top)
    &&& bearable(r1, top)
}

proof fn lemma_fold_evens_out(
    s: Solver<Nano>,
    idx: int,
    r0: Seq<Nano>,
    r1: Seq<Nano>,
    dealt: Seq<Card>,
    top: int,
)
    requires
        both_arrive(s, idx, r0, r1, dealt, top),
        s.node(idx).kind == KIND_TERM_FOLD,
    ensures
        size(together(s, idx, r0, r1, dealt)) <= all_reach(r0, r1),
{
    let n = s.node(idx);
    let b = BILLION as int;
    assert(evens_out(s.spot.tree.nodes@[idx], top));
    assert(tree_laws::node_sound(s.spot.tree.arena(), s.spot.board_mask, idx));
    let (a0, a1) = (fold_amount(n, 0).count as int, fold_amount(n, 1).count as int);
    assert(a1 == -a0);
    let (w0, w1) = (s.worth(false, idx, 0, r1, dealt), s.worth(false, idx, 1, r0, dealt));
    let f0 = |i: int| meets(s, 0, r1, i);
    let f1 = |j: int| meets(s, 1, r0, j);
    assert forall|i: int| 0 <= i < s.nh(0) implies size(b * (#[trigger] w0[i]).count - a0 * f0(i))
        <= 1 * b by {
        lemma_fold_at(s, idx, 0, r1, dealt, i, top);
        weigh_laws::lemma_cut_near(a0 * f0(i), b);
    }
    assert forall|j: int| 0 <= j < s.nh(1) implies size(b * (#[trigger] w1[j]).count - a1 * f1(j))
        <= 1 * b by {
        lemma_fold_at(s, idx, 1, r0, dealt, j, top);
        weigh_laws::lemma_cut_near(a1 * f1(j), b);
    }
    lemma_pays(r0, w0, s.nh(0), a0, f0, 1);
    lemma_pays(r1, w1, s.nh(1), a1, f1, 1);
    lemma_meet_alike(s, r0, r1);
    let m = weigh_laws::weighed(r0, s.nh(0), f0);
    assert(a0 * m + a1 * m == 0) by (nonlinear_arith)
        requires
            a1 == -a0,
    ;
    let (d0, d1) = (weigh_laws::dot(r0, w0, s.nh(0)), weigh_laws::dot(r1, w1, s.nh(1)));
    let (c0, c1) = (play_laws::counted(r0), play_laws::counted(r1));
    assert(size(d0 + d1) <= c0 + c1) by (nonlinear_arith)
        requires
            b * d0 - a0 * m <= 1 * b * c0,
            a0 * m - b * d0 <= 1 * b * c0,
            b * d1 - a1 * m <= 1 * b * c1,
            a1 * m - b * d1 <= 1 * b * c1,
            a0 * m + a1 * m == 0,
            size(d0 + d1) == d0 + d1 || size(d0 + d1) == -(d0 + d1),
            0 < b,
    ;
}

proof fn lemma_showdown_side(
    s: Solver<Nano>,
    idx: int,
    p: int,
    own: Seq<Nano>,
    reach: Seq<Nano>,
    dealt: Seq<Card>,
    top: int,
)
    requires
        fair_play(s, top),
        s.dealt_to(idx, dealt),
        0 <= p < 2,
        own.len() == s.nh(p),
        reach.len() == s.nh(1 - p),
        bearable(own, top),
        bearable(reach, top),
        s.node(idx).kind == KIND_TERM_SHOWDOWN,
    ensures
        ({
            let w = s.node(idx).t_win.count as int;
            let lo = weigh_laws::weighed(
                own,
                s.nh(p),
                |i: int| side(s, p, reach, dealt, i, true),
            );
            let hi = weigh_laws::weighed(
                own,
                s.nh(p),
                |i: int| side(s, p, reach, dealt, i, false),
            );
            size(
                BILLION * weigh_laws::dot(own, s.worth(false, idx, p, reach, dealt), s.nh(p)) - w
                    * (lo - hi),
            ) <= 2 * BILLION * play_laws::counted(own)
        }),
{
    let b = BILLION as int;
    let w = s.node(idx).t_win.count as int;
    let vals = s.worth(false, idx, p, reach, dealt);
    let lo = |i: int| side(s, p, reach, dealt, i, true);
    let hi = |i: int| side(s, p, reach, dealt, i, false);
    let f = |i: int| 1 * lo(i) + (-1) * hi(i);
    assert forall|i: int| 0 <= i < s.nh(p) implies size(b * (#[trigger] vals[i]).count - w * f(i))
        <= 2 * b by {
        lemma_showdown_at(s, idx, p, reach, dealt, i, top);
        let (x, y) = (lo(i), hi(i));
        weigh_laws::lemma_cut_near(w * x, b);
        weigh_laws::lemma_cut_near(-w * y, b);
        assert(w * (1 * x + (-1) * y) == w * x + (-w * y)) by (nonlinear_arith);
    }
    lemma_pays(own, vals, s.nh(p), w, f, 2);
    weigh_laws::lemma_weighed_linear(own, s.nh(p), lo, hi, f, 1, -1);
}

proof fn lemma_showdown_evens_out(
    s: Solver<Nano>,
    idx: int,
    r0: Seq<Nano>,
    r1: Seq<Nano>,
    dealt: Seq<Card>,
    top: int,
)
    requires
        both_arrive(s, idx, r0, r1, dealt, top),
        s.node(idx).kind == KIND_TERM_SHOWDOWN,
    ensures
        size(together(s, idx, r0, r1, dealt)) <= 2 * all_reach(r0, r1),
{
    let b = BILLION as int;
    let w = s.node(idx).t_win.count as int;
    lemma_showdown_side(s, idx, 0, r0, r1, dealt, top);
    lemma_showdown_side(s, idx, 1, r1, r0, dealt, top);
    lemma_beat_alike(s, r0, r1, dealt, true);
    lemma_beat_alike(s, r0, r1, dealt, false);
    let l0 = weigh_laws::weighed(r0, s.nh(0), |i: int| side(s, 0, r1, dealt, i, true));
    let h0 = weigh_laws::weighed(r0, s.nh(0), |i: int| side(s, 0, r1, dealt, i, false));
    let l1 = weigh_laws::weighed(r1, s.nh(1), |i: int| side(s, 1, r0, dealt, i, true));
    let h1 = weigh_laws::weighed(r1, s.nh(1), |i: int| side(s, 1, r0, dealt, i, false));
    assert(l0 == h1 && h0 == l1);
    let d0 = weigh_laws::dot(r0, s.worth(false, idx, 0, r1, dealt), s.nh(0));
    let d1 = weigh_laws::dot(r1, s.worth(false, idx, 1, r0, dealt), s.nh(1));
    let (c0, c1) = (play_laws::counted(r0), play_laws::counted(r1));
    let (x, y) = (w * (l0 - h0), w * (l1 - h1));
    assert(x + y == 0) by (nonlinear_arith)
        requires
            x == w * (l0 - h0),
            y == w * (l1 - h1),
            l0 == h1,
            h0 == l1,
    ;
    assert(size(d0 + d1) <= 2 * (c0 + c1)) by (nonlinear_arith)
        requires
            b * d0 - x <= 2 * b * c0,
            x - b * d0 <= 2 * b * c0,
            b * d1 - y <= 2 * b * c1,
            y - b * d1 <= 2 * b * c1,
            x + y == 0,
            size(d0 + d1) == d0 + d1 || size(d0 + d1) == -(d0 + d1),
            0 < b,
    ;
}

/// What a card adds, weighed by reach, is near what the reach past the card
/// weighs, shared out between the cards that are left.
proof fn lemma_deal_moves(
    s: Solver<Nano>,
    idx: int,
    p: int,
    own: Seq<Nano>,
    reach: Seq<Nano>,
    dealt: Seq<Card>,
    c: int,
    n: int,
)
    requires
        s.wf(),
        0 <= p < 2,
        play_laws::none_negative(own),
        own.len() == s.nh(p),
        0 <= n <= own.len(),
        1 <= s.node(idx).street <= 2,
        s.worth_below(
            false,
            idx,
            c,
            p,
            cfr::reach_past(s.spot.hands[1 - p]@, reach, c),
            dealt.push(c as u8),
        ).len() == s.nh(p),
    ensures
        ({
            let v = s.worth_below(
                false,
                idx,
                c,
                p,
                cfr::reach_past(s.spot.hands[1 - p]@, reach, c),
                dealt.push(c as u8),
            );
            let left = 46 - s.node(idx).street;
            size(
                left * weigh_laws::dot(own, dealt_part(s, idx, p, reach, dealt, c), n)
                    - weigh_laws::dot(cfr::reach_past(s.spot.hands[p]@, own, c), v, n),
            ) <= left * play_laws::reach_counted(own, n)
        }),
        0 <= play_laws::reach_counted(own, n) <= play_laws::counted(own),
    decreases n,
{
    let b = BILLION as int;
    let left = 46 - s.node(idx).street;
    let v = s.worth_below(
        false,
        idx,
        c,
        p,
        cfr::reach_past(s.spot.hands[1 - p]@, reach, c),
        dealt.push(c as u8),
    );
    let part = dealt_part(s, idx, p, reach, dealt, c);
    let past = cfr::reach_past(s.spot.hands[p]@, own, c);
    play_laws::lemma_taken_bound(own, n);
    assert(nano::ten_to(0) == 1);
    if n > 0 {
        lemma_deal_moves(s, idx, p, own, reach, dealt, c, n - 1);
        assert(own.take(n).drop_last() =~= own.take(n - 1));
        let i = n - 1;
        let (r, x, q) = (own[i].count as int, v[i].count as int, part[i].count as int);
        assert(r >= 0);
        let k = play_laws::reach_counted(own, i);
        assert(play_laws::reach_counted(own, n) == k + r);
        let d0 = weigh_laws::dot(own, part, i);
        let e0 = weigh_laws::dot(past, v, i);
        assert(weigh_laws::dot(own, part, n) == d0 + r * q);
        assert(weigh_laws::dot(past, v, n) == e0 + past[i].count * x);
        if cfr::holds(s.spot.hands[p]@[i], c) {
            assert(left * (d0 + r * 0) == left * d0 && 0 * x == 0) by (nonlinear_arith);
            assert(left * k <= left * (k + r)) by (nonlinear_arith)
                requires
                    0 <= r,
                    0 <= left,
            ;
        } else {
            let dec = Nano::decimal_spec(left as i64, 0);
            assert(dec.count == left * b);
            lemma_shared_near(v[i], left);
            assert(size(left * q - x) <= left);
            assert(size((left * (d0 + r * q)) - (e0 + r * x)) <= left * (k + r))
                by (nonlinear_arith)
                requires
                    left * d0 - e0 <= left * k,
                    e0 - left * d0 <= left * k,
                    left * q - x <= left,
                    x - left * q <= left,
                    0 <= r,
                    size((left * (d0 + r * q)) - (e0 + r * x)) == (left * (d0 + r * q)) - (e0 + r
                        * x) || size((left * (d0 + r * q)) - (e0 + r * x)) == (e0 + r * x) - (left
                        * (d0 + r * q)),
            ;
        }
    } else {
        assert(own.take(0) =~= Seq::<Nano>::empty());
        assert(left * 0 == 0);
    }
}

/// One part of as many as there are cards left.
pub(crate) proof fn lemma_shared_near(v: Nano, left: int)
    requires
        1 <= left <= 52,
    ensures
        size(
            left * v.over_spec(Nano::decimal_spec(left as i64, 0)).count - v.count,
        ) <= left,
{
    let b = BILLION as int;
    let x = v.count as int;
    assert(nano::ten_to(0) == 1);
    assert(Nano::decimal_spec(left as i64, 0).count == left * b);
    let q = nano::cut_div(x * b, left * b);
    weigh_laws::lemma_cut_near(x * b, left * b);
    let sq = size(q);
    assert(size(x * b) <= 0x8000_0000_0000_0000 * b) by (nonlinear_arith)
        requires
            -0x8000_0000_0000_0000 <= x <= 0x7fff_ffff_ffff_ffff,
            0 < b,
            size(x * b) == x * b || size(x * b) == -(x * b),
    ;
    assert(sq <= 0x8000_0000_0000_0000) by (nonlinear_arith)
        requires
            left * b * sq <= 0x8000_0000_0000_0000 * b,
            1 <= left,
            0 < b,
            0 <= sq,
    ;
    let e = left * b * q - x * b;
    let d = left * q - x;
    assert(e == b * d) by (nonlinear_arith)
        requires
            e == left * b * q - x * b,
            d == left * q - x,
    ;
    assert(size(d) <= left) by (nonlinear_arith)
        requires
            b * d <= left * b,
            -(b * d) <= left * b,
            size(d) == d || size(d) == -d,
            0 < b,
    ;
    let c = v.over_spec(Nano::decimal_spec(left as i64, 0)).count as int;
    if q > i64::MAX {
        assert(left * q - x <= left && left * c - x <= left * q - x) by (nonlinear_arith)
            requires
                left * q - x <= left,
                c <= q,
                1 <= left,
        ;
        assert(x - left * c <= left) by (nonlinear_arith)
            requires
                x <= 0x7fff_ffff_ffff_ffff,
                c == 0x7fff_ffff_ffff_ffff,
                1 <= left,
        ;
    }
}

/// Cards even out: the first `k` of them.
proof fn lemma_dealt_evens_out(
    s: Solver<Nano>,
    idx: int,
    r0: Seq<Nano>,
    r1: Seq<Nano>,
    dealt: Seq<Card>,
    top: int,
    k: nat,
)
    requires
        both_arrive(s, idx, r0, r1, dealt, top),
        s.node(idx).kind == KIND_CHANCE,
        k <= 52,
    ensures
        ({
            let d0 = weigh_laws::dot(
                r0,
                s.worth_dealt(false, idx, 0, r1, dealt, k),
                s.nh(0),
            );
            let d1 = weigh_laws::dot(
                r1,
                s.worth_dealt(false, idx, 1, r0, dealt, k),
                s.nh(1),
            );
            let left = 46 - s.node(idx).street;
            &&& 0 <= drift_dealt(s, idx, r0, r1, dealt, k)
            &&& size(left * (d0 + d1)) <= drift_dealt(s, idx, r0, r1, dealt, k) + k * (left
                * all_reach(r0, r1))
        }),
    decreases s.spot.tree.nodes@.len() - idx, k,
{
    s.lemma_chance(idx);
    assert(nano::ten_to(0) == 1);
    play_laws::lemma_counted_bound(r0);
    play_laws::lemma_counted_bound(r1);
    let left = 46 - s.node(idx).street;
    let spread = all_reach(r0, r1);
    let unit = left * spread;
    assert(0 <= unit) by (nonlinear_arith)
        requires
            unit == left * spread,
            0 <= left,
            0 <= spread,
    ;
    if k > 0 {
        let less = (k - 1) as nat;
        lemma_dealt_evens_out(s, idx, r0, r1, dealt, top, less);
        let c = k - 1;
        assert(k * unit == less * unit + unit) by (nonlinear_arith)
            requires
                k == less + 1,
        ;
        if s.comes(idx, dealt, c) {
            s.lemma_deal(idx, dealt, c);
            let next = dealt.push(c as u8);
            let past0 = cfr::reach_past(s.spot.hands[0]@, r0, c);
            let past1 = cfr::reach_past(s.spot.hands[1]@, r1, c);
            lemma_past_inside(s, 0, r0, c);
            lemma_past_inside(s, 1, r1, c);
            lemma_bearable(past0, r0, top);
            lemma_bearable(past1, r1, top);
            law_what_one_wins_the_other_loses(s, s.child(idx, c), past0, past1, next, top);
            lemma_card_added(s, idx, 0, r0, r1, dealt, top, c);
            lemma_card_added(s, idx, 1, r1, r0, dealt, top, c);
            let x = weigh_laws::dot(r0, dealt_part(s, idx, 0, r1, dealt, c), s.nh(0));
            let y = weigh_laws::dot(r1, dealt_part(s, idx, 1, r0, dealt, c), s.nh(1));
            let u = weigh_laws::dot(past0, s.worth_below(false, idx, c, 0, past1, next), s.nh(0));
            let v = weigh_laws::dot(past1, s.worth_below(false, idx, c, 1, past0, next), s.nh(1));
            let (c0, c1) = (play_laws::counted(r0), play_laws::counted(r1));
            assert(left * c0 + left * c1 == unit) by (nonlinear_arith)
                requires
                    unit == left * (c0 + c1),
            ;
            let was = weigh_laws::dot(
                r0,
                s.worth_dealt(false, idx, 0, r1, dealt, less),
                s.nh(0),
            ) + weigh_laws::dot(r1, s.worth_dealt(false, idx, 1, r0, dealt, less), s.nh(1));
            assert(left * (was + x + y) == left * was + left * x + left * y) by (nonlinear_arith);
            assert(size(u + v) <= drift_below(s, idx, c, past0, past1, next));
        }
    } else {
        lemma_zero_dot(s, 0, r0);
        lemma_zero_dot(s, 1, r1);
        assert(left * (0 + 0) == 0 && 0 * unit == 0) by (nonlinear_arith);
    }
}

/// What a card adds to one player's values, weighed by its reach.
proof fn lemma_card_added(
    s: Solver<Nano>,
    idx: int,
    p: int,
    own: Seq<Nano>,
    reach: Seq<Nano>,
    dealt: Seq<Card>,
    top: int,
    c: int,
)
    requires
        fair_play(s, top),
        s.dealt_to(idx, dealt),
        0 <= p < 2,
        own.len() == s.nh(p),
        reach.len() == s.nh(1 - p),
        bearable(own, top),
        bearable(reach, top),
        s.node(idx).kind == KIND_CHANCE,
        0 <= c < 52,
        s.comes(idx, dealt, c),
    ensures
        ({
            let left = 46 - s.node(idx).street;
            let x = weigh_laws::dot(own, dealt_part(s, idx, p, reach, dealt, c), s.nh(p));
            let u = weigh_laws::dot(
                cfr::reach_past(s.spot.hands[p]@, own, c),
                s.worth_below(
                    false,
                    idx,
                    c,
                    p,
                    cfr::reach_past(s.spot.hands[1 - p]@, reach, c),
                    dealt.push(c as u8),
                ),
                s.nh(p),
            );
            &&& weigh_laws::dot(
                own,
                s.worth_dealt(false, idx, p, reach, dealt, (c + 1) as nat),
                s.nh(p),
            ) == weigh_laws::dot(
                own,
                s.worth_dealt(false, idx, p, reach, dealt, c as nat),
                s.nh(p),
            ) + x
            &&& size(left * x - u) <= left * play_laws::counted(own)
        }),
{
    s.lemma_chance(idx);
    s.lemma_hands(p);
    let n = s.nh(p);
    let was = s.worth_dealt(false, idx, p, reach, dealt, c as nat);
    let now = s.worth_dealt(false, idx, p, reach, dealt, (c + 1) as nat);
    let part = dealt_part(s, idx, p, reach, dealt, c);
    assert forall|i: int| 0 <= i < n implies (#[trigger] now[i]).count == was[i].count
        + part[i].count by {
        lemma_backed_dealt(s, idx, p, reach, dealt, i, (c + 1) as nat, top);
        assert(dealt_part(s, idx, p, reach, dealt, c).len() == n);
        assert(sums_up(s, idx, p, reach, dealt, i, c));
    }
    let x = |i: int| was[i].count as int;
    let y = |i: int| part[i].count as int;
    let z = |i: int| now[i].count as int;
    assert forall|i: int| 0 <= i < n implies #[trigger] z(i) == 1 * x(i) + 1 * y(i) by {
        assert(now[i].count == was[i].count + part[i].count);
    }
    weigh_laws::lemma_weighed_linear(own, n, x, y, z, 1, 1);
    s.lemma_deal(idx, dealt, c);
    let past = cfr::reach_past(s.spot.hands[1 - p]@, reach, c);
    lemma_past_inside(s, 1 - p, reach, c);
    lemma_bearable(past, reach, top);
    law_values_are_backed(s, s.child(idx, c), p, past, dealt.push(c as u8), 0, top);
    lemma_deal_moves(s, idx, p, own, reach, dealt, c, n);
    assert(own.take(n) =~= own);
}

/// What an action adds to both players' values, weighed by their reach.
proof fn lemma_action_added(
    s: Solver<Nano>,
    idx: int,
    p: int,
    own: Seq<Nano>,
    reach: Seq<Nano>,
    dealt: Seq<Card>,
    top: int,
    a: int,
)
    requires
        fair_play(s, top),
        s.dealt_to(idx, dealt),
        0 <= p < 2,
        own.len() == s.nh(p),
        reach.len() == s.nh(1 - p),
        bearable(own, top),
        bearable(reach, top),
        s.node(idx).kind == tree::KIND_ACTION,
        s.node(idx).player == p,
        0 <= a < s.node(idx).num_children,
    ensures
        ({
            let v = s.worth_below(false, idx, a, p, reach, dealt);
            let on = strategy::reach_through(own, s.played(idx), a);
            let x = weigh_laws::dot(own, mixing_part(s, idx, p, reach, dealt, a), s.nh(p));
            let u = weigh_laws::dot(on, v, s.nh(p));
            &&& weigh_laws::dot(
                own,
                s.worth_mixing(false, idx, p, reach, dealt, (a + 1) as nat),
                s.nh(p),
            ) == weigh_laws::dot(
                own,
                s.worth_mixing(false, idx, p, reach, dealt, a as nat),
                s.nh(p),
            ) + x
            &&& size(x - u) <= play_laws::counted(own) + weigh_laws::heft(v, s.nh(p))
            &&& weigh_laws::dot(
                reach,
                s.worth_facing(false, idx, 1 - p, own, dealt, (a + 1) as nat),
                s.nh(1 - p),
            ) == weigh_laws::dot(
                reach,
                s.worth_facing(false, idx, 1 - p, own, dealt, a as nat),
                s.nh(1 - p),
            ) + weigh_laws::dot(
                reach,
                facing_part(s, idx, 1 - p, own, dealt, a),
                s.nh(1 - p),
            )
        }),
{
    s.lemma_decision(idx);
    let n = s.nh(p);
    let sigma = s.played(idx);
    let na = s.node(idx).num_children as int;
    let v = s.worth_below(false, idx, a, p, reach, dealt);
    let was = s.worth_mixing(false, idx, p, reach, dealt, a as nat);
    let now = s.worth_mixing(false, idx, p, reach, dealt, (a + 1) as nat);
    let part = mixing_part(s, idx, p, reach, dealt, a);
    assert forall|i: int| 0 <= i < n implies #[trigger] mixes_up(
        s,
        idx,
        p,
        reach,
        dealt,
        i,
        a,
        top,
    ) by {
        lemma_backed_mixing(s, idx, p, reach, dealt, i, (a + 1) as nat, top);
    }
    let x = |i: int| was[i].count as int;
    let y = |i: int| part[i].count as int;
    let z = |i: int| now[i].count as int;
    assert forall|i: int| 0 <= i < n implies #[trigger] z(i) == 1 * x(i) + 1 * y(i) by {
        assert(mixes_up(s, idx, p, reach, dealt, i, a, top));
    }
    weigh_laws::lemma_weighed_linear(own, n, x, y, z, 1, 1);
    lemma_range_shares(s, idx, own);
    weigh_laws::lemma_through_inside(own, sigma, na, a);
    assert(weigh_laws::shared(part, sigma, n, a, v)) by {
        assert forall|i: int| 0 <= i < n implies (#[trigger] part[i]).count == nano::cut_div(
            sigma[strategy::cell(n, a, i)].count * v[i].count,
            BILLION as int,
        ) by {
            assert(mixes_up(s, idx, p, reach, dealt, i, a, top));
        }
    }
    weigh_laws::lemma_action_moves(own, sigma, a, v, part, n);
    assert(own.take(n) =~= own);
    let o = 1 - p;
    let n2 = s.nh(o);
    let was2 = s.worth_facing(false, idx, o, own, dealt, a as nat);
    let now2 = s.worth_facing(false, idx, o, own, dealt, (a + 1) as nat);
    let part2 = facing_part(s, idx, o, own, dealt, a);
    let x2 = |i: int| was2[i].count as int;
    let y2 = |i: int| part2[i].count as int;
    let z2 = |i: int| now2[i].count as int;
    assert forall|i: int| 0 <= i < n2 implies #[trigger] z2(i) == 1 * x2(i) + 1 * y2(i) by {
        lemma_backed_facing(s, idx, o, own, dealt, i, (a + 1) as nat, top);
        assert(facing_part(s, idx, o, own, dealt, a).len() == n2);
    }
    weigh_laws::lemma_weighed_linear(reach, n2, x2, y2, z2, 1, 1);
}

/// Actions even out: the first `k` of them.
proof fn lemma_acting_evens_out(
    s: Solver<Nano>,
    idx: int,
    r0: Seq<Nano>,
    r1: Seq<Nano>,
    dealt: Seq<Card>,
    top: int,
    k: nat,
)
    requires
        both_arrive(s, idx, r0, r1, dealt, top),
        s.node(idx).kind == tree::KIND_ACTION,
        k <= s.node(idx).num_children,
    ensures
        ({
            let p = s.node(idx).player as int;
            let (own, reach) = (reach_of(p, r0, r1), reach_of(1 - p, r0, r1));
            let d = weigh_laws::dot(
                own,
                s.worth_mixing(false, idx, p, reach, dealt, k),
                s.nh(p),
            );
            let e = weigh_laws::dot(
                reach,
                s.worth_facing(false, idx, 1 - p, own, dealt, k),
                s.nh(1 - p),
            );
            &&& 0 <= drift_acting(s, idx, r0, r1, dealt, k)
            &&& size(d + e) <= drift_acting(s, idx, r0, r1, dealt, k)
        }),
    decreases s.spot.tree.nodes@.len() - idx, k,
{
    s.lemma_decision(idx);
    assert(nano::ten_to(0) == 1);
    let p = s.node(idx).player as int;
    let (own, reach) = (reach_of(p, r0, r1), reach_of(1 - p, r0, r1));
    play_laws::lemma_counted_bound(own);
    if k > 0 {
        let less = (k - 1) as nat;
        let a = k - 1;
        lemma_acting_evens_out(s, idx, r0, r1, dealt, top, less);
        lemma_action_added(s, idx, p, own, reach, dealt, top, a);
        let sigma = s.played(idx);
        let on = strategy::reach_through(own, sigma, a);
        lemma_range_shares(s, idx, own);
        weigh_laws::lemma_through_inside(own, sigma, s.node(idx).num_children as int, a);
        lemma_bearable(on, own, top);
        let (n0, n1) = taken_by(p, r0, r1, sigma, a);
        let c = s.child(idx, a);
        assert(idx < c < s.spot.tree.nodes@.len());
        law_what_one_wins_the_other_loses(s, c, n0, n1, dealt, top);
        let v = s.worth_below(false, idx, a, p, reach, dealt);
        lemma_heft_positive(v, s.nh(p));
        let u = weigh_laws::dot(on, v, s.nh(p));
        let f = weigh_laws::dot(reach, facing_part(s, idx, 1 - p, own, dealt, a), s.nh(1 - p));
        assert(u + f == together(s, c, n0, n1, dealt));
        let x = weigh_laws::dot(own, mixing_part(s, idx, p, reach, dealt, a), s.nh(p));
        let was = weigh_laws::dot(
            own,
            s.worth_mixing(false, idx, p, reach, dealt, less),
            s.nh(p),
        ) + weigh_laws::dot(
            reach,
            s.worth_facing(false, idx, 1 - p, own, dealt, less),
            s.nh(1 - p),
        );
        let below = drift_below(s, idx, a, n0, n1, dealt);
        let blur = play_laws::counted(own) + weigh_laws::heft(v, s.nh(p));
        let before = drift_acting(s, idx, r0, r1, dealt, less);
        assert(below == drift(s, c, n0, n1, dealt));
        assert(drift_acting(s, idx, r0, r1, dealt, k) == before + below + blur);
        assert(size(was + x + f) <= before + below + blur);
    } else {
        lemma_zero_dot(s, p, own);
        lemma_zero_dot(s, 1 - p, reach);
    }
}

proof fn lemma_zero_dot(s: Solver<Nano>, p: int, reach: Seq<Nano>)
    ensures
        weigh_laws::dot(reach, s.zeros(p), s.nh(p)) == 0,
{
    assert(nano::ten_to(0) == 1);
    let x = |i: int| s.zeros(p)[i].count as int;
    weigh_laws::lemma_weighed_linear(reach, s.nh(p), x, x, x, 0, 0);
}

pub(crate) proof fn lemma_heft_positive(v: Seq<Nano>, n: int)
    ensures
        0 <= weigh_laws::heft(v, n),
    decreases n,
{
    if n > 0 {
        lemma_heft_positive(v, n - 1);
    }
}

/// Law: where no rake is taken, what one player wins the other loses, at every
/// node: their values, each weighed by the player's own reach, add up to
/// nothing, up to rounding.
pub proof fn law_what_one_wins_the_other_loses(
    s: Solver<Nano>,
    idx: int,
    r0: Seq<Nano>,
    r1: Seq<Nano>,
    dealt: Seq<Card>,
    top: int,
)
    requires
        both_arrive(s, idx, r0, r1, dealt, top),
    ensures
        0 <= drift(s, idx, r0, r1, dealt),
        size(together(s, idx, r0, r1, dealt)) <= drift(s, idx, r0, r1, dealt),
    decreases s.spot.tree.nodes@.len() - idx, 256nat,
{
    let n = s.node(idx);
    assert(tree_laws::node_sound(s.spot.tree.arena(), s.spot.board_mask, idx));
    play_laws::lemma_counted_bound(r0);
    play_laws::lemma_counted_bound(r1);
    if n.kind == KIND_TERM_FOLD {
        lemma_fold_evens_out(s, idx, r0, r1, dealt, top);
    } else if n.kind == KIND_TERM_SHOWDOWN {
        lemma_showdown_evens_out(s, idx, r0, r1, dealt, top);
    } else if n.kind == KIND_CHANCE {
        s.lemma_chance(idx);
        lemma_dealt_evens_out(s, idx, r0, r1, dealt, top, 52);
        let left = 46 - n.street;
        let d = drift_dealt(s, idx, r0, r1, dealt, 52);
        let spread = all_reach(r0, r1);
        let u = together(s, idx, r0, r1, dealt);
        vstd::arithmetic::div_mod::lemma_fundamental_div_mod(d, left);
        vstd::arithmetic::div_mod::lemma_mod_bound(d, left);
        vstd::arithmetic::div_mod::lemma_div_pos_is_pos(d, left);
        let q = d / left;
        assert(size(u) <= q + 1 + 52 * spread) by (nonlinear_arith)
            requires
                left * u <= d + 52 * (left * spread),
                -(left * u) <= d + 52 * (left * spread),
                d < left * q + left,
                0 < left,
                size(u) == u || size(u) == -u,
        ;
    } else {
        s.lemma_decision(idx);
        lemma_acting_evens_out(s, idx, r0, r1, dealt, top, n.num_children as nat);
    }
}

} // verus!
