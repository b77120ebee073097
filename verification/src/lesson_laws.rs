//! What self-play learns from, in exact numbers: what actions lead to, as often
//! as they are tried, averaged over the cards that come.

use crate::cards::Card;
use crate::cfr;
use crate::cfr::Solver;
use crate::engine::Tables;
use crate::nano;
use crate::nano::{Nano, BILLION};
use crate::num;
use crate::num::Num;
use crate::preflop_build;
use crate::preflop_solver;
use crate::preflop_solver::{Arenas, Field};
use crate::preflop_tree;
use crate::removal_laws;
use crate::strategy;
use crate::tree::{KIND_ACTION, KIND_CHANCE};
use crate::value_laws;
use crate::walk_laws;
use crate::weigh_laws;
use crate::weigh_laws::size;
use vstd::prelude::*;

verus! {

// ---------------------------------------------------------------------------
// Sums of lessons
// ---------------------------------------------------------------------------

/// What a hand gets from the first `k` actions, all together.
pub open spec fn sum_at(vals: Seq<Seq<Nano>>, i: int, k: int) -> int
    decreases k,
{
    if k <= 0 {
        0
    } else {
        sum_at(vals, i, k - 1) + vals[k - 1][i].count
    }
}

/// What a hand gets from the first `k` actions, each as often as it is tried.
pub open spec fn mix_at(sigma: Seq<Nano>, vals: Seq<Seq<Nano>>, nh: int, i: int, k: int) -> int
    decreases k,
{
    if k <= 0 {
        0
    } else {
        mix_at(sigma, vals, nh, i, k - 1) + sigma[strategy::cell(nh, k - 1, i)].count * vals[k
            - 1][i].count
    }
}

/// Whether no action gets a hand more than `most`, and all of them stay in
/// range.
pub open spec fn modest(vals: Seq<Seq<Nano>>, i: int, most: int) -> bool {
    &&& 0 <= most
    &&& vals.len() * most <= i64::MAX
    &&& forall|a: int| 0 <= a < vals.len() ==> size((#[trigger] vals[a])[i].count as int) <= most
}

proof fn lemma_pooled(vals: Seq<Seq<Nano>>, i: int, most: int, k: int)
    requires
        modest(vals, i, most),
        0 <= k <= vals.len(),
    ensures
        num::total_of(strategy::slice_at(vals, i).take(k)).count == sum_at(vals, i, k),
        size(sum_at(vals, i, k)) <= k * most,
    decreases k,
{
    let s = strategy::slice_at(vals, i);
    assert(nano::ten_to(0) == 1);
    if k > 0 {
        lemma_pooled(vals, i, most, k - 1);
        assert(s.take(k).drop_last() =~= s.take(k - 1));
        assert(s.take(k).last() == vals[k - 1][i]);
        assert(size(vals[k - 1][i].count as int) <= most);
        let na = vals.len() as int;
        assert(k * most == (k - 1) * most + most && k * most <= na * most) by (nonlinear_arith)
            requires
                k <= na,
                0 <= most,
        ;
    } else {
        assert(s.take(0).len() == 0);
        assert(0 * most == 0);
    }
}

proof fn lemma_mixed(sigma: Seq<Nano>, vals: Seq<Seq<Nano>>, nh: int, i: int, most: int, k: int)
    requires
        modest(vals, i, most),
        0 <= k <= vals.len(),
        forall|a: int|
            0 <= a < vals.len() ==> 0 <= (#[trigger] sigma[strategy::cell(nh, a, i)]).count
                <= BILLION,
    ensures
        ({
            let t = num::total_of(strategy::mix_terms(sigma, vals, nh, i).take(k)).count as int;
            &&& size(t) <= k * most
            &&& size(BILLION * t - mix_at(sigma, vals, nh, i, k)) <= k * BILLION
        }),
    decreases k,
{
    let b = BILLION as int;
    let s = strategy::mix_terms(sigma, vals, nh, i);
    assert(nano::ten_to(0) == 1);
    if k > 0 {
        lemma_mixed(sigma, vals, nh, i, most, k - 1);
        assert(s.take(k).drop_last() =~= s.take(k - 1));
        assert(s.take(k).last() == s[k - 1]);
        let share = sigma[strategy::cell(nh, k - 1, i)];
        let v = vals[k - 1][i];
        assert(size(v.count as int) <= most);
        let (x, y) = (share.count as int, v.count as int);
        let z = x * y;
        assert(size(z) <= b * most) by (nonlinear_arith)
            requires
                z == x * y,
                0 <= x <= b,
                -most <= y <= most,
                size(z) == z || size(z) == -z,
        ;
        let na = vals.len() as int;
        assert(k * most == (k - 1) * most + most && k * most <= na * most && most <= na * most)
            by (nonlinear_arith)
            requires
                1 <= k <= na,
                0 <= most,
        ;
        weigh_laws::lemma_times_near(share, v, most);
        weigh_laws::lemma_cut_near(z, b);
        let st = size(s[k - 1].count as int);
        assert(st <= most) by (nonlinear_arith)
            requires
                b * st <= b * most,
                0 < b,
        ;
    } else {
        assert(s.take(0).len() == 0);
        assert(0 * most == 0);
    }
}

// ---------------------------------------------------------------------------
// After the flop
// ---------------------------------------------------------------------------

/// What self-play of a decision brings behind each of its actions.
pub open spec fn lessons(
    s: Solver<Nano>,
    t: Tables<Nano>,
    idx: int,
    p: int,
    own: Seq<Nano>,
    reach: Seq<Nano>,
    dealt: Seq<Card>,
) -> Seq<Seq<Nano>> {
    let na = s.node(idx).num_children as nat;
    s.trained_each(t, idx, p, own, reach, dealt, s.tried(t, idx), na).0
}

proof fn lemma_each(
    s: Solver<Nano>,
    t: Tables<Nano>,
    idx: int,
    p: int,
    own: Seq<Nano>,
    reach: Seq<Nano>,
    dealt: Seq<Card>,
    sigma: Seq<Nano>,
    k: nat,
    a: int,
)
    requires
        0 <= a < k,
    ensures
        ({
            let mine = s.node(idx).player == p;
            let vals = s.trained_each(t, idx, p, own, reach, dealt, sigma, k).0;
            let mid = s.trained_each(t, idx, p, own, reach, dealt, sigma, a as nat).1;
            let passed = strategy::reach_through(
                if mine {
                    own
                } else {
                    reach
                },
                sigma,
                a,
            );
            &&& vals.len() == k
            &&& vals[a] == s.trained_below(
                mid,
                idx,
                a,
                p,
                if mine {
                    passed
                } else {
                    own
                },
                if mine {
                    reach
                } else {
                    passed
                },
                dealt,
            ).0
        }),
    decreases k,
{
    lemma_each_len(s, t, idx, p, own, reach, dealt, sigma, (k - 1) as nat);
    if a < k - 1 {
        lemma_each(s, t, idx, p, own, reach, dealt, sigma, (k - 1) as nat, a);
    }
}

proof fn lemma_each_len(
    s: Solver<Nano>,
    t: Tables<Nano>,
    idx: int,
    p: int,
    own: Seq<Nano>,
    reach: Seq<Nano>,
    dealt: Seq<Card>,
    sigma: Seq<Nano>,
    k: nat,
)
    ensures
        s.trained_each(t, idx, p, own, reach, dealt, sigma, k).0.len() == k,
    decreases k,
{
    if k > 0 {
        lemma_each_len(s, t, idx, p, own, reach, dealt, sigma, (k - 1) as nat);
    }
}

/// Law: what self-play learns of an action is what it finds behind the action,
/// where the player who acts arrives as often as its hands try the action and
/// the other player as before. Returned are the tables, and the reach that the
/// player who acts arrives with.
pub proof fn law_lessons_are_learnt_behind_actions(
    s: Solver<Nano>,
    t: Tables<Nano>,
    idx: int,
    p: int,
    own: Seq<Nano>,
    reach: Seq<Nano>,
    dealt: Seq<Card>,
    a: int,
) -> (r: (Tables<Nano>, Seq<Nano>))
    requires
        s.wf(),
        s.decides(idx),
        0 <= p < 2,
        own.len() == s.nh(p),
        reach.len() == s.nh(1 - p),
        0 <= a < s.node(idx).num_children,
        forall|j: int| 0 <= j < own.len() ==> 0 <= (#[trigger] own[j]).count,
        forall|j: int| 0 <= j < reach.len() ==> 0 <= (#[trigger] reach[j]).count,
        forall|k: int|
            0 <= k < s.block_len(idx) ==> 0 <= (#[trigger] s.tried(t, idx)[k]).count <= BILLION,
    ensures
        ({
            let q = s.node(idx).player as int;
            let from = if q == p {
                own
            } else {
                reach
            };
            &&& lessons(s, t, idx, p, own, reach, dealt)[a] == s.trained(
                r.0,
                s.child(idx, a),
                p,
                if q == p {
                    r.1
                } else {
                    own
                },
                if q == p {
                    reach
                } else {
                    r.1
                },
                dealt,
            ).0
            &&& r.1.len() == s.nh(q)
            &&& forall|j: int|
                0 <= j < s.nh(q) ==> walk_laws::part_of(
                    #[trigger] r.1[j],
                    from[j],
                    s.tried(t, idx)[strategy::cell(s.nh(q), a, j)],
                )
        }),
{
    s.lemma_decision(idx);
    let n = s.node(idx);
    let q = n.player as int;
    let sigma = s.tried(t, idx);
    let na = n.num_children as nat;
    lemma_each(s, t, idx, p, own, reach, dealt, sigma, na, a);
    let mid = s.trained_each(t, idx, p, own, reach, dealt, sigma, a as nat).1;
    let from = if q == p {
        own
    } else {
        reach
    };
    let passed = strategy::reach_through(from, sigma, a);
    assert(idx < s.child(idx, a) < s.spot.tree.nodes@.len());
    assert forall|j: int| 0 <= j < s.nh(q) implies walk_laws::part_of(
        #[trigger] passed[j],
        from[j],
        sigma[strategy::cell(s.nh(q), a, j)],
    ) by {
        strategy::lemma_cell(na as int, s.nh(q), a, j);
        walk_laws::lemma_part(from[j], sigma[strategy::cell(s.nh(q), a, j)]);
    }
    (mid, passed)
}

/// Law: self-play values a hand, where the opponent acts, at all that it finds
/// behind the opponent's actions, and where the player acts, at what it finds
/// behind its own, each as often as the hand tries it, up to rounding. Where
/// the opponent acts, or the decision is locked, nothing is learnt.
pub proof fn law_lessons_are_weighed_as_they_are_tried(
    s: Solver<Nano>,
    t: Tables<Nano>,
    idx: int,
    p: int,
    own: Seq<Nano>,
    reach: Seq<Nano>,
    dealt: Seq<Card>,
    i: int,
    most: int,
)
    requires
        s.wf(),
        s.decides(idx),
        0 <= p < 2,
        0 <= i < s.nh(p),
        modest(lessons(s, t, idx, p, own, reach, dealt), i, most),
        forall|k: int|
            0 <= k < s.block_len(idx) ==> 0 <= (#[trigger] s.tried(t, idx)[k]).count <= BILLION,
    ensures
        ({
            let n = s.node(idx);
            let na = n.num_children as int;
            let vals = lessons(s, t, idx, p, own, reach, dealt);
            let (out, after) = s.trained(t, idx, p, own, reach, dealt);
            let sigma = s.tried(t, idx);
            &&& vals.len() == na
            &&& n.player != p ==> out[i].count == sum_at(vals, i, na)
            &&& n.player == p ==> size(
                BILLION * out[i].count - mix_at(sigma, vals, s.nh(p), i, na),
            ) <= na * BILLION
            &&& n.player != p || s.locks@.contains_key(idx as u32) ==> after == s.trained_each(
                t,
                idx,
                p,
                own,
                reach,
                dealt,
                sigma,
                na as nat,
            ).1
        }),
{
    s.lemma_decision(idx);
    let n = s.node(idx);
    let na = n.num_children as int;
    let sigma = s.tried(t, idx);
    let vals = lessons(s, t, idx, p, own, reach, dealt);
    lemma_each_len(s, t, idx, p, own, reach, dealt, sigma, na as nat);
    if n.player != p {
        lemma_pooled(vals, i, most, na);
        let terms = strategy::slice_at(vals, i);
        assert(terms.take(na) =~= terms);
    } else {
        assert forall|a: int| 0 <= a < vals.len() implies 0 <= (#[trigger] sigma[strategy::cell(
            s.nh(p),
            a,
            i,
        )]).count <= BILLION by {
            strategy::lemma_cell(na, s.nh(p), a, i);
        }
        lemma_mixed(sigma, vals, s.nh(p), i, most, na);
        let terms = strategy::mix_terms(sigma, vals, s.nh(p), i);
        assert(terms.take(na) =~= terms);
    }
}

/// Law: at the end of a hand self-play finds what the hand is worth there, and
/// learns nothing.
pub proof fn law_lessons_end_with_the_hand(
    s: Solver<Nano>,
    t: Tables<Nano>,
    idx: int,
    p: int,
    own: Seq<Nano>,
    reach: Seq<Nano>,
    dealt: Seq<Card>,
)
    requires
        0 <= idx < s.spot.tree.nodes@.len(),
        s.node(idx).kind != KIND_CHANCE,
        s.node(idx).kind != KIND_ACTION,
    ensures
        s.trained(t, idx, p, own, reach, dealt).0 == s.worth(false, idx, p, reach, dealt),
        s.trained(t, idx, p, own, reach, dealt).1 == t,
{
}

// ---------------------------------------------------------------------------
// Before the flop
// ---------------------------------------------------------------------------

/// What self-play of a node brings behind each of its actions.
pub open spec fn seat_lessons(
    f: Field<Nano>,
    ar: Arenas<Nano>,
    i: int,
    p: int,
    reaches: Seq<Seq<Nano>>,
) -> Seq<Seq<Nano>> {
    f.trained_below(ar, i, p, reaches, f.tries(ar, i), f.tree.nodes[i].actions.len()).0
}

proof fn lemma_seat_each(
    f: Field<Nano>,
    ar: Arenas<Nano>,
    i: int,
    p: int,
    reaches: Seq<Seq<Nano>>,
    sigma: Seq<Nano>,
    k: nat,
)
    requires
        f.wf(),
        0 <= i < f.tree.nodes.len(),
        f.tree.nodes[i].kind == preflop_tree::KIND_ACTION,
        k <= f.tree.nodes[i].actions.len(),
    ensures
        f.trained_below(ar, i, p, reaches, sigma, k).0.len() == k,
        forall|a: int|
            0 <= a < k ==> #[trigger] f.trained_below(ar, i, p, reaches, sigma, k).0[a]
                == f.trained(
                f.trained_below(ar, i, p, reaches, sigma, a as nat).1,
                f.child(i, a),
                p,
                preflop_solver::acted(reaches, f.tree.nodes[i].actor as int, sigma, a),
            ).0,
    decreases k,
{
    assert(preflop_build::knot_sound(f.n(), f.tree, i));
    if k > 0 {
        lemma_seat_each(f, ar, i, p, reaches, sigma, (k - 1) as nat);
        assert(i < f.child(i, k - 1) < f.tree.nodes.len());
    }
}

/// Law: the same before the flop. A class is valued, where another seat acts, at
/// all that is found behind that seat's actions, and where the seat itself acts
/// at what is found behind its own, each as often as the class tries it.
pub proof fn law_seats_learn_from_what_they_try(
    f: Field<Nano>,
    ar: Arenas<Nano>,
    i: int,
    p: int,
    reaches: Seq<Seq<Nano>>,
    h: int,
    most: int,
)
    requires
        f.wf(),
        0 <= i < f.tree.nodes.len(),
        0 <= h < 169,
        f.tree.nodes[i].kind == preflop_tree::KIND_ACTION,
        modest(seat_lessons(f, ar, i, p, reaches), h, most),
        forall|a: int|
            0 <= a < f.tree.nodes[i].actions.len() ==> 0 <= (#[trigger] f.tries(
                ar,
                i,
            )[strategy::cell(169, a, h)]).count <= BILLION,
    ensures
        ({
            let nd = f.tree.nodes[i];
            let na = nd.actions.len() as int;
            let vals = seat_lessons(f, ar, i, p, reaches);
            let (out, after) = f.trained(ar, i, p, reaches);
            let sigma = f.tries(ar, i);
            &&& vals.len() == na
            &&& nd.actor != p ==> out[h].count == sum_at(vals, h, na)
            &&& nd.actor == p ==> size(BILLION * out[h].count - mix_at(sigma, vals, 169, h, na))
                <= na * BILLION
            &&& nd.actor != p || !f.learns(i) ==> after == f.trained_below(
                ar,
                i,
                p,
                reaches,
                sigma,
                na as nat,
            ).1
            &&& forall|a: int|
                0 <= a < na ==> #[trigger] vals[a] == f.trained(
                    f.trained_below(ar, i, p, reaches, sigma, a as nat).1,
                    f.child(i, a),
                    p,
                    preflop_solver::acted(reaches, nd.actor as int, sigma, a),
                ).0
        }),
{
    let nd = f.tree.nodes[i];
    let na = nd.actions.len() as int;
    let sigma = f.tries(ar, i);
    let vals = seat_lessons(f, ar, i, p, reaches);
    lemma_seat_each(f, ar, i, p, reaches, sigma, na as nat);
    if nd.actor != p {
        lemma_pooled(vals, h, most, na);
        let terms = strategy::slice_at(vals, h);
        assert(terms.take(na) =~= terms);
    } else {
        lemma_mixed(sigma, vals, 169, h, most, na);
        let terms = strategy::mix_terms(sigma, vals, 169, h);
        assert(terms.take(na) =~= terms);
    }
}

// ---------------------------------------------------------------------------
// Cards
// ---------------------------------------------------------------------------

/// What self-play finds behind a card, the hands that hold it blocked.
pub open spec fn behind_card(
    s: Solver<Nano>,
    t: Tables<Nano>,
    idx: int,
    p: int,
    own: Seq<Nano>,
    reach: Seq<Nano>,
    dealt: Seq<Card>,
    c: int,
    i: int,
) -> int {
    let mid = s.trained_dealt(t, idx, p, own, reach, dealt, c as nat).1;
    s.trained_below(
        mid,
        idx,
        c,
        p,
        cfr::reach_past(s.spot.hands[p]@, own, c),
        cfr::reach_past(s.spot.hands[1 - p]@, reach, c),
        dealt.push(c as u8),
    ).0[i].count as int
}

/// What is found behind the first `k` cards that come and that a hand does not
/// hold, all together.
pub open spec fn behind_cards(
    s: Solver<Nano>,
    t: Tables<Nano>,
    idx: int,
    p: int,
    own: Seq<Nano>,
    reach: Seq<Nano>,
    dealt: Seq<Card>,
    i: int,
    k: int,
) -> int
    decreases k,
{
    if k <= 0 {
        0
    } else {
        behind_cards(s, t, idx, p, own, reach, dealt, i, k - 1) + if s.comes(idx, dealt, k - 1)
            && !removal_laws::has(s.spot.hands[p]@[i], (k - 1) as u8) {
            behind_card(s, t, idx, p, own, reach, dealt, k - 1, i)
        } else {
            0
        }
    }
}

proof fn lemma_cards(
    s: Solver<Nano>,
    t: Tables<Nano>,
    idx: int,
    p: int,
    own: Seq<Nano>,
    reach: Seq<Nano>,
    dealt: Seq<Card>,
    i: int,
    most: int,
    k: int,
)
    requires
        s.wf(),
        0 <= p < 2,
        0 <= i < s.nh(p),
        0 <= k <= 52,
        s.node(idx).street <= 2,
        0 <= most,
        52 * most <= i64::MAX,
        forall|c: int|
            0 <= c < 52 ==> size(
                #[trigger] behind_card(s, t, idx, p, own, reach, dealt, c, i),
            ) <= most,
    ensures
        ({
            let out = s.trained_dealt(t, idx, p, own, reach, dealt, k as nat).0;
            let left = 46 - s.node(idx).street;
            &&& out.len() == s.nh(p)
            &&& size(out[i].count as int) <= k * most
            &&& size(
                left * out[i].count - behind_cards(s, t, idx, p, own, reach, dealt, i, k),
            ) <= k * left
        }),
    decreases k,
{
    let b = BILLION as int;
    let left = 46 - s.node(idx).street;
    assert(nano::ten_to(0) == 1);
    if k > 0 {
        lemma_cards(s, t, idx, p, own, reach, dealt, i, most, k - 1);
        let c = k - 1;
        value_laws::lemma_holds(s.spot.hands[p]@, i, c);
        let v = behind_card(s, t, idx, p, own, reach, dealt, c, i);
        assert(size(v) <= most);
        assert(k * left == (k - 1) * left + left && k * most == (k - 1) * most + most)
            by (nonlinear_arith);
        if s.comes(idx, dealt, c) && !cfr::holds(s.spot.hands[p]@[i], c) {
            let d = Nano::decimal_spec(left as i64, 0);
            assert(d.count == left * b);
            let y = v * b;
            let e = left * b;
            weigh_laws::lemma_cut_near(y, e);
            let q = nano::cut_div(y, e);
            let (sq, sv) = (size(q), size(v));
            assert(size(y) == sv * b) by (nonlinear_arith)
                requires
                    y == v * b,
                    0 < b,
                    v < 0 ==> sv == -v,
                    v >= 0 ==> sv == v,
                    y < 0 ==> size(y) == -y,
                    y >= 0 ==> size(y) == y,
            ;
            assert(sq <= sv) by (nonlinear_arith)
                requires
                    e * sq <= sv * b,
                    e == left * b,
                    1 <= left,
                    0 < b,
                    0 <= sq,
            ;
            let x = left * q - v;
            assert(-left <= x <= left) by (nonlinear_arith)
                requires
                    -e <= e * q - y <= e,
                    e == left * b,
                    y == v * b,
                    x == left * q - v,
                    0 < b,
            ;
            let before = s.trained_dealt(t, idx, p, own, reach, dealt, c as nat).0[i].count as int;
            assert(left * (before + q) == left * before + left * q) by (nonlinear_arith);
            assert(k * most <= 52 * most) by (nonlinear_arith)
                requires
                    k <= 52,
                    0 <= most,
            ;
        }
    } else {
        assert(0 * most == 0 && left * 0 == 0 && 0 * left == 0);
    }
}

/// Law: before a card, self-play values a hand at the mean of what it finds
/// behind the cards that come and that the hand does not hold, over the cards
/// that two hands leave. Up to rounding.
pub proof fn law_lessons_are_averaged_over_the_cards(
    s: Solver<Nano>,
    t: Tables<Nano>,
    idx: int,
    p: int,
    own: Seq<Nano>,
    reach: Seq<Nano>,
    dealt: Seq<Card>,
    i: int,
    most: int,
)
    requires
        s.wf(),
        0 <= p < 2,
        0 <= i < s.nh(p),
        0 <= idx < s.spot.tree.nodes@.len(),
        s.node(idx).kind == KIND_CHANCE,
        s.node(idx).street <= 2,
        0 <= most,
        52 * most <= i64::MAX,
        forall|c: int|
            0 <= c < 52 ==> size(
                #[trigger] behind_card(s, t, idx, p, own, reach, dealt, c, i),
            ) <= most,
    ensures
        ({
            let left = 46 - s.node(idx).street;
            size(
                left * s.trained(t, idx, p, own, reach, dealt).0[i].count - behind_cards(
                    s,
                    t,
                    idx,
                    p,
                    own,
                    reach,
                    dealt,
                    i,
                    52,
                ),
            ) <= 52 * left
        }),
{
    lemma_cards(s, t, idx, p, own, reach, dealt, i, most, 52);
}

} // verus!
