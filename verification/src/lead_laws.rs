//! Who has the initiative where a profile is laid down, and what reach is
//! carried behind a card.

use crate::cards::Card;
use crate::cfr::Solver;
use crate::nano;
use crate::nano::{Nano, BILLION};
use crate::num;
use crate::num::{Num, Single};
use crate::profile;
use crate::profile_lock::{Aim, Laid};
use crate::removal_laws;
use crate::strategy;
use crate::tree::{KIND_ACTION, KIND_CHANCE};
use crate::value_laws;
use crate::weigh_laws;
use crate::weigh_laws::size;
use vstd::prelude::*;

verus! {

/// Whether nothing before node `idx` has been laid anew.
spec fn same_before<S: Single>(a: Laid<S>, b: Laid<S>, idx: int) -> bool {
    forall|k: u32|
        k < idx ==> (#[trigger] b.labels.contains_key(k) == a.labels.contains_key(k)) && (
        a.labels.contains_key(k) ==> b.labels[k] == a.labels[k])
}

proof fn lemma_then<S: Single>(a: Laid<S>, b: Laid<S>, c: Laid<S>, idx: int, from: int)
    requires
        same_before(a, b, idx),
        same_before(b, c, from),
        idx <= from,
    ensures
        same_before(a, c, idx),
{
    assert forall|k: u32| k < idx implies (#[trigger] c.labels.contains_key(k)
        == a.labels.contains_key(k)) && (a.labels.contains_key(k) ==> c.labels[k]
        == a.labels[k]) by {
        assert(c.labels.contains_key(k) == b.labels.contains_key(k));
        assert(b.labels.contains_key(k) == a.labels.contains_key(k));
    }
}

proof fn lemma_below<S: Single>(
    s: Solver<S>,
    aim: Aim<S>,
    idx: int,
    reach: Seq<S>,
    dealt: Seq<Card>,
    aggressor: Option<usize>,
    laid: Laid<S>,
)
    requires
        s.spot.tree.nodes@.len() <= u32::MAX,
    ensures
        same_before(laid, s.laid_below(aim, idx, reach, dealt, aggressor, laid), idx),
    decreases s.spot.tree.nodes@.len() - idx, 300nat,
{
    let n = s.node(idx);
    if 0 <= idx < s.spot.tree.nodes@.len() && !num::total_of(reach).below_spec(aim.eps) {
        if n.kind == KIND_CHANCE {
            lemma_dealt(s, aim, idx, reach, dealt, aggressor, laid, 52);
        } else if n.kind == KIND_ACTION {
            let na = n.num_children as nat;
            if n.player == aim.villain {
                let (next, sigma) = s.laid_at(aim, idx, reach, aggressor, laid);
                assert(same_before(laid, next, idx));
                lemma_acted(s, aim, idx, reach, Some(sigma), dealt, aggressor, next, na);
                let all = s.laid_acted(
                    aim,
                    idx,
                    reach,
                    Some(sigma),
                    dealt,
                    aggressor,
                    next,
                    na,
                );
                lemma_then(laid, next, all, idx, idx + 1);
            } else {
                lemma_acted(s, aim, idx, reach, None, dealt, aggressor, laid, na);
            }
        }
    }
}

proof fn lemma_dealt<S: Single>(
    s: Solver<S>,
    aim: Aim<S>,
    idx: int,
    reach: Seq<S>,
    dealt: Seq<Card>,
    aggressor: Option<usize>,
    laid: Laid<S>,
    k: nat,
)
    requires
        s.spot.tree.nodes@.len() <= u32::MAX,
    ensures
        same_before(laid, s.laid_dealt(aim, idx, reach, dealt, aggressor, laid, k), idx + 1),
    decreases s.spot.tree.nodes@.len() - idx, k,
{
    if k > 0 {
        lemma_dealt(s, aim, idx, reach, dealt, aggressor, laid, (k - 1) as nat);
        let before = s.laid_dealt(aim, idx, reach, dealt, aggressor, laid, (k - 1) as nat);
        let c = k - 1;
        let child = s.child(idx, c);
        if s.stands_for(idx, dealt, c) == Some(c) && idx < child < s.spot.tree.nodes@.len() && idx
            >= 0 {
            lemma_below(
                s,
                aim,
                child,
                s.reach_behind(aim.villain, idx, dealt, reach, c),
                dealt.push(c as u8),
                aggressor,
                before,
            );
        }
    }
}

proof fn lemma_acted<S: Single>(
    s: Solver<S>,
    aim: Aim<S>,
    idx: int,
    reach: Seq<S>,
    sigma: Option<Seq<S>>,
    dealt: Seq<Card>,
    aggressor: Option<usize>,
    laid: Laid<S>,
    k: nat,
)
    requires
        s.spot.tree.nodes@.len() <= u32::MAX,
    ensures
        same_before(
            laid,
            s.laid_acted(aim, idx, reach, sigma, dealt, aggressor, laid, k),
            idx + 1,
        ),
    decreases s.spot.tree.nodes@.len() - idx, k,
{
    if k > 0 {
        lemma_acted(s, aim, idx, reach, sigma, dealt, aggressor, laid, (k - 1) as nat);
        let before = s.laid_acted(
            aim,
            idx,
            reach,
            sigma,
            dealt,
            aggressor,
            laid,
            (k - 1) as nat,
        );
        let a = k - 1;
        let child = s.child(idx, a);
        let act = s.action_at(idx, a);
        if idx < child < s.spot.tree.nodes@.len() && idx >= 0 {
            let through = match sigma {
                Some(x) => strategy::reach_through(reach, x, a),
                None => reach,
            };
            let last = if act is Bet || act is Raise {
                Some(s.node(idx).player as usize)
            } else {
                aggressor
            };
            lemma_below(s, aim, child, through, dealt, last, before);
            let next = s.laid_below(aim, child, through, dealt, last, before);
            assert(s.laid_acted(aim, idx, reach, sigma, dealt, aggressor, laid, k) == next);
            lemma_then(laid, before, next, idx + 1, child);
        }
    }
}

/// Law: where a profile is laid down at a decision of the villain, the label says
/// what the stats ask for on that street, with the initiative if and only if the
/// villain was the last to bet or raise; nothing that is laid down further on
/// changes that.
pub proof fn law_labels_stand_where_they_are_laid<S: Single>(
    s: Solver<S>,
    aim: Aim<S>,
    idx: int,
    reach: Seq<S>,
    dealt: Seq<Card>,
    aggressor: Option<usize>,
    laid: Laid<S>,
)
    requires
        s.spot.tree.nodes@.len() <= u32::MAX,
        0 <= idx < s.spot.tree.nodes@.len(),
        s.node(idx).kind == KIND_ACTION,
        s.node(idx).player == aim.villain,
        !num::total_of(reach).below_spec(aim.eps),
        !Solver::manual(laid, idx),
    ensures
        ({
            let after = s.laid_below(aim, idx, reach, dealt, aggressor, laid);
            let menu = profile::menu_of(s.acts_at(idx), aim.stats.bet_size@ == "max"@);
            &&& after.labels.contains_key(idx as u32)
            &&& after.labels[idx as u32] == profile::lock_name(
                aim.stats,
                s.node(idx).street as int,
                menu,
                aggressor == Some(aim.villain as usize),
            )
        }),
{
    let (next, sigma) = s.laid_at(aim, idx, reach, aggressor, laid);
    let na = s.node(idx).num_children as nat;
    lemma_acted(s, aim, idx, reach, Some(sigma), dealt, aggressor, next, na);
    assert(next.labels.contains_key(idx as u32));
    let after = s.laid_below(aim, idx, reach, dealt, aggressor, laid);
    assert(after.labels.contains_key(idx as u32));
}

/// Law: the initiative goes to the player who bets or raises, and stays where it
/// is after any other action: the villain's next decision is laid down with it
/// if and only if the villain bet or raised last.
pub proof fn law_the_last_bet_takes_the_initiative<S: Single>(
    s: Solver<S>,
    aim: Aim<S>,
    idx: int,
    reach: Seq<S>,
    sigma: Option<Seq<S>>,
    dealt: Seq<Card>,
    aggressor: Option<usize>,
    laid: Laid<S>,
    a: int,
)
    requires
        s.spot.tree.nodes@.len() <= u32::MAX,
        0 <= idx < s.child(idx, a) < s.spot.tree.nodes@.len(),
        0 <= aim.villain < 2,
        0 <= a,
        s.node(s.child(idx, a)).kind == KIND_ACTION,
        s.node(s.child(idx, a)).player == aim.villain,
        !num::total_of(
            match sigma {
                Some(x) => strategy::reach_through(reach, x, a),
                None => reach,
            },
        ).below_spec(aim.eps),
        !Solver::manual(
            s.laid_acted(aim, idx, reach, sigma, dealt, aggressor, laid, a as nat),
            s.child(idx, a),
        ),
    ensures
        ({
            let c = s.child(idx, a);
            let act = s.action_at(idx, a);
            let after = s.laid_acted(
                aim,
                idx,
                reach,
                sigma,
                dealt,
                aggressor,
                laid,
                (a + 1) as nat,
            );
            let menu = profile::menu_of(s.acts_at(c), aim.stats.bet_size@ == "max"@);
            let leads = if act is Bet || act is Raise {
                s.node(idx).player == aim.villain
            } else {
                aggressor == Some(aim.villain as usize)
            };
            &&& after.labels.contains_key(c as u32)
            &&& after.labels[c as u32] == profile::lock_name(
                aim.stats,
                s.node(c).street as int,
                menu,
                leads,
            )
        }),
{
    let before = s.laid_acted(aim, idx, reach, sigma, dealt, aggressor, laid, a as nat);
    let act = s.action_at(idx, a);
    law_labels_stand_where_they_are_laid(
        s,
        aim,
        s.child(idx, a),
        match sigma {
            Some(x) => strategy::reach_through(reach, x, a),
            None => reach,
        },
        dealt,
        if act is Bet || act is Raise {
            Some(s.node(idx).player as usize)
        } else {
            aggressor
        },
        before,
    );
}

/// Law: behind a card the villain's hands that hold it are blocked, and the
/// others arrive as often as one of the cards comes that it stands for, among
/// those that two hands leave. Up to rounding.
pub proof fn law_profiles_weigh_cards_by_how_many_they_stand_for(
    s: Solver<Nano>,
    villain: int,
    idx: int,
    dealt: Seq<Card>,
    reach: Seq<Nano>,
    c: int,
    i: int,
)
    requires
        s.wf(),
        0 <= villain < 2,
        reach.len() == s.nh(villain),
        0 <= i < s.nh(villain),
        0 <= c < 52,
        s.node(idx).street <= 2,
        0 <= reach[i].count,
        64 * reach[i].count <= i64::MAX,
    ensures
        ({
            let left = 46 - s.node(idx).street;
            let cards = s.orbit(idx, dealt, c, 52);
            let r = s.reach_behind(villain, idx, dealt, reach, c)[i].count;
            &&& 0 <= cards <= 52
            &&& removal_laws::has(s.spot.hands[villain]@[i], c as u8) ==> r == 0
            &&& !removal_laws::has(s.spot.hands[villain]@[i], c as u8) ==> size(
                left * (BILLION * r) - BILLION * (reach[i].count * cards),
            ) <= left * BILLION + left * reach[i].count
        }),
{
    let b = BILLION as int;
    assert(nano::ten_to(0) == 1);
    value_laws::lemma_holds(s.spot.hands[villain]@, i, c);
    lemma_orbit(s, idx, dealt, c, 52);
    let left = 46 - s.node(idx).street;
    let n = s.orbit(idx, dealt, c, 52);
    let (x, d) = (Nano::decimal_spec(n as i64, 0), Nano::decimal_spec(left as i64, 0));
    assert(x.count == n * b && d.count == left * b);
    let (y, e) = (n * b * b, left * b);
    weigh_laws::lemma_cut_near(y, e);
    let q = nano::cut_div(y, e);
    assert(0 <= y) by (nonlinear_arith)
        requires
            y == n * b * b,
            0 <= n,
            0 < b,
    ;
    assert(0 < e) by (nonlinear_arith)
        requires
            e == left * b,
            1 <= left,
            0 < b,
    ;
    vstd::arithmetic::div_mod::lemma_div_pos_is_pos(y, e);
    assert(q <= 2 * b) by (nonlinear_arith)
        requires
            e * q <= y,
            y == n * b * b,
            e == left * b,
            n <= 52,
            44 <= left,
            0 < b,
    ;
    let scale = x.over_spec(d);
    assert(scale.count == q);
    let f = left * q - n * b;
    assert(-left <= f <= left) by (nonlinear_arith)
        requires
            -e <= e * q - y <= e,
            e == left * b,
            y == n * b * b,
            f == left * q - n * b,
            0 < b,
    ;
    let k = reach[i].count as int;
    let z = k * q;
    assert(0 <= z <= b * (2 * k)) by (nonlinear_arith)
        requires
            z == k * q,
            0 <= k,
            0 <= q <= 2 * b,
    ;
    weigh_laws::lemma_times_near(reach[i], scale, 2 * k);
    weigh_laws::lemma_cut_near(z, b);
    let r = reach[i].times_spec(scale).count as int;
    let g = b * r - z;
    assert(left * (b * r) - b * (k * n) == left * g + k * f) by (nonlinear_arith)
        requires
            g == b * r - z,
            z == k * q,
            f == left * q - n * b,
    ;
    assert(size(left * g + k * f) <= left * b + left * k) by (nonlinear_arith)
        requires
            -b <= g <= b,
            -left <= f <= left,
            0 <= k,
            0 < left,
            size(left * g + k * f) == left * g + k * f || size(left * g + k * f) == -(left * g + k
                * f),
    ;
}

proof fn lemma_orbit(s: Solver<Nano>, idx: int, dealt: Seq<Card>, c: int, k: int)
    requires
        0 <= k,
    ensures
        0 <= s.orbit(idx, dealt, c, k) <= k,
    decreases k,
{
    if k > 0 {
        lemma_orbit(s, idx, dealt, c, k - 1);
    }
}

} // verus!
