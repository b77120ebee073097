//! Walking through a tree, in exact numbers: how ranges get where a path leads.

use crate::cards;
use crate::cfr::Solver;
use crate::classes;
use crate::nano;
use crate::nano::{Nano, BILLION};
use crate::num::Num;
use crate::path::{Place, Step};
use crate::play_laws;
use crate::preflop_solver::Field;
use crate::preflop_view;
use crate::preflop_view::Standing;
use crate::removal_laws;
use crate::strategy;
use crate::tree::KIND_ACTION;
use crate::value_laws;
use crate::weigh_laws;
use crate::weigh_laws::size;
use vstd::prelude::*;

verus! {

/// Whether one reach is another times a share, down to a billionth.
pub open spec fn part_of(after: Nano, before: Nano, share: Nano) -> bool {
    0 <= before.count * share.count - BILLION * after.count < BILLION
}

pub(crate) proof fn lemma_part(before: Nano, share: Nano)
    requires
        0 <= before.count,
        0 <= share.count <= BILLION,
    ensures
        part_of(before.times_spec(share), before, share),
{
    let b = BILLION as int;
    let (x, y) = (before.count as int, share.count as int);
    let z = x * y;
    assert(0 <= z <= b * x) by (nonlinear_arith)
        requires
            z == x * y,
            0 <= x,
            0 <= y <= b,
    ;
    weigh_laws::lemma_times_near(before, share, x);
    vstd::arithmetic::div_mod::lemma_fundamental_div_mod(z, b);
    vstd::arithmetic::div_mod::lemma_mod_bound(z, b);
}

/// Law: along an action every hand of the player who acts gets on by how often it
/// takes the action; the opponent's reach and the dealt cards stay as they are.
pub proof fn law_actions_pass_reach_on(s: Solver<Nano>, at: Place<Nano>, index: usize, i: int)
    requires
        s.wf(),
        s.standing(at),
        s.stepped(at, Step::Action { index }) is Ok,
        ({
            let n = s.node(at.idx);
            let p = n.player as int;
            &&& 0 <= i < s.nh(p)
            &&& 0 <= at.reach(p)[i].count
            &&& play_laws::share_one(
                strategy::column(s.played(at.idx), n.num_children as int, s.nh(p), i),
            )
        }),
    ensures
        ({
            let n = s.node(at.idx);
            let p = n.player as int;
            let next = s.stepped(at, Step::Action { index })->Ok_0;
            let shares = strategy::column(s.played(at.idx), n.num_children as int, s.nh(p), i);
            &&& n.kind == KIND_ACTION && index < n.num_children
            &&& part_of(next.reach(p)[i], at.reach(p)[i], shares[index as int])
            &&& next.reach(p).len() == s.nh(p)
            &&& next.reach(1 - p) == at.reach(1 - p)
            &&& next.dealt == at.dealt
            &&& next.idx == s.child(at.idx, index as int)
        }),
{
    let n = s.node(at.idx);
    let p = n.player as int;
    let shares = strategy::column(s.played(at.idx), n.num_children as int, s.nh(p), i);
    s.lemma_decision(at.idx);
    play_laws::lemma_counted_bound(shares);
    let share = shares[index as int];
    assert(share.count <= BILLION);
    assert(at.reach(p).len() == s.nh(p));
    lemma_part(at.reach(p)[i], share);
}

/// Law: a card blocks the hands that hold it, of both players; all others get on
/// as they are, and the card has been dealt.
pub proof fn law_cards_block_hands(
    s: Solver<Nano>,
    at: Place<Nano>,
    text: Seq<char>,
    p: int,
    i: int,
)
    requires
        s.wf(),
        s.standing(at),
        s.stepped(at, Step::Card { text }) is Ok,
        0 <= p < 2,
        0 <= i < s.nh(p),
    ensures
        cards::text_card(text) is Ok,
        ({
            let c = cards::text_card(text)->Ok_0;
            let next = s.stepped(at, Step::Card { text })->Ok_0;
            &&& next.dealt == at.dealt.push(c)
            &&& next.reach(p)[i].count == if removal_laws::has(s.spot.hands[p]@[i], c) {
                0
            } else {
                at.reach(p)[i].count
            }
        }),
{
    let c = cards::text_card(text)->Ok_0;
    assert(nano::ten_to(0) == 1);
    s.lemma_deal(at.idx, at.dealt, c as int);
    value_laws::lemma_holds(s.spot.hands[p]@, i, c as int);
}

/// Law: before the flop, too, every class of the seat that acts gets on by how
/// often it takes the action, and the other seats' ranges stay as they are.
pub proof fn law_seats_pass_reach_on(
    f: Field<Nano>,
    strat: Seq<Nano>,
    at: Standing<Nano>,
    a: usize,
    h: int,
    q: int,
)
    requires
        f.stepped(strat, at, a) is Some,
        ({
            let actor = f.tree.nodes[at.node].actor as int;
            &&& actor < at.reaches.len()
            &&& at.reaches[actor].len() == 169
            &&& 0 <= q < at.reaches.len()
            &&& q != actor
            &&& 0 <= h < 169
            &&& 0 <= at.reaches[actor][h].count
            &&& 0 <= f.plays(strat, at.node)[strategy::cell(169, a as int, h)].count <= BILLION
        }),
    ensures
        ({
            let actor = f.tree.nodes[at.node].actor as int;
            let next = f.stepped(strat, at, a)->Some_0;
            &&& part_of(
                next.reaches[actor][h],
                at.reaches[actor][h],
                f.plays(strat, at.node)[strategy::cell(169, a as int, h)],
            )
            &&& next.reaches[q] == at.reaches[q]
            &&& next.node == f.child(at.node, a as int)
        }),
{
    let actor = f.tree.nodes[at.node].actor as int;
    lemma_part(
        at.reaches[actor][h],
        f.plays(strat, at.node)[strategy::cell(169, a as int, h)],
    );
}

/// Law: what is shown and exported of a range is the part of every class that
/// gets there: its reach over how likely the class is dealt, and all of it where
/// it has no less.
pub proof fn law_shown_ranges_are_parts_of_classes(reach: Seq<Nano>, h: int)
    requires
        reach.len() == 169,
        0 <= h < 169,
        0 <= reach[h].count,
    ensures
        ({
            let k = preflop_view::kept(reach)[h].count;
            let chance = classes::class_chance::<Nano>(h).count;
            &&& size(1326 * chance - BILLION * classes::class_combos(h)) <= 1326
            &&& 0 < chance
            &&& reach[h].count >= chance ==> k == BILLION
            &&& reach[h].count < chance ==> 0 <= BILLION * reach[h].count - k * chance < chance
        }),
{
    let b = BILLION as int;
    assert(nano::ten_to(0) == 1);
    let c = classes::class_combos(h);
    let chance = classes::class_chance::<Nano>(h);
    let y = c * b * b;
    let d = 1326 * b;
    assert(Nano::decimal_spec(1, 0).count == b);
    assert(Nano::decimal_spec(1326, 0).count == d);
    assert(Nano::decimal_spec(c as i64, 0).count == c * b);
    weigh_laws::lemma_cut_near(y, d);
    let p = nano::cut_div(y, d);
    assert(4 * b * b <= y <= 12 * b * b) by (nonlinear_arith)
        requires
            y == c * b * b,
            4 <= c <= 12,
            0 < b,
    ;
    assert(p <= b) by (nonlinear_arith)
        requires
            d * p <= 12 * b * b,
            d == 1326 * b,
            0 < b,
    ;
    assert(0 < p) by (nonlinear_arith)
        requires
            y - d * p <= d,
            4 * b * b <= y,
            d == 1326 * b,
            b == 1_000_000_000,
    ;
    assert(chance.count == p);
    let e = 1326 * p - b * c;
    assert(-1326 <= e <= 1326) by (nonlinear_arith)
        requires
            -d <= d * p - y <= d,
            d == 1326 * b,
            y == c * b * b,
            e == 1326 * p - b * c,
            0 < b,
    ;
    let x = reach[h].count as int;
    let z = x * b;
    assert(0 <= z) by (nonlinear_arith)
        requires
            z == x * b,
            0 <= x,
            0 < b,
    ;
    vstd::arithmetic::div_mod::lemma_fundamental_div_mod(z, p);
    vstd::arithmetic::div_mod::lemma_mod_bound(z, p);
    let q = z / p;
    vstd::arithmetic::div_mod::lemma_div_pos_is_pos(z, p);
    if x >= p {
        assert(q >= b) by (nonlinear_arith)
            requires
                z == p * q + z % p,
                z % p < p,
                z == x * b,
                x >= p,
                0 < p,
                0 < b,
        ;
    } else {
        assert(q <= b) by (nonlinear_arith)
            requires
                z == p * q + z % p,
                0 <= z % p,
                z == x * b,
                0 <= x < p,
                0 < b,
        ;
    }
    let ratio = reach[h].over_spec(chance);
    assert(ratio.count == nano::clamp_count(q));
    assert(q * p == p * q) by (nonlinear_arith);
}

} // verus!
