//! What holds of modelled seats, whatever is solved around them.

use crate::num::{Num, Single};
use crate::preflop_build;
use crate::preflop_solver;
use crate::preflop_solver::{Arenas, Field, Seating};
use crate::preflop_tree::{Knot, KIND_ACTION};
use crate::seat_models;
use crate::strategy;
use vstd::prelude::*;

verus! {

/// Whether a node's cells are in one pair of arenas as in another.
pub open spec fn same_block<S: Single>(was: Arenas<S>, now: Arenas<S>, nd: Knot<S>) -> bool {
    &&& now.regrets.len() == was.regrets.len()
    &&& now.strat.len() == was.strat.len()
    &&& preflop_solver::block(now.regrets, nd) == preflop_solver::block(was.regrets, nd)
    &&& preflop_solver::block(now.strat, nd) == preflop_solver::block(was.strat, nd)
}

/// Whether arenas are of the game's size.
pub open spec fn sized<S: Single>(f: Field<S>, ar: Arenas<S>) -> bool {
    ar.regrets.len() == f.tree.arena_len && ar.strat.len() == f.tree.arena_len
}

/// Two arenas that differ only inside another node's block agree on this one.
proof fn lemma_other_block<S: Single>(
    f: Field<S>,
    was: Arenas<S>,
    now: Arenas<S>,
    c: int,
    i: int,
)
    requires
        f.wf(),
        sized(f, was),
        sized(f, now),
        0 <= c < f.tree.nodes.len(),
        0 <= i < f.tree.nodes.len(),
        c != i,
        f.tree.nodes[c].kind == KIND_ACTION,
        f.tree.nodes[i].kind == KIND_ACTION,
        ({
            let nd = f.tree.nodes[c];
            let end = nd.data_off + preflop_build::cells(nd.actions.len());
            forall|j: int|
                0 <= j < f.tree.arena_len && !(nd.data_off <= j < end) ==> now.regrets[j]
                    == was.regrets[j] && now.strat[j] == was.strat[j]
        }),
    ensures
        same_block(was, now, f.tree.nodes[i]),
{
    let nd = f.tree.nodes[i];
    let other = f.tree.nodes[c];
    assert(preflop_build::knot_sound(f.n(), f.tree, i));
    assert(preflop_build::knot_sound(f.n(), f.tree, c));
    if c < i {
        assert(other.data_off + preflop_build::cells(other.actions.len()) <= nd.data_off);
    } else {
        assert(nd.data_off + preflop_build::cells(nd.actions.len()) <= other.data_off);
    }
    assert(preflop_solver::block(now.regrets, nd) =~= preflop_solver::block(was.regrets, nd));
    assert(preflop_solver::block(now.strat, nd) =~= preflop_solver::block(was.strat, nd));
}

proof fn lemma_trained<S: Single>(
    f: Field<S>,
    ar: Arenas<S>,
    c: int,
    p: int,
    reaches: Seq<Seq<S>>,
    i: int,
)
    requires
        f.wf(),
        sized(f, ar),
        0 <= c < f.tree.nodes.len(),
        0 <= i < f.tree.nodes.len(),
        f.tree.nodes[i].kind == KIND_ACTION,
        !f.learns(i),
    ensures
        sized(f, f.trained(ar, c, p, reaches).1),
        same_block(ar, f.trained(ar, c, p, reaches).1, f.tree.nodes[i]),
    decreases f.tree.nodes.len() - c, f.tree.nodes[c].actions.len() + 1,
{
    let nd = f.tree.nodes[c];
    if nd.kind == KIND_ACTION {
        let sigma = f.tries(ar, c);
        lemma_trained_below(f, ar, c, p, reaches, sigma, nd.actions.len(), i);
        let (vals, after) = f.trained_below(ar, c, p, reaches, sigma, nd.actions.len());
        if nd.actor == p && f.learns(c) {
            let out = strategy::mixed(sigma, vals, 169);
            let learnt = f.learnt(
                after,
                nd,
                sigma,
                vals,
                out,
                reaches[p],
                preflop_build::cells(nd.actions.len()),
            );
            lemma_other_block(f, after, learnt, c, i);
        }
    }
}

proof fn lemma_trained_below<S: Single>(
    f: Field<S>,
    ar: Arenas<S>,
    c: int,
    p: int,
    reaches: Seq<Seq<S>>,
    sigma: Seq<S>,
    k: nat,
    i: int,
)
    requires
        f.wf(),
        sized(f, ar),
        0 <= c < f.tree.nodes.len(),
        0 <= i < f.tree.nodes.len(),
        f.tree.nodes[i].kind == KIND_ACTION,
        !f.learns(i),
    ensures
        sized(f, f.trained_below(ar, c, p, reaches, sigma, k).1),
        same_block(ar, f.trained_below(ar, c, p, reaches, sigma, k).1, f.tree.nodes[i]),
    decreases f.tree.nodes.len() - c, k,
{
    if k > 0 {
        let nd = f.tree.nodes[c];
        let kid = f.child(c, k - 1);
        let (before, mid) = f.trained_below(ar, c, p, reaches, sigma, (k - 1) as nat);
        lemma_trained_below(f, ar, c, p, reaches, sigma, (k - 1) as nat, i);
        if c < kid < f.tree.nodes.len() {
            lemma_trained(
                f,
                mid,
                kid,
                p,
                preflop_solver::acted(reaches, nd.actor as int, sigma, k - 1),
                i,
            );
        }
    }
}

proof fn lemma_played<S: Single>(f: Field<S>, ar: Arenas<S>, k: int, i: int)
    requires
        f.wf(),
        sized(f, ar),
        0 <= i < f.tree.nodes.len(),
        f.tree.nodes[i].kind == KIND_ACTION,
        !f.learns(i),
    ensures
        sized(f, f.played_through(ar, k)),
        same_block(ar, f.played_through(ar, k), f.tree.nodes[i]),
    decreases k,
{
    if k > 0 {
        lemma_played(f, ar, k - 1, i);
        if !f.seats.frozen[k - 1] {
            let mid = f.played_through(ar, k - 1);
            lemma_trained(f, mid, 0, k - 1, preflop_solver::at_root::<S>(f.n()), i);
        }
    }
}

proof fn lemma_discounted<S: Single>(f: Field<S>, ar: Arenas<S>, t: u32, k: int, i: int)
    requires
        f.wf(),
        sized(f, ar),
        k <= f.tree.nodes.len(),
        0 <= i < f.tree.nodes.len(),
        f.tree.nodes[i].kind == KIND_ACTION,
        !f.learns(i),
    ensures
        sized(f, f.discounted(ar, t, k)),
        same_block(ar, f.discounted(ar, t, k), f.tree.nodes[i]),
    decreases k,
{
    if k > 0 {
        lemma_discounted(f, ar, t, k - 1, i);
        let before = f.discounted(ar, t, k - 1);
        let nd = f.tree.nodes[k - 1];
        if nd.kind == KIND_ACTION && f.learns(k - 1) {
            lemma_other_block(f, before, f.discounted(ar, t, k), k - 1, i);
        }
    }
}

/// Law: where a seat does not learn, because it is frozen or its strategy is
/// imposed, an iteration leaves every cell of the node as it is, and the
/// strategy that counts there with it.
pub proof fn law_held_seats_stay_put<S: Single>(f: Field<S>, ar: Arenas<S>, t: u32, i: int)
    requires
        f.wf(),
        ar.regrets.len() == f.tree.arena_len,
        ar.strat.len() == f.tree.arena_len,
        0 <= i < f.tree.nodes.len(),
        f.tree.nodes[i].kind == KIND_ACTION,
        !f.learns(i),
    ensures
        same_block(ar, f.iterated(ar, t), f.tree.nodes[i]),
        f.plays(f.iterated(ar, t).strat, i) == f.plays(ar.strat, i),
{
    lemma_played(f, ar, f.n(), i);
    lemma_discounted(f, f.played_through(ar, f.n()), t, f.tree.nodes.len() as int, i);
}

/// Law: a frozen seat learns nowhere.
pub proof fn law_frozen_seats_do_not_learn<S: Single>(f: Field<S>, i: int)
    requires
        f.wf(),
        0 <= i < f.tree.nodes.len(),
        f.tree.nodes[i].kind == KIND_ACTION,
        f.seats.frozen[f.tree.nodes[i].actor as int],
    ensures
        !f.learns(i),
{
}

/// Law: with a hero, no other seat learns, and the hero learns wherever
/// nothing is pinned.
pub proof fn law_only_the_hero_learns<S: Single>(f: Field<S>, h: usize, i: int)
    requires
        f.wf(),
        h < f.n(),
        0 <= i < f.tree.nodes.len(),
        f.tree.nodes[i].kind == KIND_ACTION,
    ensures
        ({
            let g = Field { seats: f.seats.with_hero(h), ..f };
            g.learns(i) <==> f.tree.nodes[i].actor == h && f.seats.pins[i] is None
        }),
{
    assert(preflop_build::knot_sound(f.n(), f.tree, i));
}

/// Law: when the hero leaves, the table is as frozen as it was before, also
/// where the hero changed in between.
pub proof fn law_the_table_comes_back<S: Single>(s: Seating<S>, h: usize, g: usize)
    ensures
        s.with_hero(h).without_hero().frozen == s.table_flags(),
        s.with_hero(h).with_hero(g).without_hero().frozen == s.table_flags(),
        s.with_hero(h).without_hero() == s.without_hero(),
{
}

/// Law: what is pinned goes before what a profile says, and that before what
/// is solved.
pub proof fn law_pins_before_profiles<S: Single>(f: Field<S>, strat: Seq<S>, i: int)
    ensures
        f.seats.pins[i] is Some ==> f.plays(strat, i) == f.seats.pins[i]->0,
        f.seats.pins[i] is None ==> match f.policy(
            f.tree.nodes[i].actor as int,
            f.tree.nodes[i].bucket as int,
        ) {
            Some(policy) => f.plays(strat, i) == seat_models::played_by(
                f.tree.nodes[i].actions,
                policy,
            ),
            None => f.plays(strat, i) == preflop_solver::on_average(strat, f.tree.nodes[i]),
        },
{
}

/// Law: taking a pin back leaves the seating as it was without it.
pub proof fn law_a_pin_taken_back_leaves_nothing<S: Single>(
    s: Seating<S>,
    node: int,
    sigma: Seq<S>,
)
    requires
        0 <= node < s.pins.len(),
        s.pins[node] is None,
    ensures
        s.pins.update(node, Some(sigma)).update(node, None) == s.pins,
{
    assert(s.pins.update(node, Some(sigma)).update(node, None) =~= s.pins);
}

} // verus!
