//! Suit symmetry is exact: where nothing is locked, a solver that folds
//! symmetric runouts plays, learns and is exploited just as one that does not.

use crate::cards::Card;
use crate::cfr;
use crate::cfr::Solver;
use crate::engine::Tables;
use crate::num::Single;
use crate::session::SolvePlan;
use crate::strategy;
use crate::tree::{KIND_ACTION, KIND_CHANCE, KIND_TERM_FOLD, KIND_TERM_SHOWDOWN};
use crate::tree_laws;
use vstd::prelude::*;

verus! {

/// Whether two solvers stand at the same point of the same game, with nothing
/// locked. One may fold symmetric runouts and the other not.
pub open spec fn level_with<S: Single>(a: Solver<S>, b: Solver<S>) -> bool {
    &&& a.spot == b.spot
    &&& a.iteration == b.iteration
    &&& a.tables() == b.tables()
    &&& a.locks@ == Map::<u32, Vec<S>>::empty()
    &&& b.locks@ == Map::<u32, Vec<S>>::empty()
}

/// Whether two solvers play the same game, with nothing locked, whatever they
/// have learnt.
pub open spec fn same_table<S: Single>(a: Solver<S>, b: Solver<S>) -> bool {
    &&& a.spot.wf()
    &&& a.spot == b.spot
    &&& a.iteration == b.iteration
    &&& a.locks@ == Map::<u32, Vec<S>>::empty()
    &&& b.locks@ == Map::<u32, Vec<S>>::empty()
}

// ---------------------------------------------------------------------------
// Values
// ---------------------------------------------------------------------------

proof fn lemma_played_level<S: Single>(a: Solver<S>, b: Solver<S>, idx: int)
    requires
        level_with(a, b),
        a.node(idx).player < 2,
    ensures
        a.played(idx) == b.played(idx),
{
    let p = a.node(idx).player as int;
    assert(a.tables().strat[p] == b.tables().strat[p]);
    assert(a.strat[p]@ == b.strat[p]@);
}

proof fn lemma_worth_level<S: Single>(
    a: Solver<S>,
    b: Solver<S>,
    best: bool,
    idx: int,
    p: int,
    reach: Seq<S>,
    dealt: Seq<Card>,
)
    requires
        level_with(a, b),
        a.wf(),
        b.wf(),
    ensures
        a.worth(best, idx, p, reach, dealt) == b.worth(best, idx, p, reach, dealt),
    decreases a.spot.tree.nodes@.len() - idx, 256nat,
{
    let n = a.node(idx);
    if 0 <= idx < a.spot.tree.nodes@.len() {
        assert(tree_laws::node_sound(a.spot.tree.arena(), a.spot.board_mask, idx));
        if n.kind == KIND_TERM_FOLD || n.kind == KIND_TERM_SHOWDOWN {
        } else if n.kind == KIND_CHANCE {
            lemma_dealt_level(a, b, best, idx, p, reach, dealt, 52);
        } else {
            let k = n.num_children as nat;
            lemma_facing_level(a, b, best, idx, p, reach, dealt, k);
            lemma_mixing_level(a, b, best, idx, p, reach, dealt, k);
            lemma_choosing_level(a, b, best, idx, p, reach, dealt, k);
        }
    }
}

proof fn lemma_below_level<S: Single>(
    a: Solver<S>,
    b: Solver<S>,
    best: bool,
    idx: int,
    s: int,
    p: int,
    reach: Seq<S>,
    dealt: Seq<Card>,
)
    requires
        level_with(a, b),
        a.wf(),
        b.wf(),
    ensures
        a.worth_below(best, idx, s, p, reach, dealt) == b.worth_below(
            best,
            idx,
            s,
            p,
            reach,
            dealt,
        ),
    decreases a.spot.tree.nodes@.len() - idx, 0nat,
{
    let c = a.child(idx, s);
    if idx < c < a.spot.tree.nodes@.len() && idx >= 0 {
        lemma_worth_level(a, b, best, c, p, reach, dealt);
    }
}

proof fn lemma_dealt_level<S: Single>(
    a: Solver<S>,
    b: Solver<S>,
    best: bool,
    idx: int,
    p: int,
    reach: Seq<S>,
    dealt: Seq<Card>,
    k: nat,
)
    requires
        level_with(a, b),
        a.wf(),
        b.wf(),
    ensures
        a.worth_dealt(best, idx, p, reach, dealt, k) == b.worth_dealt(
            best,
            idx,
            p,
            reach,
            dealt,
            k,
        ),
    decreases a.spot.tree.nodes@.len() - idx, k,
{
    if k > 0 {
        lemma_dealt_level(a, b, best, idx, p, reach, dealt, (k - 1) as nat);
        let c = k - 1;
        lemma_below_level(
            a,
            b,
            best,
            idx,
            c,
            p,
            cfr::reach_past(a.spot.hands[1 - p]@, reach, c),
            dealt.push(c as u8),
        );
        assert(a.worth_dealt(best, idx, p, reach, dealt, k) =~= b.worth_dealt(
            best,
            idx,
            p,
            reach,
            dealt,
            k,
        ));
    }
}

proof fn lemma_facing_level<S: Single>(
    a: Solver<S>,
    b: Solver<S>,
    best: bool,
    idx: int,
    p: int,
    reach: Seq<S>,
    dealt: Seq<Card>,
    k: nat,
)
    requires
        level_with(a, b),
        a.wf(),
        b.wf(),
        a.decides(idx),
    ensures
        a.worth_facing(best, idx, p, reach, dealt, k) == b.worth_facing(
            best,
            idx,
            p,
            reach,
            dealt,
            k,
        ),
    decreases a.spot.tree.nodes@.len() - idx, k,
{
    if k > 0 {
        a.lemma_decision(idx);
        lemma_played_level(a, b, idx);
        lemma_facing_level(a, b, best, idx, p, reach, dealt, (k - 1) as nat);
        let on = strategy::reach_through(reach, a.played(idx), k - 1);
        lemma_below_level(a, b, best, idx, k - 1, p, on, dealt);
    }
}

proof fn lemma_mixing_level<S: Single>(
    a: Solver<S>,
    b: Solver<S>,
    best: bool,
    idx: int,
    p: int,
    reach: Seq<S>,
    dealt: Seq<Card>,
    k: nat,
)
    requires
        level_with(a, b),
        a.wf(),
        b.wf(),
        a.decides(idx),
    ensures
        a.worth_mixing(best, idx, p, reach, dealt, k) == b.worth_mixing(
            best,
            idx,
            p,
            reach,
            dealt,
            k,
        ),
    decreases a.spot.tree.nodes@.len() - idx, k,
{
    if k > 0 {
        a.lemma_decision(idx);
        lemma_played_level(a, b, idx);
        lemma_mixing_level(a, b, best, idx, p, reach, dealt, (k - 1) as nat);
        lemma_below_level(a, b, best, idx, k - 1, p, reach, dealt);
        assert(a.worth_mixing(best, idx, p, reach, dealt, k) =~= b.worth_mixing(
            best,
            idx,
            p,
            reach,
            dealt,
            k,
        ));
    }
}

proof fn lemma_choosing_level<S: Single>(
    a: Solver<S>,
    b: Solver<S>,
    best: bool,
    idx: int,
    p: int,
    reach: Seq<S>,
    dealt: Seq<Card>,
    k: nat,
)
    requires
        level_with(a, b),
        a.wf(),
        b.wf(),
    ensures
        a.worth_choosing(best, idx, p, reach, dealt, k) == b.worth_choosing(
            best,
            idx,
            p,
            reach,
            dealt,
            k,
        ),
    decreases a.spot.tree.nodes@.len() - idx, k,
{
    if k > 0 {
        lemma_choosing_level(a, b, best, idx, p, reach, dealt, (k - 1) as nat);
        lemma_below_level(a, b, best, idx, k - 1, p, reach, dealt);
    }
}

// ---------------------------------------------------------------------------
// Learning
// ---------------------------------------------------------------------------

proof fn lemma_trained_level<S: Single>(
    a: Solver<S>,
    b: Solver<S>,
    t: Tables<S>,
    idx: int,
    p: int,
    own: Seq<S>,
    reach: Seq<S>,
    dealt: Seq<Card>,
)
    requires
        same_table(a, b),
    ensures
        a.trained(t, idx, p, own, reach, dealt) == b.trained(t, idx, p, own, reach, dealt),
    decreases a.spot.tree.nodes@.len() - idx, 256nat,
{
    let n = a.node(idx);
    if 0 <= idx < a.spot.tree.nodes@.len() {
        assert(tree_laws::node_sound(a.spot.tree.arena(), a.spot.board_mask, idx));
        if n.kind == KIND_CHANCE {
            lemma_trained_cards_level(a, b, t, idx, p, own, reach, dealt, 52);
        } else if n.kind == KIND_ACTION {
            let sigma = a.tried(t, idx);
            assert(sigma == b.tried(t, idx));
            lemma_trained_each_level(
                a,
                b,
                t,
                idx,
                p,
                own,
                reach,
                dealt,
                sigma,
                n.num_children as nat,
            );
        }
    }
}

proof fn lemma_trained_each_level<S: Single>(
    a: Solver<S>,
    b: Solver<S>,
    t: Tables<S>,
    idx: int,
    p: int,
    own: Seq<S>,
    reach: Seq<S>,
    dealt: Seq<Card>,
    sigma: Seq<S>,
    k: nat,
)
    requires
        same_table(a, b),
    ensures
        a.trained_each(t, idx, p, own, reach, dealt, sigma, k) == b.trained_each(
            t,
            idx,
            p,
            own,
            reach,
            dealt,
            sigma,
            k,
        ),
    decreases a.spot.tree.nodes@.len() - idx, k,
{
    if k > 0 {
        lemma_trained_each_level(a, b, t, idx, p, own, reach, dealt, sigma, (k - 1) as nat);
        let mid = a.trained_each(t, idx, p, own, reach, dealt, sigma, (k - 1) as nat).1;
        let mine = a.node(idx).player == p;
        let (o, r) = if mine {
            (strategy::reach_through(own, sigma, k - 1), reach)
        } else {
            (own, strategy::reach_through(reach, sigma, k - 1))
        };
        lemma_trained_below_level(a, b, mid, idx, k - 1, p, o, r, dealt);
    }
}

proof fn lemma_trained_below_level<S: Single>(
    a: Solver<S>,
    b: Solver<S>,
    t: Tables<S>,
    idx: int,
    s: int,
    p: int,
    own: Seq<S>,
    reach: Seq<S>,
    dealt: Seq<Card>,
)
    requires
        same_table(a, b),
    ensures
        a.trained_below(t, idx, s, p, own, reach, dealt) == b.trained_below(
            t,
            idx,
            s,
            p,
            own,
            reach,
            dealt,
        ),
    decreases a.spot.tree.nodes@.len() - idx, 0nat,
{
    let c = a.child(idx, s);
    if idx < c < a.spot.tree.nodes@.len() && idx >= 0 {
        lemma_trained_level(a, b, t, c, p, own, reach, dealt);
    }
}

proof fn lemma_trained_cards_level<S: Single>(
    a: Solver<S>,
    b: Solver<S>,
    t: Tables<S>,
    idx: int,
    p: int,
    own: Seq<S>,
    reach: Seq<S>,
    dealt: Seq<Card>,
    k: nat,
)
    requires
        same_table(a, b),
    ensures
        a.trained_dealt(t, idx, p, own, reach, dealt, k) == b.trained_dealt(
            t,
            idx,
            p,
            own,
            reach,
            dealt,
            k,
        ),
    decreases a.spot.tree.nodes@.len() - idx, k,
{
    if k > 0 {
        lemma_trained_cards_level(a, b, t, idx, p, own, reach, dealt, (k - 1) as nat);
        let (sum, mid) = a.trained_dealt(t, idx, p, own, reach, dealt, (k - 1) as nat);
        let c = k - 1;
        lemma_trained_below_level(
            a,
            b,
            mid,
            idx,
            c,
            p,
            cfr::reach_past(a.spot.hands[p]@, own, c),
            cfr::reach_past(a.spot.hands[1 - p]@, reach, c),
            dealt.push(c as u8),
        );
        assert(a.trained_dealt(t, idx, p, own, reach, dealt, k).0 =~= b.trained_dealt(
            t,
            idx,
            p,
            own,
            reach,
            dealt,
            k,
        ).0);
    }
}

// ---------------------------------------------------------------------------
// Solving
// ---------------------------------------------------------------------------

/// Law: solvers that are level are exploited alike.
pub proof fn law_level_solvers_are_exploited_alike<S: Single>(a: Solver<S>, b: Solver<S>)
    requires
        level_with(a, b),
        a.wf(),
        b.wf(),
    ensures
        a.exploited() == b.exploited(),
{
    let none = Seq::<Card>::empty();
    let (w0, w1) = (a.spot.weights[0]@, a.spot.weights[1]@);
    lemma_worth_level(a, b, true, 0, 0, w1, none);
    lemma_worth_level(a, b, false, 0, 0, w1, none);
    lemma_worth_level(a, b, true, 0, 1, w0, none);
    lemma_worth_level(a, b, false, 0, 1, w0, none);
}

/// Law: an iteration keeps solvers level.
pub proof fn law_iterations_keep_level<S: Single>(
    a: Solver<S>,
    b: Solver<S>,
    ready_a: Solver<S>,
    ready_b: Solver<S>,
    next_a: Solver<S>,
    next_b: Solver<S>,
)
    requires
        level_with(a, b),
        ready_a.readied(&a),
        ready_b.readied(&b),
        next_a.follows(ready_a),
        next_b.follows(ready_b),
    ensures
        level_with(next_a, next_b),
{
    lemma_nothing_locked(ready_a, a);
    lemma_nothing_locked(ready_b, b);
    assert(ready_a.tables() == a.tables());
    assert(ready_b.tables() == b.tables());
    let x = Solver { iteration: (ready_a.iteration + 1) as u32, sym_dirty: true, ..ready_a };
    let y = Solver { iteration: (ready_b.iteration + 1) as u32, sym_dirty: true, ..ready_b };
    let t = a.tables();
    let none = Seq::<Card>::empty();
    let (w0, w1) = (a.spot.weights[0]@, a.spot.weights[1]@);
    lemma_trained_level(x, y, t, 0, 0, w0, w1, none);
    let first = x.trained(t, 0, 0, w0, w1, none).1;
    lemma_trained_level(x, y, first, 0, 1, w1, w0, none);
}

/// Making ready locks nothing where nothing is locked.
proof fn lemma_nothing_locked<S: Single>(ready: Solver<S>, s: Solver<S>)
    requires
        ready.readied(&s),
        s.locks@ == Map::<u32, Vec<S>>::empty(),
    ensures
        ready.locks@ == Map::<u32, Vec<S>>::empty(),
        ready.tables() == s.tables(),
{
    assert(s.locks@.len() == 0);
    assert(ready.held() == s.held());
    assert forall|k: u32| !ready.locks@.contains_key(k) by {
        assert(ready.held().locks.contains_key(k) == ready.locks@.contains_key(k));
        assert(!s.held().locks.contains_key(k));
    }
    assert(ready.locks@ =~= Map::<u32, Vec<S>>::empty());
}

/// Law: suit symmetry is exact. From the same start, with nothing locked, a
/// solver that folds symmetric runouts and one that does not are level after
/// any number of iterations, and exploited alike.
pub proof fn law_symmetry_is_exact<S: Single>(
    start_a: Solver<S>,
    start_b: Solver<S>,
    a: Solver<S>,
    b: Solver<S>,
    n: nat,
    plan: SolvePlan<S::Wide>,
)
    requires
        level_with(start_a, start_b),
        a.wf(),
        b.wf(),
        a.iterated_to(start_a, n, plan),
        b.iterated_to(start_b, n, plan),
    ensures
        level_with(a, b),
        a.exploited() == b.exploited(),
{
    lemma_iterated_level(start_a, start_b, a, b, n, plan);
    law_level_solvers_are_exploited_alike(a, b);
}

proof fn lemma_iterated_level<S: Single>(
    start_a: Solver<S>,
    start_b: Solver<S>,
    a: Solver<S>,
    b: Solver<S>,
    n: nat,
    plan: SolvePlan<S::Wide>,
)
    requires
        level_with(start_a, start_b),
        a.iterated_to(start_a, n, plan),
        b.iterated_to(start_b, n, plan),
    ensures
        level_with(a, b),
    decreases n,
{
    if n > 0 {
        let (mid_a, ready_a) = choose|mid: Solver<S>, ready: Solver<S>|
            {
                &&& mid.iterated_to(start_a, (n - 1) as nat, plan)
                &&& n > 1 ==> !mid.done_by(plan)
                &&& #[trigger] ready.readied(&mid)
                &&& #[trigger] a.follows(ready)
            };
        let (mid_b, ready_b) = choose|mid: Solver<S>, ready: Solver<S>|
            {
                &&& mid.iterated_to(start_b, (n - 1) as nat, plan)
                &&& n > 1 ==> !mid.done_by(plan)
                &&& #[trigger] ready.readied(&mid)
                &&& #[trigger] b.follows(ready)
            };
        lemma_iterated_level(start_a, start_b, mid_a, mid_b, (n - 1) as nat, plan);
        law_iterations_keep_level(mid_a, mid_b, ready_a, ready_b, a, b);
    }
}

} // verus!
