//! What holds of profiles as a whole: locks given by hand survive them, and
//! laying one down again changes nothing.

use crate::cards::Card;
use crate::cfr::Solver;
use crate::locks;
use crate::locks::PROFILE_LABEL;
use crate::num;
use crate::num::{Num, Single};
use crate::profile;
use crate::profile::{Menu, PostflopStats};
use crate::profile_lock;
use crate::profile_lock::{Aim, Laid};
use crate::strategy;
use crate::tree::{KIND_ACTION, KIND_CHANCE};
use vstd::prelude::*;

verus! {

/// Node `k` has the same lock and label in both.
pub open spec fn kept_at<S: Single>(a: Laid<S>, b: Laid<S>, k: u32) -> bool {
    &&& a.locks.contains_key(k) == b.locks.contains_key(k)
    &&& a.labels.contains_key(k) == b.labels.contains_key(k)
    &&& a.locks.contains_key(k) ==> a.locks[k] == b.locks[k]
    &&& a.labels.contains_key(k) ==> a.labels[k] == b.labels[k]
}

/// Node `k` has a lock given by a profile, over none given by hand.
pub open spec fn laid_over<S: Single>(a: Laid<S>, b: Laid<S>, k: u32) -> bool {
    &&& !Solver::manual(a, k as int)
    &&& b.locks.contains_key(k)
    &&& b.labels.contains_key(k)
    &&& locks::by_profile(b.labels[k])
}

/// Whether a player decides at node `k`.
pub open spec fn decides_for<S: Single>(s: Solver<S>, player: int, k: u32) -> bool {
    s.decides(k as int) && s.node(k as int).player == player
}

/// `b` differs from `a` only by locks that a profile gave, at decisions of the
/// villain.
pub open spec fn overlays<S: Single>(
    s: Solver<S>,
    villain: int,
    a: Laid<S>,
    b: Laid<S>,
) -> bool {
    forall|k: u32| #[trigger]
        kept_at(a, b, k) || (laid_over(a, b, k) && decides_for(s, villain, k))
}

proof fn lemma_overlays_self<S: Single>(s: Solver<S>, villain: int, a: Laid<S>)
    ensures
        overlays(s, villain, a, a),
{
}

proof fn lemma_overlays_transitive<S: Single>(
    s: Solver<S>,
    villain: int,
    a: Laid<S>,
    b: Laid<S>,
    c: Laid<S>,
)
    requires
        overlays(s, villain, a, b),
        overlays(s, villain, b, c),
    ensures
        overlays(s, villain, a, c),
{
    assert forall|k: u32| #[trigger]
        kept_at(a, c, k) || (laid_over(a, c, k) && decides_for(s, villain, k)) by {
        assert(kept_at(a, b, k) || (laid_over(a, b, k) && decides_for(s, villain, k)));
        assert(kept_at(b, c, k) || (laid_over(b, c, k) && decides_for(s, villain, k)));
    }
}

/// The name of a profile's lock tells that a profile gave it.
proof fn lemma_lock_name<S: Num>(stats: PostflopStats<S>, st: int, menu: Menu, leads: bool)
    ensures
        locks::by_profile(profile::lock_name(stats, st, menu, leads)),
{
    let p = PROFILE_LABEL@;
    let name = profile::lock_name(stats, st, menu, leads);
    assert(name.take(p.len() as int) =~= p);
}

proof fn lemma_laid_at_overlays<S: Single>(
    s: Solver<S>,
    aim: Aim<S>,
    idx: int,
    reach: Seq<S>,
    aggressor: Option<usize>,
    laid: Laid<S>,
)
    requires
        0 <= idx <= u32::MAX,
        s.decides(idx),
        s.node(idx).player == aim.villain,
    ensures
        overlays(s, aim.villain, laid, s.laid_at(aim, idx, reach, aggressor, laid).0),
{
    let n = s.node(idx);
    let menu = profile::menu_of(s.acts_at(idx), aim.stats.bet_size@ == "max"@);
    let leads = aggressor == Some(aim.villain as usize);
    lemma_lock_name(aim.stats, n.street as int, menu, leads);
    let next = s.laid_at(aim, idx, reach, aggressor, laid).0;
    assert forall|k: u32| #[trigger]
        kept_at(laid, next, k) || (laid_over(laid, next, k) && decides_for(s, aim.villain, k)) by {
        if !Solver::manual(laid, idx) && k == idx as u32 {
            assert(laid_over(laid, next, k));
        }
    }
}

proof fn lemma_below_overlays<S: Single>(
    s: Solver<S>,
    aim: Aim<S>,
    idx: int,
    reach: Seq<S>,
    dealt: Seq<Card>,
    aggressor: Option<usize>,
    laid: Laid<S>,
)
    requires
        s.spot.tree.nodes@.len() <= u32::MAX,
    ensures
        overlays(s, aim.villain, laid, s.laid_below(aim, idx, reach, dealt, aggressor, laid)),
    decreases s.spot.tree.nodes@.len() - idx, 300nat,
{
    let n = s.node(idx);
    if idx < 0 || idx >= s.spot.tree.nodes@.len() || num::total_of(reach).below_spec(aim.eps) {
        lemma_overlays_self(s, aim.villain, laid);
    } else if n.kind == KIND_CHANCE {
        lemma_dealt_overlays(s, aim, idx, reach, dealt, aggressor, laid, 52);
    } else if n.kind == KIND_ACTION {
        let k = n.num_children as nat;
        if n.player == aim.villain {
            let (next, sigma) = s.laid_at(aim, idx, reach, aggressor, laid);
            lemma_laid_at_overlays(s, aim, idx, reach, aggressor, laid);
            lemma_acted_overlays(s, aim, idx, reach, Some(sigma), dealt, aggressor, next, k);
            lemma_overlays_transitive(
                s,
                aim.villain,
                laid,
                next,
                s.laid_acted(aim, idx, reach, Some(sigma), dealt, aggressor, next, k),
            );
        } else {
            lemma_acted_overlays(s, aim, idx, reach, None, dealt, aggressor, laid, k);
        }
    } else {
        lemma_overlays_self(s, aim.villain, laid);
    }
}

proof fn lemma_dealt_overlays<S: Single>(
    s: Solver<S>,
    aim: Aim<S>,
    idx: int,
    reach: Seq<S>,
    dealt: Seq<Card>,
    aggressor: Option<usize>,
    laid: Laid<S>,
    k: nat,
)
    requires
        s.spot.tree.nodes@.len() <= u32::MAX,
    ensures
        overlays(s, aim.villain, laid, s.laid_dealt(aim, idx, reach, dealt, aggressor, laid, k)),
    decreases s.spot.tree.nodes@.len() - idx, k,
{
    if k == 0 {
        lemma_overlays_self(s, aim.villain, laid);
    } else {
        let before = s.laid_dealt(aim, idx, reach, dealt, aggressor, laid, (k - 1) as nat);
        lemma_dealt_overlays(s, aim, idx, reach, dealt, aggressor, laid, (k - 1) as nat);
        let c = k - 1;
        let child = s.child(idx, c);
        if s.stands_for(idx, dealt, c) == Some(c) && idx < child < s.spot.tree.nodes@.len()
            && idx >= 0 {
            let r = s.reach_behind(aim.villain, idx, dealt, reach, c);
            lemma_below_overlays(s, aim, child, r, dealt.push(c as u8), aggressor, before);
            lemma_overlays_transitive(
                s,
                aim.villain,
                laid,
                before,
                s.laid_below(aim, child, r, dealt.push(c as u8), aggressor, before),
            );
        }
    }
}

proof fn lemma_acted_overlays<S: Single>(
    s: Solver<S>,
    aim: Aim<S>,
    idx: int,
    reach: Seq<S>,
    sigma: Option<Seq<S>>,
    dealt: Seq<Card>,
    aggressor: Option<usize>,
    laid: Laid<S>,
    k: nat,
)
    requires
        s.spot.tree.nodes@.len() <= u32::MAX,
    ensures
        overlays(s, aim.villain, laid, s.laid_acted(aim, idx, reach, sigma, dealt, aggressor, laid, k)),
    decreases s.spot.tree.nodes@.len() - idx, k,
{
    if k == 0 {
        lemma_overlays_self(s, aim.villain, laid);
    } else {
        let prev = (k - 1) as nat;
        let before = s.laid_acted(aim, idx, reach, sigma, dealt, aggressor, laid, prev);
        lemma_acted_overlays(s, aim, idx, reach, sigma, dealt, aggressor, laid, prev);
        let child = s.child(idx, k - 1);
        let act = s.action_at(idx, k - 1);
        if idx < child < s.spot.tree.nodes@.len() && idx >= 0 {
            let r = match sigma {
                Some(x) => strategy::reach_through(reach, x, k - 1),
                None => reach,
            };
            let next = if act is Bet || act is Raise {
                Some(s.node(idx).player as usize)
            } else {
                aggressor
            };
            lemma_below_overlays(s, aim, child, r, dealt, next, before);
            lemma_overlays_transitive(
                s,
                aim.villain,
                laid,
                before,
                s.laid_below(aim, child, r, dealt, next, before),
            );
        }
    }
}

/// Law: locks given by hand take precedence over a profile and are left
/// untouched by it.
pub proof fn law_profile_keeps_manual_locks<S: Single>(
    s: Solver<S>,
    villain: int,
    stats: PostflopStats<S>,
    pf_aggressor: Option<usize>,
    k: u32,
)
    requires
        s.wf(),
        s.lock_labels@.contains_key(k),
        !locks::by_profile(s.lock_labels@[k]@),
        s.locks@.contains_key(k),
    ensures
        ({
            let laid = s.laid_all(villain, stats, pf_aggressor);
            &&& laid.locks.contains_key(k)
            &&& laid.locks[k] == s.locks@[k]@
            &&& laid.labels.contains_key(k)
            &&& laid.labels[k] == s.lock_labels@[k]@
        }),
{
    let first = s.laid_first();
    let reach = s.spot.weights[villain]@;
    let eps = num::total_of(reach).times_spec(S::decimal_spec(1, 6));
    let laid = s.laid_all(villain, stats, pf_aggressor);
    lemma_below_overlays(
        s,
        Aim { villain, stats, eps },
        0,
        reach,
        Seq::empty(),
        pf_aggressor,
        first,
    );
    assert(Solver::manual(first, k as int));
    assert(kept_at(first, laid, k) || laid_over(first, laid, k));
}

/// Law: the locks that a profile gives are at decisions of the player whom it
/// is laid over.
pub proof fn law_profile_locks_only_the_villain<S: Single>(
    s: Solver<S>,
    villain: int,
    stats: PostflopStats<S>,
    pf_aggressor: Option<usize>,
    k: u32,
)
    requires
        s.wf(),
        s.laid_all(villain, stats, pf_aggressor).labels.contains_key(k),
        locks::by_profile(s.laid_all(villain, stats, pf_aggressor).labels[k]),
    ensures
        decides_for(s, villain, k),
{
    let first = s.laid_first();
    let reach = s.spot.weights[villain]@;
    let eps = num::total_of(reach).times_spec(S::decimal_spec(1, 6));
    let laid = s.laid_all(villain, stats, pf_aggressor);
    lemma_below_overlays(
        s,
        Aim { villain, stats, eps },
        0,
        reach,
        Seq::empty(),
        pf_aggressor,
        first,
    );
    assert(kept_at(first, laid, k) || (laid_over(first, laid, k) && decides_for(s, villain, k)));
    if first.labels.contains_key(k) {
        assert(s.lock_labels@.contains_key(k));
        assert(!locks::by_profile(first.labels[k]));
    }
}

/// Two states that differ at most in the symmetry mark.
pub open spec fn alike<S: Single>(a: Laid<S>, b: Laid<S>) -> bool {
    a.locks == b.locks && a.labels == b.labels && a.acc == b.acc
}

/// Two solvers that differ at most in their locks, labels and marks.
pub open spec fn same_ground<S: Single>(s: Solver<S>, t: Solver<S>) -> bool {
    t.same_but_locks(&s)
}

/// Two states that agree wherever a lock was given by hand, and in what has
/// been counted.
pub open spec fn paired<S: Single>(a: Laid<S>, b: Laid<S>) -> bool {
    &&& a.acc == b.acc
    &&& forall|k: u32| #[trigger]
        kept_at(a, b, k) || (!Solver::manual(a, k as int) && !Solver::manual(b, k as int))
    &&& forall|k: u32| Solver::manual(a, k as int) ==> #[trigger] a.locks.contains_key(k)
}

/// Whether two states have gone on alike: what agreed still does, and where
/// they do not agree nothing has happened.
pub open spec fn stepped<S: Single>(a: Laid<S>, b: Laid<S>, a2: Laid<S>, b2: Laid<S>) -> bool {
    &&& paired(a2, b2)
    &&& forall|k: u32| kept_at(a, b, k) ==> #[trigger] kept_at(a2, b2, k)
    &&& forall|k: u32| #[trigger]
        kept_at(a2, b2, k) || (kept_at(a, a2, k) && kept_at(b, b2, k))
}

proof fn lemma_not_stepped<S: Single>(a: Laid<S>, b: Laid<S>)
    requires
        paired(a, b),
    ensures
        stepped(a, b, a, b),
{
}

proof fn lemma_stepped_twice<S: Single>(
    a: Laid<S>,
    b: Laid<S>,
    a2: Laid<S>,
    b2: Laid<S>,
    a3: Laid<S>,
    b3: Laid<S>,
)
    requires
        stepped(a, b, a2, b2),
        stepped(a2, b2, a3, b3),
    ensures
        stepped(a, b, a3, b3),
{
    assert forall|k: u32| kept_at(a, b, k) implies #[trigger] kept_at(a3, b3, k) by {
        assert(kept_at(a2, b2, k));
    }
    assert forall|k: u32| #[trigger]
        kept_at(a3, b3, k) || (kept_at(a, a3, k) && kept_at(b, b3, k)) by {
        assert(kept_at(a2, b2, k) || (kept_at(a, a2, k) && kept_at(b, b2, k)));
    }
}

proof fn lemma_laid_at_stepped<S: Single>(
    s: Solver<S>,
    t: Solver<S>,
    aim: Aim<S>,
    idx: int,
    reach: Seq<S>,
    aggressor: Option<usize>,
    a: Laid<S>,
    b: Laid<S>,
)
    requires
        same_ground(s, t),
        paired(a, b),
        0 <= idx <= u32::MAX,
    ensures
        stepped(
            a,
            b,
            s.laid_at(aim, idx, reach, aggressor, a).0,
            t.laid_at(aim, idx, reach, aggressor, b).0,
        ),
        s.laid_at(aim, idx, reach, aggressor, a).1 == t.laid_at(aim, idx, reach, aggressor, b).1,
{
    let at = idx as u32;
    let (x, sigma) = s.laid_at(aim, idx, reach, aggressor, a);
    let (y, tau) = t.laid_at(aim, idx, reach, aggressor, b);
    assert(s.acts_at(idx) =~= t.acts_at(idx));
    assert(s.solved(idx) == t.solved(idx));
    assert(kept_at(a, b, at) || (!Solver::manual(a, idx) && !Solver::manual(b, idx)));
    if Solver::manual(a, idx) {
        assert(a.locks.contains_key(at));
    } else {
        assert forall|k: u32| #[trigger]
            kept_at(x, y, k) || (!Solver::manual(x, k as int) && !Solver::manual(y, k as int)) by {
            if k != at {
                assert(kept_at(a, b, k) || (!Solver::manual(a, k as int) && !Solver::manual(
                    b,
                    k as int,
                )));
            }
        }
        assert forall|k: u32| Solver::manual(x, k as int) implies #[trigger] x.locks.contains_key(
            k,
        ) by {
            if k != at {
                assert(Solver::manual(a, k as int));
                assert(a.locks.contains_key(k));
            }
        }
        assert forall|k: u32| kept_at(a, b, k) implies #[trigger] kept_at(x, y, k) by {}
        assert forall|k: u32| #[trigger]
            kept_at(x, y, k) || (kept_at(a, x, k) && kept_at(b, y, k)) by {}
    }
}

proof fn lemma_below_alike<S: Single>(
    s: Solver<S>,
    t: Solver<S>,
    aim: Aim<S>,
    idx: int,
    reach: Seq<S>,
    dealt: Seq<Card>,
    aggressor: Option<usize>,
    a: Laid<S>,
    b: Laid<S>,
)
    requires
        same_ground(s, t),
        paired(a, b),
        s.spot.tree.nodes@.len() <= u32::MAX,
    ensures
        stepped(
            a,
            b,
            s.laid_below(aim, idx, reach, dealt, aggressor, a),
            t.laid_below(aim, idx, reach, dealt, aggressor, b),
        ),
    decreases s.spot.tree.nodes@.len() - idx, 300nat,
{
    let n = s.node(idx);
    lemma_not_stepped(a, b);
    if idx < 0 || idx >= s.spot.tree.nodes@.len() || num::total_of(reach).below_spec(aim.eps) {
    } else if n.kind == KIND_CHANCE {
        lemma_dealt_alike(s, t, aim, idx, reach, dealt, aggressor, a, b, 52);
    } else if n.kind == KIND_ACTION {
        let k = n.num_children as nat;
        if n.player == aim.villain {
            let (x, sigma) = s.laid_at(aim, idx, reach, aggressor, a);
            let (y, tau) = t.laid_at(aim, idx, reach, aggressor, b);
            lemma_laid_at_stepped(s, t, aim, idx, reach, aggressor, a, b);
            lemma_acted_alike(s, t, aim, idx, reach, Some(sigma), dealt, aggressor, x, y, k);
            lemma_stepped_twice(
                a,
                b,
                x,
                y,
                s.laid_acted(aim, idx, reach, Some(sigma), dealt, aggressor, x, k),
                t.laid_acted(aim, idx, reach, Some(sigma), dealt, aggressor, y, k),
            );
        } else {
            lemma_acted_alike(s, t, aim, idx, reach, None, dealt, aggressor, a, b, k);
        }
    }
}

proof fn lemma_orbit_alike<S: Single>(
    s: Solver<S>,
    t: Solver<S>,
    idx: int,
    dealt: Seq<Card>,
    c: int,
    k: int,
)
    requires
        same_ground(s, t),
    ensures
        s.orbit(idx, dealt, c, k) == t.orbit(idx, dealt, c, k),
    decreases k,
{
    if k > 0 {
        lemma_orbit_alike(s, t, idx, dealt, c, k - 1);
        assert(s.stands_for(idx, dealt, k - 1) == t.stands_for(idx, dealt, k - 1));
    }
}

proof fn lemma_dealt_alike<S: Single>(
    s: Solver<S>,
    t: Solver<S>,
    aim: Aim<S>,
    idx: int,
    reach: Seq<S>,
    dealt: Seq<Card>,
    aggressor: Option<usize>,
    a: Laid<S>,
    b: Laid<S>,
    k: nat,
)
    requires
        same_ground(s, t),
        paired(a, b),
        s.spot.tree.nodes@.len() <= u32::MAX,
    ensures
        stepped(
            a,
            b,
            s.laid_dealt(aim, idx, reach, dealt, aggressor, a, k),
            t.laid_dealt(aim, idx, reach, dealt, aggressor, b, k),
        ),
    decreases s.spot.tree.nodes@.len() - idx, k,
{
    if k > 0 {
        let prev = (k - 1) as nat;
        lemma_dealt_alike(s, t, aim, idx, reach, dealt, aggressor, a, b, prev);
        let x = s.laid_dealt(aim, idx, reach, dealt, aggressor, a, prev);
        let y = t.laid_dealt(aim, idx, reach, dealt, aggressor, b, prev);
        let c = k - 1;
        let child = s.child(idx, c);
        assert(s.stands_for(idx, dealt, c) == t.stands_for(idx, dealt, c));
        assert(t.child(idx, c) == child);
        if s.stands_for(idx, dealt, c) == Some(c) && idx < child < s.spot.tree.nodes@.len()
            && idx >= 0 {
            let r = s.reach_behind(aim.villain, idx, dealt, reach, c);
            lemma_orbit_alike(s, t, idx, dealt, c, 52);
            assert(r =~= t.reach_behind(aim.villain, idx, dealt, reach, c));
            let deeper = dealt.push(c as u8);
            lemma_below_alike(s, t, aim, child, r, deeper, aggressor, x, y);
            lemma_stepped_twice(
                a,
                b,
                x,
                y,
                s.laid_below(aim, child, r, deeper, aggressor, x),
                t.laid_below(aim, child, r, deeper, aggressor, y),
            );
        }
    } else {
        lemma_not_stepped(a, b);
    }
}

proof fn lemma_acted_alike<S: Single>(
    s: Solver<S>,
    t: Solver<S>,
    aim: Aim<S>,
    idx: int,
    reach: Seq<S>,
    sigma: Option<Seq<S>>,
    dealt: Seq<Card>,
    aggressor: Option<usize>,
    a: Laid<S>,
    b: Laid<S>,
    k: nat,
)
    requires
        same_ground(s, t),
        paired(a, b),
        s.spot.tree.nodes@.len() <= u32::MAX,
    ensures
        stepped(
            a,
            b,
            s.laid_acted(aim, idx, reach, sigma, dealt, aggressor, a, k),
            t.laid_acted(aim, idx, reach, sigma, dealt, aggressor, b, k),
        ),
    decreases s.spot.tree.nodes@.len() - idx, k,
{
    if k > 0 {
        let prev = (k - 1) as nat;
        lemma_acted_alike(s, t, aim, idx, reach, sigma, dealt, aggressor, a, b, prev);
        let x = s.laid_acted(aim, idx, reach, sigma, dealt, aggressor, a, prev);
        let y = t.laid_acted(aim, idx, reach, sigma, dealt, aggressor, b, prev);
        let child = s.child(idx, k - 1);
        assert(t.child(idx, k - 1) == child);
        let act = s.action_at(idx, k - 1);
        assert(t.action_at(idx, k - 1) == act);
        if idx < child < s.spot.tree.nodes@.len() && idx >= 0 {
            let r = match sigma {
                Some(x) => strategy::reach_through(reach, x, k - 1),
                None => reach,
            };
            let next = if act is Bet || act is Raise {
                Some(s.node(idx).player as usize)
            } else {
                aggressor
            };
            lemma_below_alike(s, t, aim, child, r, dealt, next, x, y);
            lemma_stepped_twice(
                a,
                b,
                x,
                y,
                s.laid_below(aim, child, r, dealt, next, x),
                t.laid_below(aim, child, r, dealt, next, y),
            );
        }
    } else {
        lemma_not_stepped(a, b);
    }
}

/// Law: a profile never compounds. Laying it down a second time leads to the
/// same locks, labels and readback as the first time.
pub proof fn law_profile_does_not_compound<S: Single>(
    before: Solver<S>,
    after: Solver<S>,
    villain: int,
    stats: PostflopStats<S>,
    pf_aggressor: Option<usize>,
)
    requires
        before.wf(),
        before.labels_backed(),
        after.same_but_locks(&before),
        after.holds_laid(
            before.laid_all(villain, stats, pf_aggressor),
            before.laid_all(villain, stats, pf_aggressor).acc,
        ),
    ensures
        alike(
            before.laid_all(villain, stats, pf_aggressor),
            after.laid_all(villain, stats, pf_aggressor),
        ),
{
    let first = before.laid_first();
    let again = after.laid_first();
    let laid = before.laid_all(villain, stats, pf_aggressor);
    let relaid = after.laid_all(villain, stats, pf_aggressor);
    let reach = before.spot.weights[villain]@;
    let eps = num::total_of(reach).times_spec(S::decimal_spec(1, 6));
    let aim = Aim { villain, stats, eps };
    lemma_below_overlays(before, aim, 0, reach, Seq::empty(), pf_aggressor, first);
    assert forall|k: u32| #[trigger]
        kept_at(first, again, k) || (!Solver::manual(first, k as int) && !Solver::manual(
            again,
            k as int,
        )) by {
        lemma_laid_again(before, after, laid, k);
        assert(kept_at(first, laid, k) || laid_over(first, laid, k));
    }
    assert forall|k: u32| Solver::manual(first, k as int) implies #[trigger]
        first.locks.contains_key(k) by {
        assert(before.lock_labels@.contains_key(k));
        assert(!locks::by_profile(before.lock_labels@[k]@));
        assert(before.locks@.contains_key(k));
    }
    lemma_below_alike(
        before,
        after,
        aim,
        0,
        reach,
        Seq::empty(),
        pf_aggressor,
        first,
        again,
    );
    assert forall|k: u32| #[trigger] kept_at(laid, relaid, k) by {
        lemma_laid_again(before, after, laid, k);
        assert(kept_at(laid, relaid, k) || (kept_at(first, laid, k) && kept_at(again, relaid, k)));
    }
    assert(laid.locks =~= relaid.locks) by {
        assert forall|k: u32| laid.locks.contains_key(k) == relaid.locks.contains_key(k) by {
            assert(kept_at(laid, relaid, k));
        }
        assert forall|k: u32| laid.locks.contains_key(k) implies laid.locks[k]
            == relaid.locks[k] by {
            assert(kept_at(laid, relaid, k));
        }
    }
    assert(laid.labels =~= relaid.labels) by {
        assert forall|k: u32| laid.labels.contains_key(k) == relaid.labels.contains_key(k) by {
            assert(kept_at(laid, relaid, k));
        }
        assert forall|k: u32| laid.labels.contains_key(k) implies laid.labels[k]
            == relaid.labels[k] by {
            assert(kept_at(laid, relaid, k));
        }
    }
}

/// What a second laying starts from: what stands, without what a profile gave.
proof fn lemma_laid_again<S: Single>(
    before: Solver<S>,
    after: Solver<S>,
    laid: Laid<S>,
    k: u32,
)
    requires
        after.holds_laid(laid, laid.acc),
    ensures
        kept_at(before.laid_first(), laid, k) ==> kept_at(laid, after.laid_first(), k),
        laid_over(before.laid_first(), laid, k) ==> !Solver::manual(after.laid_first(), k as int),
{
    let first = before.laid_first();
    let again = after.laid_first();
    assert(profile_lock::sigmas(after.locks@) == laid.locks);
    assert(profile_lock::names(after.lock_labels@) == laid.labels);
    assert(laid.locks.contains_key(k) == after.locks@.contains_key(k));
    assert(laid.labels.contains_key(k) == after.lock_labels@.contains_key(k));
    if after.locks@.contains_key(k) {
        assert(laid.locks[k] == after.locks@[k]@);
    }
    if after.lock_labels@.contains_key(k) {
        assert(laid.labels[k] == after.lock_labels@[k]@);
    }
    if first.labels.contains_key(k) {
        assert(before.lock_labels@.contains_key(k));
        assert(!locks::by_profile(first.labels[k]));
    }
}

} // verus!
