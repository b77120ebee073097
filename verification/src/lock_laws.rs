//! What holds of locks as a whole: they are played, they do not compound, and
//! unlocking takes them back.

use crate::cards;
use crate::cfr::Solver;
use crate::locks;
use crate::locks::LockMode;
use crate::num::Single;
use crate::path::Step;
use vstd::prelude::*;

verus! {

/// `after` is `before` with the lock of node `k` put there or replaced.
pub open spec fn relocked<S: Single>(before: Solver<S>, after: Solver<S>, k: u32) -> bool {
    &&& after.same_but_locks(&before)
    &&& forall|j: u32|
        j != k ==> (#[trigger] after.locks@.contains_key(j) <==> before.locks@.contains_key(j))
    &&& forall|j: u32|
        j != k && before.locks@.contains_key(j) ==> #[trigger] after.locks@[j]
            == before.locks@[j]
}

/// Law: a lock is what is played at its node from then on, and every other
/// decision is played as before.
pub proof fn law_lock_is_played<S: Single>(
    before: Solver<S>,
    after: Solver<S>,
    k: u32,
    sigma: Seq<S>,
    other: u32,
)
    requires
        after.same_but_locks(&before),
        locks::entry_put(before.locks@, after.locks@, k, sigma),
        other != k,
    ensures
        after.played(k as int) == sigma,
        after.played(other as int) == before.played(other as int),
{
}

/// Nodes come in growing order along a path.
proof fn lemma_path_grows<S: Single>(s: Solver<S>, way: Seq<Step>, i: int)
    requires
        s.wf(),
        s.walked(way) is Ok,
        0 <= i < way.len(),
    ensures
        s.walked(way.take(i)) is Ok,
        s.walked(way.take(i))->Ok_0.idx < s.walked(way)->Ok_0.idx,
    decreases way.len(),
{
    let rest = way.drop_last();
    s.lemma_walked(rest);
    let at = s.walked(rest)->Ok_0;
    match way.last() {
        Step::Action { index } => {
            s.lemma_decision(at.idx);
            let c = s.child(at.idx, index as int);
            assert(at.idx < c);
        },
        Step::Card { text } => {
            let c = cards::text_card(text)->Ok_0;
            s.lemma_deal(at.idx, at.dealt, c as int);
        },
    }
    if i < rest.len() {
        lemma_path_grows(s, rest, i);
        assert(rest.take(i) =~= way.take(i));
    } else {
        assert(way.take(i) =~= rest);
    }
}

/// A path does not notice a lock on the node that it leads to.
proof fn lemma_walk_past_lock<S: Single>(
    before: Solver<S>,
    after: Solver<S>,
    k: u32,
    way: Seq<Step>,
    i: int,
)
    requires
        before.wf(),
        relocked(before, after, k),
        before.walked(way) is Ok,
        before.walked(way)->Ok_0.idx == k,
        0 <= i <= way.len(),
    ensures
        after.walked(way.take(i)) == before.walked(way.take(i)),
    decreases i,
{
    if i == 0 {
        assert(way.take(0) =~= Seq::<Step>::empty());
    } else {
        lemma_walk_past_lock(before, after, k, way, i - 1);
        let prefix = way.take(i);
        assert(prefix.drop_last() =~= way.take(i - 1));
        lemma_path_grows(before, way, i - 1);
        let at = before.walked(way.take(i - 1))->Ok_0;
        before.lemma_walked(way.take(i - 1));
        assert(at.idx < k);
        assert(after.played(at.idx) == before.played(at.idx)) by {
            let j = at.idx as u32;
            assert(j != k);
            assert(after.locks@.contains_key(j) <==> before.locks@.contains_key(j));
        }
        assert(after.stepped(at, prefix.last()) == before.stepped(at, prefix.last()));
    }
}

/// Law: re-applying a lock never compounds. Once a node is locked, freezing it
/// or targeting frequencies there asks for the same strategy as before.
pub proof fn law_lock_does_not_compound<S: Single>(
    before: Solver<S>,
    after: Solver<S>,
    way: Seq<Step>,
    mode: LockMode<S>,
)
    requires
        before.wf(),
        before.walked(before.visited(way)) is Ok,
        relocked(before, after, before.walked(before.visited(way))->Ok_0.idx as u32),
        mode is Freeze || mode is Range,
    ensures
        after.lock_placed(way, mode) == before.lock_placed(way, mode),
{
    let canon = before.visited(way);
    let at = before.walked(canon)->Ok_0;
    before.lemma_walked(canon);
    assert(after.visited(way) == canon);
    lemma_walk_past_lock(before, after, at.idx as u32, canon, canon.len() as int);
    assert(canon.take(canon.len() as int) =~= canon);
    assert(after.solved(at.idx) == before.solved(at.idx));
}

/// Law: unlocking undoes a lock. Where a node had neither lock nor label, what
/// was locked along a path is found again along it, and taking it back leaves
/// the locks and labels that there were; there is then nothing more to take
/// back.
pub proof fn law_unlock_undoes_lock<S: Single>(
    before: Solver<S>,
    mid: Solver<S>,
    after: Solver<S>,
    way: Seq<Step>,
    mode: LockMode<S>,
    label: String,
)
    requires
        before.wf(),
        before.lock_placed(way, mode) is Ok,
        ({
            let (idx, sigma) = before.lock_placed(way, mode)->Ok_0;
            let k = idx as u32;
            &&& !before.locks@.contains_key(k)
            &&& !before.lock_labels@.contains_key(k)
            &&& mid.same_but_locks(&before)
            &&& locks::entry_put(before.locks@, mid.locks@, k, sigma)
            &&& mid.lock_labels@ == before.lock_labels@.insert(k, label)
        }),
        ({
            let k = mid.walked(mid.visited(way))->Ok_0.idx as u32;
            &&& after.same_but_locks(&mid)
            &&& after.locks@ == mid.locks@.remove(k)
            &&& after.lock_labels@ == mid.lock_labels@.remove(k)
        }),
    ensures
        mid.walked(mid.visited(way)) is Ok,
        mid.locks@.contains_key(mid.walked(mid.visited(way))->Ok_0.idx as u32),
        after.locks@ == before.locks@,
        after.lock_labels@ == before.lock_labels@,
        !after.locks@.contains_key(mid.walked(mid.visited(way))->Ok_0.idx as u32),
{
    let canon = before.visited(way);
    let at = before.walked(canon)->Ok_0;
    let k = at.idx as u32;
    before.lemma_walked(canon);
    assert(mid.visited(way) == canon);
    lemma_walk_past_lock(before, mid, k, canon, canon.len() as int);
    assert(canon.take(canon.len() as int) =~= canon);
    assert(after.locks@ =~= before.locks@);
    assert(after.lock_labels@ =~= before.lock_labels@);
}

} // verus!
