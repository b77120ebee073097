//! What seats expect before the flop, in exact numbers: what their actions lead
//! to, as often as they take them, and all that the other seats may do.

use crate::nano;
use crate::nano::{Nano, BILLION};
use crate::num;
use crate::num::Num;
use crate::preflop_build;
use crate::preflop_solver;
use crate::preflop_solver::Field;
use crate::preflop_tree;
use crate::preflop_tree::KIND_ACTION;
use crate::strategy;
use crate::weigh_laws;
use crate::weigh_laws::size;
use vstd::prelude::*;

verus! {

// ---------------------------------------------------------------------------
// Expectations
// ---------------------------------------------------------------------------

/// What class `h` of seat `p` expects behind action `a` of a node.
pub open spec fn expects_after(
    f: Field<Nano>,
    strat: Seq<Nano>,
    i: int,
    a: int,
    p: int,
    best: bool,
    reaches: Seq<Seq<Nano>>,
    h: int,
) -> int {
    let actor = f.tree.nodes[i].actor as int;
    f.worth(
        strat,
        f.child(i, a),
        p,
        best,
        preflop_solver::acted(reaches, actor, f.plays(strat, i), a),
    )[h].count as int
}

proof fn lemma_below(
    f: Field<Nano>,
    strat: Seq<Nano>,
    i: int,
    p: int,
    best: bool,
    reaches: Seq<Seq<Nano>>,
    k: nat,
)
    requires
        f.wf(),
        0 <= i < f.tree.nodes.len(),
        f.tree.nodes[i].kind == KIND_ACTION,
        k <= f.tree.nodes[i].actions.len(),
    ensures
        f.worth_below(strat, i, p, best, reaches, k).len() == k,
        forall|a: int, h: int|
            0 <= a < k ==> (#[trigger] f.worth_below(strat, i, p, best, reaches, k)[a][h]).count
                == expects_after(f, strat, i, a, p, best, reaches, h),
    decreases k,
{
    assert(preflop_build::knot_sound(f.n(), f.tree, i));
    if k > 0 {
        lemma_below(f, strat, i, p, best, reaches, (k - 1) as nat);
        let c = f.child(i, k - 1);
        assert(i < c < f.tree.nodes.len());
    }
}

/// What a class expects of the first `k` actions of a node, all together.
pub open spec fn expects_all(
    f: Field<Nano>,
    strat: Seq<Nano>,
    i: int,
    p: int,
    best: bool,
    reaches: Seq<Seq<Nano>>,
    h: int,
    k: int,
) -> int
    decreases k,
{
    if k <= 0 {
        0
    } else {
        expects_all(f, strat, i, p, best, reaches, h, k - 1) + expects_after(
            f,
            strat,
            i,
            k - 1,
            p,
            best,
            reaches,
            h,
        )
    }
}

/// What a class expects of the first `k` actions of a node, each as often as the
/// class takes it.
pub open spec fn expects_mixed(
    f: Field<Nano>,
    strat: Seq<Nano>,
    i: int,
    p: int,
    reaches: Seq<Seq<Nano>>,
    h: int,
    k: int,
) -> int
    decreases k,
{
    if k <= 0 {
        0
    } else {
        expects_mixed(f, strat, i, p, reaches, h, k - 1) + f.plays(strat, i)[strategy::cell(
            169,
            k - 1,
            h,
        )].count * expects_after(f, strat, i, k - 1, p, false, reaches, h)
    }
}

/// Whether what a class expects of each action is no more than `most`.
pub open spec fn modest(
    f: Field<Nano>,
    strat: Seq<Nano>,
    i: int,
    p: int,
    best: bool,
    reaches: Seq<Seq<Nano>>,
    h: int,
    most: int,
) -> bool {
    let na = f.tree.nodes[i].actions.len() as int;
    &&& 0 <= most
    &&& na * most <= i64::MAX
    &&& forall|a: int|
        0 <= a < na ==> size(#[trigger] expects_after(f, strat, i, a, p, best, reaches, h)) <= most
}

proof fn lemma_pooled(
    f: Field<Nano>,
    strat: Seq<Nano>,
    i: int,
    p: int,
    best: bool,
    reaches: Seq<Seq<Nano>>,
    h: int,
    most: int,
    s: Seq<Nano>,
    k: int,
)
    requires
        modest(f, strat, i, p, best, reaches, h, most),
        s.len() == f.tree.nodes[i].actions.len(),
        forall|a: int|
            0 <= a < s.len() ==> (#[trigger] s[a]).count == expects_after(
                f,
                strat,
                i,
                a,
                p,
                best,
                reaches,
                h,
            ),
        0 <= k <= s.len(),
    ensures
        num::total_of(s.take(k)).count == expects_all(f, strat, i, p, best, reaches, h, k),
        size(expects_all(f, strat, i, p, best, reaches, h, k)) <= k * most,
    decreases k,
{
    assert(nano::ten_to(0) == 1);
    if k > 0 {
        lemma_pooled(f, strat, i, p, best, reaches, h, most, s, k - 1);
        assert(s.take(k).drop_last() =~= s.take(k - 1));
        assert(s.take(k).last() == s[k - 1]);
        assert(size(expects_after(f, strat, i, k - 1, p, best, reaches, h)) <= most);
        let na = s.len() as int;
        assert(k * most == (k - 1) * most + most && k * most <= na * most) by (nonlinear_arith)
            requires
                k <= na,
                0 <= most,
        ;
    } else {
        assert(s.take(0).len() == 0);
        assert(0 * most == 0);
    }
}

/// Law: where another seat acts, a class expects all that it expects behind that
/// seat's actions, the other seat arriving there as often as it takes them.
pub proof fn law_other_seats_actions_add_up(
    f: Field<Nano>,
    strat: Seq<Nano>,
    i: int,
    p: int,
    best: bool,
    reaches: Seq<Seq<Nano>>,
    h: int,
    most: int,
)
    requires
        f.wf(),
        0 <= i < f.tree.nodes.len(),
        0 <= h < 169,
        f.tree.nodes[i].kind == KIND_ACTION,
        f.tree.nodes[i].actor != p,
        modest(f, strat, i, p, best, reaches, h, most),
    ensures
        f.worth(strat, i, p, best, reaches)[h].count == expects_all(
            f,
            strat,
            i,
            p,
            best,
            reaches,
            h,
            f.tree.nodes[i].actions.len() as int,
        ),
{
    let na = f.tree.nodes[i].actions.len();
    lemma_below(f, strat, i, p, best, reaches, na);
    let vals = f.worth_below(strat, i, p, best, reaches, na);
    let s = strategy::slice_at(vals, h);
    assert forall|a: int| 0 <= a < s.len() implies (#[trigger] s[a]).count == expects_after(
        f,
        strat,
        i,
        a,
        p,
        best,
        reaches,
        h,
    ) by {
        assert(s[a] == vals[a][h]);
    }
    lemma_pooled(f, strat, i, p, best, reaches, h, most, s, na as int);
    assert(s.take(na as int) =~= s);
}

proof fn lemma_mixed(
    f: Field<Nano>,
    strat: Seq<Nano>,
    i: int,
    p: int,
    reaches: Seq<Seq<Nano>>,
    h: int,
    most: int,
    vals: Seq<Seq<Nano>>,
    k: int,
)
    requires
        modest(f, strat, i, p, false, reaches, h, most),
        vals.len() == f.tree.nodes[i].actions.len(),
        0 <= h < 169,
        forall|a: int|
            0 <= a < vals.len() ==> 0 <= (#[trigger] f.plays(strat, i)[strategy::cell(
                169,
                a,
                h,
            )]).count <= BILLION,
        forall|a: int|
            0 <= a < vals.len() ==> (#[trigger] vals[a])[h].count == expects_after(
                f,
                strat,
                i,
                a,
                p,
                false,
                reaches,
                h,
            ),
        0 <= k <= vals.len(),
    ensures
        ({
            let s = strategy::mix_terms(f.plays(strat, i), vals, 169, h);
            let t = num::total_of(s.take(k)).count as int;
            &&& size(t) <= k * most
            &&& size(BILLION * t - expects_mixed(f, strat, i, p, reaches, h, k)) <= k * BILLION
        }),
    decreases k,
{
    let b = BILLION as int;
    let s = strategy::mix_terms(f.plays(strat, i), vals, 169, h);
    assert(nano::ten_to(0) == 1);
    if k > 0 {
        lemma_mixed(f, strat, i, p, reaches, h, most, vals, k - 1);
        assert(s.take(k).drop_last() =~= s.take(k - 1));
        assert(s.take(k).last() == s[k - 1]);
        let share = f.plays(strat, i)[strategy::cell(169, k - 1, h)];
        let v = vals[k - 1][h];
        assert(size(expects_after(f, strat, i, k - 1, p, false, reaches, h)) <= most);
        let (x, y) = (share.count as int, v.count as int);
        let z = x * y;
        assert(size(z) <= b * most) by (nonlinear_arith)
            requires
                z == x * y,
                0 <= x <= b,
                -most <= y <= most,
                size(z) == z || size(z) == -z,
        ;
        let na = s.len() as int;
        assert(k * most == (k - 1) * most + most && k * most <= na * most) by (nonlinear_arith)
            requires
                k <= na,
                0 <= most,
        ;
        assert(most <= na * most) by (nonlinear_arith)
            requires
                1 <= na,
                0 <= most,
        ;
        weigh_laws::lemma_times_near(share, v, most);
        weigh_laws::lemma_cut_near(z, b);
        let st = size(s[k - 1].count as int);
        assert(st <= most) by (nonlinear_arith)
            requires
                b * st <= b * most,
                0 < b,
        ;
    } else {
        assert(s.take(0).len() == 0);
        assert(0 * most == 0);
    }
}

/// Law: where a seat acts as it plays, a class expects what it expects behind its
/// actions, each as often as the class takes it, up to rounding.
pub proof fn law_seats_expect_what_they_mix(
    f: Field<Nano>,
    strat: Seq<Nano>,
    i: int,
    p: int,
    reaches: Seq<Seq<Nano>>,
    h: int,
    most: int,
)
    requires
        f.wf(),
        0 <= i < f.tree.nodes.len(),
        0 <= h < 169,
        f.tree.nodes[i].kind == KIND_ACTION,
        f.tree.nodes[i].actor == p,
        modest(f, strat, i, p, false, reaches, h, most),
        forall|a: int|
            0 <= a < f.tree.nodes[i].actions.len() ==> 0 <= (#[trigger] f.plays(
                strat,
                i,
            )[strategy::cell(169, a, h)]).count <= BILLION,
    ensures
        ({
            let na = f.tree.nodes[i].actions.len() as int;
            size(
                BILLION * f.worth(strat, i, p, false, reaches)[h].count - expects_mixed(
                    f,
                    strat,
                    i,
                    p,
                    reaches,
                    h,
                    na,
                ),
            ) <= na * BILLION
        }),
{
    let na = f.tree.nodes[i].actions.len();
    lemma_below(f, strat, i, p, false, reaches, na);
    let vals = f.worth_below(strat, i, p, false, reaches, na);
    let s = strategy::mix_terms(f.plays(strat, i), vals, 169, h);
    assert forall|a: int| 0 <= a < vals.len() implies (#[trigger] vals[a])[h].count
        == expects_after(f, strat, i, a, p, false, reaches, h) by {
        assert(vals[a][h].count == expects_after(f, strat, i, a, p, false, reaches, h));
    }
    lemma_mixed(f, strat, i, p, reaches, h, most, vals, na as int);
    assert(s.take(na as int) =~= s);
}

// ---------------------------------------------------------------------------
// The order of play
// ---------------------------------------------------------------------------

/// Whether a seat acts before another after the flop: posting seats before the
/// others and by what they post, the others by seat; level posts by seat.
pub open spec fn acts_before(posts: Seq<Nano>, a: int, b: int) -> bool {
    if posts[a].count > 0 && posts[b].count > 0 {
        posts[a].count < posts[b].count || posts[a].count == posts[b].count && a < b
    } else if posts[a].count > 0 {
        true
    } else {
        posts[b].count <= 0 && a < b
    }
}

/// Whether a list of posting seats below `k` is in order.
spec fn in_order(posts: Seq<Nano>, list: Seq<usize>, k: int) -> bool {
    &&& forall|x: int| 0 <= x < list.len() ==> #[trigger] list[x] < k && posts[list[x] as int].count
        > 0
    &&& forall|x: int, y: int|
        0 <= x < y < list.len() ==> acts_before(
            posts,
            #[trigger] list[x] as int,
            #[trigger] list[y] as int,
        )
}

proof fn lemma_put_in(posts: Seq<Nano>, list: Seq<usize>, seat: usize)
    requires
        in_order(posts, list, seat as int),
        posts[seat as int].count > 0,
    ensures
        in_order(posts, preflop_tree::placed(posts, list, seat), seat + 1),
        forall|x: int|
            0 <= x < preflop_tree::placed(posts, list, seat).len() ==> list.contains(
                #[trigger] preflop_tree::placed(posts, list, seat)[x],
            ) || preflop_tree::placed(posts, list, seat)[x] == seat,
    decreases list.len(),
{
    let out = preflop_tree::placed(posts, list, seat);
    if list.len() > 0 && posts[seat as int].below_spec(posts[list.last() as int]) {
        let rest = list.drop_last();
        assert forall|x: int| 0 <= x < rest.len() implies #[trigger] rest[x] < seat
            && posts[rest[x] as int].count > 0 by {
            assert(rest[x] == list[x]);
        }
        assert forall|x: int, y: int| 0 <= x < y < rest.len() implies acts_before(
            posts,
            #[trigger] rest[x] as int,
            #[trigger] rest[y] as int,
        ) by {
            assert(rest[x] == list[x] && rest[y] == list[y]);
        }
        lemma_put_in(posts, rest, seat);
        let before = preflop_tree::placed(posts, rest, seat);
        assert(out == before.push(list.last()));
        assert forall|x: int| 0 <= x < out.len() implies list.contains(#[trigger] out[x]) || out[x]
            == seat by {
            if x < before.len() {
                assert(out[x] == before[x]);
                if rest.contains(before[x]) {
                    let y = choose|y: int| 0 <= y < rest.len() && rest[y] == before[x];
                    assert(list[y] == before[x]);
                }
            } else {
                assert(list[list.len() - 1] == out[x]);
            }
        }
        assert forall|x: int, y: int| 0 <= x < y < out.len() implies acts_before(
            posts,
            #[trigger] out[x] as int,
            #[trigger] out[y] as int,
        ) by {
            assert(out[x] == before[x]);
            if y < before.len() {
                assert(out[y] == before[y]);
            } else if before[x] != seat {
                assert(rest.contains(before[x]));
                let z = choose|z: int| 0 <= z < rest.len() && rest[z] == before[x];
                assert(list[z] == before[x] && list[list.len() - 1] == out[y]);
            }
        }
        assert forall|x: int| 0 <= x < out.len() implies #[trigger] out[x] < seat + 1
            && posts[out[x] as int].count > 0 by {
            if x < before.len() {
                assert(out[x] == before[x]);
            } else {
                assert(list[list.len() - 1] == out[x]);
            }
        }
    } else {
        assert(out == list.push(seat));
        assert forall|x: int, y: int| 0 <= x < y < out.len() implies acts_before(
            posts,
            #[trigger] out[x] as int,
            #[trigger] out[y] as int,
        ) by {
            assert(out[x] == list[x]);
            if y < list.len() {
                assert(out[y] == list[y]);
            } else {
                let last = list.len() - 1;
                assert(posts[list[last] as int].count <= posts[seat as int].count);
                if x < last {
                    assert(acts_before(posts, list[x] as int, list[last] as int));
                }
            }
        }
        assert forall|x: int| 0 <= x < out.len() implies list.contains(#[trigger] out[x]) || out[x]
            == seat by {
            if x < list.len() {
                assert(out[x] == list[x]);
            }
        }
    }
}

proof fn lemma_lists_in_order(posts: Seq<Nano>, k: int)
    requires
        0 <= k <= usize::MAX,
    ensures
        in_order(posts, preflop_tree::blinds(posts, k), k),
        forall|x: int|
            0 <= x < preflop_tree::others(posts, k).len() ==> (#[trigger] preflop_tree::others(
                posts,
                k,
            )[x]) < k && posts[preflop_tree::others(posts, k)[x] as int].count <= 0,
        forall|x: int, y: int|
            0 <= x < y < preflop_tree::others(posts, k).len() ==> (#[trigger] preflop_tree::others(
                posts,
                k,
            )[x]) < (#[trigger] preflop_tree::others(posts, k)[y]),
    decreases k,
{
    assert(nano::ten_to(0) == 1);
    if k > 0 {
        lemma_lists_in_order(posts, k - 1);
        let list = preflop_tree::blinds(posts, k - 1);
        let o = preflop_tree::others(posts, k - 1);
        if posts[k - 1].count > 0 {
            lemma_put_in(posts, list, (k - 1) as usize);
            assert(preflop_tree::others(posts, k) == o);
        } else {
            let more = o.push((k - 1) as usize);
            assert(preflop_tree::others(posts, k) == more);
            assert forall|x: int| 0 <= x < more.len() implies #[trigger] more[x] < k
                && posts[more[x] as int].count <= 0 by {
                if x < o.len() {
                    assert(more[x] == o[x]);
                }
            }
            assert forall|x: int, y: int| 0 <= x < y < more.len() implies #[trigger] more[x]
                < #[trigger] more[y] by {
                assert(more[x] == o[x]);
                if y < o.len() {
                    assert(more[y] == o[y]);
                }
            }
        }
    }
}

/// Law: after the flop the posting seats act first, by what they post, and the
/// others behind them by seat. Of two seats the first, which is the button, acts
/// last.
pub proof fn law_order_of_play_is_by_posts(posts: Seq<Nano>, n: int, x: int, y: int)
    requires
        2 <= n <= 9,
        0 <= x < y < preflop_tree::order_of(posts, n).len(),
    ensures
        n > 2 ==> acts_before(
            posts,
            preflop_tree::order_of(posts, n)[x] as int,
            preflop_tree::order_of(posts, n)[y] as int,
        ),
        n == 2 ==> preflop_tree::order_of(posts, n) == seq![1usize, 0usize],
{
    if n > 2 {
        lemma_lists_in_order(posts, n);
        let (b, o) = (preflop_tree::blinds(posts, n), preflop_tree::others(posts, n));
        let all = preflop_tree::order_of(posts, n);
        if y < b.len() {
            assert(all[x] == b[x] && all[y] == b[y]);
        } else if x < b.len() {
            assert(all[x] == b[x] && all[y] == o[y - b.len()]);
        } else {
            assert(all[x] == o[x - b.len()] && all[y] == o[y - b.len()]);
        }
    }
}

} // verus!
