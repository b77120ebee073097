//! The betting before the flop, in exact numbers: what seats may do, what it
//! costs them, and that live seats have put in the same once it is over.

use crate::betting;
use crate::betting::{Act, PKind, Round};
use crate::nano;
use crate::nano::{Nano, BILLION};
use crate::num::Num;
use crate::preflop;
use crate::preflop::PreflopConfig;
use crate::seats;
use crate::weigh_laws;
use vstd::prelude::*;

verus! {

/// Whether a game's amounts make sense and add up in range: posts fit the
/// stack, and the all-in threshold is part of it.
pub open spec fn fitting(cfg: PreflopConfig<Nano>, n: int) -> bool {
    &&& 2 <= n <= 9
    &&& cfg.posts@.len() == n
    &&& 0 <= cfg.ante.count
    &&& 0 < cfg.stack.count
    &&& 10 * (cfg.stack.count + cfg.ante.count) <= i64::MAX
    &&& 0 < cfg.allin_threshold.count <= BILLION
    &&& forall|i: int| 0 <= i < n ==> 0 <= (#[trigger] cfg.posts@[i]).count <= cfg.stack.count
}

/// Whether a seat is still in the hand.
pub open spec fn live(st: Round<Nano>, i: int) -> bool {
    !seats::seated(st.folded, i)
}

/// Whether a round is fair: no seat has put in more than the bet to be met and
/// the ante, every live seat that has acted has put in just that, and only
/// seats without chips left are all-in.
pub open spec fn fair(cfg: PreflopConfig<Nano>, n: int, st: Round<Nano>) -> bool {
    &&& betting::sits(n, st)
    &&& 0 <= st.to_call.count <= cfg.stack.count
    &&& forall|i: int|
        0 <= i < n ==> cfg.ante.count <= (#[trigger] st.invested[i]).count <= st.to_call.count
            + cfg.ante.count
    &&& forall|i: int|
        0 <= i < n && live(st, i) && (!seats::seated(st.needs, i) || seats::seated(st.allin, i))
            ==> (#[trigger] st.invested[i]).count == st.to_call.count + cfg.ante.count
    &&& forall|i: int|
        0 <= i < n && #[trigger] seats::seated(st.allin, i) ==> st.to_call.count
            == cfg.stack.count
}

proof fn lemma_units()
    ensures
        Nano::decimal_spec(0, 0).count == 0,
        Nano::decimal_spec(1, 0).count == BILLION,
        Nano::decimal_spec(1, 9).count == 1,
{
    assert(nano::ten_to(0) == 1);
    assert(nano::ten_to(9) == 1_000_000_000) by {
        reveal_with_fuel(nano::ten_to, 10);
    }
}

proof fn lemma_table_bits(n: u32, f: u32, a: u32, i: u32)
    by (bit_vector)
    requires
        n <= 9,
        i < n,
    ensures
        ((((1u32 << n) - 1) as u32) & !f & !a) & (1u32 << i) != 0 <==> (f & (1u32 << i) == 0 && a
            & (1u32 << i) == 0),
        (((1u32 << n) - 1) as u32) & (1u32 << i) != 0,
        0u32 & (1u32 << i) == 0,
{
}

proof fn lemma_table(n: int, f: u32, a: u32, i: int)
    requires
        2 <= n <= 9,
        0 <= i < n,
    ensures
        seats::seated(seats::table_of(n) & !f & !a, i) == (!seats::seated(f, i) && !seats::seated(
            a,
            i,
        )),
        seats::seated(seats::table_of(n), i),
        !seats::seated(0, i),
{
    lemma_table_bits(n as u32, f, a, i as u32);
}

proof fn lemma_biggest(posts: Seq<Nano>, most: int)
    requires
        0 <= most,
        forall|i: int| 0 <= i < posts.len() ==> 0 <= (#[trigger] posts[i]).count <= most,
    ensures
        0 <= preflop::biggest(posts).count <= most,
        forall|i: int|
            0 <= i < posts.len() ==> (#[trigger] posts[i]).count <= preflop::biggest(posts).count,
        preflop::biggest(posts).count == 0 || exists|i: int|
            0 <= i < posts.len() && #[trigger] posts[i] == preflop::biggest(posts),
    decreases posts.len(),
{
    lemma_units();
    if posts.len() > 0 {
        let rest = posts.drop_last();
        assert forall|i: int| 0 <= i < rest.len() implies 0 <= (#[trigger] rest[i]).count
            <= most by {
            assert(rest[i] == posts[i]);
        }
        lemma_biggest(rest, most);
        assert forall|i: int| 0 <= i < posts.len() implies (#[trigger] posts[i]).count
            <= preflop::biggest(posts).count by {
            if i < rest.len() {
                assert(rest[i] == posts[i]);
            }
        }
        if preflop::biggest(posts) == posts.last() {
            assert(posts[posts.len() - 1] == preflop::biggest(posts));
        } else {
            assert(preflop::biggest(posts) == preflop::biggest(rest));
            if preflop::biggest(rest).count != 0 {
                let i = choose|i: int|
                    0 <= i < rest.len() && #[trigger] rest[i] == preflop::biggest(rest);
                assert(posts[i] == preflop::biggest(posts));
            }
        }
    }
}

/// Law: before anyone has acted every seat has put in its post and its ante,
/// the biggest post is to be met, all seats wait and the first is to act.
pub proof fn law_rounds_open_with_posts_and_antes(cfg: PreflopConfig<Nano>, n: int, i: int)
    requires
        fitting(cfg, n),
        0 <= i < n,
    ensures
        ({
            let st = betting::opening(cfg, n);
            &&& fair(cfg, n, st)
            &&& st.invested[i].count == cfg.posts@[i].count + cfg.ante.count
            &&& cfg.posts@[i].count <= st.to_call.count
            &&& st.to_call.count == 0 || exists|j: int|
                0 <= j < n && #[trigger] cfg.posts@[j] == st.to_call
            &&& st.last_raise.count >= BILLION && st.last_raise.count >= st.to_call.count
            &&& betting::waits(st, i)
            &&& betting::actor_of(n, st) == Some(0int)
        }),
{
    let st = betting::opening(cfg, n);
    lemma_units();
    lemma_biggest(cfg.posts@, cfg.stack.count as int);
    assert forall|j: int| 0 <= j < n implies #[trigger] betting::waits(st, j) && !seats::seated(
        st.allin,
        j,
    ) by {
        lemma_table(n, 0, 0, j);
    }
    assert(betting::waits(st, 0));
    assert((st.next_seat + 0) % n == 0) by {
        assert(st.next_seat == 0);
        vstd::arithmetic::div_mod::lemma_small_mod(0, n as nat);
    }
    assert(betting::waits_from(n, st, 0) == Some(0int));
    assert forall|j: int| 0 <= j < n implies cfg.ante.count <= (#[trigger] st.invested[j]).count
        <= st.to_call.count + cfg.ante.count by {
        assert(cfg.posts@[j].count <= st.to_call.count);
    }
    assert forall|j: int|
        0 <= j < n && live(st, j) && (!seats::seated(st.needs, j) || seats::seated(
            st.allin,
            j,
        )) implies (#[trigger] st.invested[j]).count == st.to_call.count + cfg.ante.count by {
        assert(betting::waits(st, j));
    }
    assert forall|j: int| 0 <= j < n && #[trigger] seats::seated(st.allin, j) implies
        st.to_call.count == cfg.stack.count by {
        assert(betting::waits(st, j));
    }
}

/// The amount that a size of the menu leads to: itself, or the stack where it
/// comes near enough to it.
pub open spec fn leads_to(cfg: PreflopConfig<Nano>, size: int) -> int {
    if BILLION * size + BILLION > cfg.allin_threshold.count * cfg.stack.count {
        cfg.stack.count as int
    } else {
        size
    }
}

proof fn lemma_capped(cfg: PreflopConfig<Nano>, n: int, x: Nano)
    requires
        fitting(cfg, n),
    ensures
        betting::capped(cfg, x).count == leads_to(cfg, x.count as int),
        betting::capped(cfg, x).count <= cfg.stack.count,
{
    let b = BILLION as int;
    let (t, s) = (cfg.allin_threshold.count as int, cfg.stack.count as int);
    let y = t * s;
    assert(0 <= y <= b * s) by (nonlinear_arith)
        requires
            y == t * s,
            0 < t <= b,
            0 < s,
    ;
    weigh_laws::lemma_times_near(cfg.allin_threshold, cfg.stack, s);
    vstd::arithmetic::div_mod::lemma_fundamental_div_mod(y, b);
    vstd::arithmetic::div_mod::lemma_mod_bound(y, b);
    let m = cfg.allin_threshold.times_spec(cfg.stack).count as int;
    assert(m == y / b);
}

/// The size that the `i`-th entry of the menu stands for, before it is held
/// against the stack.
pub open spec fn means(
    cfg: PreflopConfig<Nano>,
    st: Round<Nano>,
    actor: int,
    i: int,
    size: int,
) -> bool {
    let sizes = if st.raises == 0 {
        cfg.opens(actor)
    } else {
        cfg.mults(actor)
    };
    if i == sizes.len() {
        cfg.add_allin && size == cfg.stack.count
    } else if st.raises == 0 {
        size == sizes[i].count
    } else {
        let least = st.to_call.count + st.last_raise.count;
        let multiple = st.to_call.count * sizes[i].count;
        &&& size >= least
        &&& BILLION * size > multiple - BILLION
        &&& size == least || BILLION * size <= multiple
    }
}

/// Whether the menu of a seat stays in range.
pub open spec fn moderate(cfg: PreflopConfig<Nano>, st: Round<Nano>, actor: int) -> bool {
    &&& 0 <= st.last_raise.count
    &&& st.to_call.count + st.last_raise.count <= i64::MAX
    &&& forall|i: int|
        0 <= i < cfg.mults(actor).len() ==> 0 <= (#[trigger] cfg.mults(actor)[i]).count
            && st.to_call.count * cfg.mults(actor)[i].count <= i64::MAX * BILLION
}

proof fn lemma_menu(cfg: PreflopConfig<Nano>, n: int, st: Round<Nano>, actor: int, i: int)
    requires
        fitting(cfg, n),
        fair(cfg, n, st),
        moderate(cfg, st, actor),
        0 <= i < betting::menu(cfg, st, actor).len(),
    ensures
        means(cfg, st, actor, i, betting::menu(cfg, st, actor)[i].count as int),
{
    let b = BILLION as int;
    if st.raises != 0 && i < cfg.mults(actor).len() {
        let m = cfg.mults(actor)[i];
        let y = st.to_call.count * m.count;
        assert(0 <= y) by (nonlinear_arith)
            requires
                y == st.to_call.count * m.count,
                0 <= st.to_call.count,
                0 <= m.count,
        ;
        weigh_laws::lemma_times_near(st.to_call, m, i64::MAX as int);
        vstd::arithmetic::div_mod::lemma_fundamental_div_mod(y, b);
        vstd::arithmetic::div_mod::lemma_mod_bound(y, b);
        let t = st.to_call.times_spec(m);
        assert(t.count == y / b);
    }
}

/// What is offered: raises that entries of the menu lead to.
proof fn lemma_offered(cfg: PreflopConfig<Nano>, n: int, to_call: Nano, tos: Seq<Nano>, k: int)
    -> (i: int)
    requires
        fitting(cfg, n),
        0 <= to_call.count <= cfg.stack.count,
        0 <= k < betting::offered(cfg, to_call, tos).len(),
    ensures
        0 <= i < tos.len(),
        betting::offered(cfg, to_call, tos)[k] == betting::capped(cfg, tos[i]),
        betting::offered(cfg, to_call, tos)[k].count > to_call.count + 1,
    decreases tos.len(),
{
    lemma_units();
    let seen = betting::offered(cfg, to_call, tos.drop_last());
    if k < seen.len() {
        let i = lemma_offered(cfg, n, to_call, tos.drop_last(), k);
        i
    } else {
        tos.len() - 1
    }
}

/// Every entry of the menu that raises is offered.
proof fn lemma_all_offered(cfg: PreflopConfig<Nano>, n: int, to_call: Nano, tos: Seq<Nano>, i: int)
    -> (k: int)
    requires
        fitting(cfg, n),
        0 <= to_call.count <= cfg.stack.count,
        0 <= i < tos.len(),
        betting::capped(cfg, tos[i]).count > to_call.count + 1,
    ensures
        0 <= k < betting::offered(cfg, to_call, tos).len(),
        betting::offered(cfg, to_call, tos)[k].count == betting::capped(cfg, tos[i]).count,
    decreases tos.len(),
{
    lemma_units();
    let rest = tos.drop_last();
    let seen = betting::offered(cfg, to_call, rest);
    if i < rest.len() {
        let k = lemma_all_offered(cfg, n, to_call, rest, i);
        k
    } else {
        let to = betting::capped(cfg, tos.last());
        if betting::near_some(seen, to) {
            let k = choose|k: int| 0 <= k < seen.len() && betting::near(#[trigger] seen[k], to);
            let m = lemma_offered(cfg, n, to_call, rest, k);
            lemma_capped(cfg, n, rest[m]);
            lemma_capped(cfg, n, tos.last());
            k
        } else {
            seen.len() as int
        }
    }
}

/// Law: every raise that a seat may make comes from its menu: from one of its
/// sizes, which open to an amount, or multiply the bet that is met but raise by
/// no less than the last raise did; or from going all-in. It goes past the bet
/// and no further than the stack, and only then is it a jam. There is none past
/// the cap on raises, nor from a seat that only calls.
pub proof fn law_raises_come_from_the_menu(
    cfg: PreflopConfig<Nano>,
    n: int,
    st: Round<Nano>,
    actor: int,
    k: int,
) -> (r: (int, int))
    requires
        fitting(cfg, n),
        fair(cfg, n, st),
        moderate(cfg, st, actor),
        0 <= k < betting::legal(cfg, st, actor).len(),
        betting::legal(cfg, st, actor)[k].kind is Raise || betting::legal(
            cfg,
            st,
            actor,
        )[k].kind is Jam,
    ensures
        ({
            let act = betting::legal(cfg, st, actor)[k];
            &&& means(cfg, st, actor, r.0, r.1)
            &&& act.to.count == leads_to(cfg, r.1)
            &&& st.to_call.count + 1 < act.to.count <= cfg.stack.count
            &&& act.kind is Jam <==> act.to.count == cfg.stack.count
            &&& st.raises < cfg.max_raises
            &&& !cfg.calls_only(actor)
            &&& st.raises > 0 ==> act.to.count - st.to_call.count >= st.last_raise.count
                || act.kind is Jam
        }),
{
    let few = betting::passive(cfg, st, actor).len();
    assert(k >= few);
    let tos = betting::menu(cfg, st, actor);
    let seen = betting::offered(cfg, st.to_call, tos);
    let i = lemma_offered(cfg, n, st.to_call, tos, k - few);
    lemma_menu(cfg, n, st, actor, i);
    lemma_capped(cfg, n, tos[i]);
    lemma_units();
    let act = betting::legal(cfg, st, actor)[k];
    assert(act == betting::raise_act(cfg, st.raises, seen[k - few]));
    (i, tos[i].count as int)
}

/// Law: every entry of a seat's menu that goes past the bet can be raised to,
/// while there may be more raises.
pub proof fn law_the_whole_menu_is_offered(
    cfg: PreflopConfig<Nano>,
    n: int,
    st: Round<Nano>,
    actor: int,
    i: int,
) -> (r: (int, int))
    requires
        fitting(cfg, n),
        fair(cfg, n, st),
        moderate(cfg, st, actor),
        st.raises < cfg.max_raises,
        !cfg.calls_only(actor),
        0 <= i,
        ({
            let sizes = if st.raises == 0 {
                cfg.opens(actor)
            } else {
                cfg.mults(actor)
            };
            i < sizes.len() || cfg.add_allin && i == sizes.len()
        }),
    ensures
        ({
            let acts = betting::legal(cfg, st, actor);
            &&& means(cfg, st, actor, i, r.1)
            &&& leads_to(cfg, r.1) > st.to_call.count + 1 ==> {
                &&& 0 <= r.0 < acts.len()
                &&& acts[r.0].kind is Raise || acts[r.0].kind is Jam
                &&& acts[r.0].to.count == leads_to(cfg, r.1)
            }
        }),
{
    let few = betting::passive(cfg, st, actor).len();
    let tos = betting::menu(cfg, st, actor);
    let x = tos[i];
    lemma_menu(cfg, n, st, actor, i);
    lemma_capped(cfg, n, x);
    lemma_units();
    let to = betting::capped(cfg, x);
    if to.count > st.to_call.count + 1 {
        let k = lemma_all_offered(cfg, n, st.to_call, tos, i);
        let acts = betting::legal(cfg, st, actor);
        let seen = betting::offered(cfg, st.to_call, tos);
        assert(acts[few + k] == betting::raise_act(cfg, st.raises, seen[k]));
        (few + k, x.count as int)
    } else {
        (-1, x.count as int)
    }
}

/// Law: a seat that owes something may fold, and may call it where there was a
/// raise or limping is allowed; a seat that owes nothing may check.
pub proof fn law_what_seats_may_do(
    cfg: PreflopConfig<Nano>,
    n: int,
    st: Round<Nano>,
    actor: int,
    kind: PKind,
)
    requires
        fitting(cfg, n),
        fair(cfg, n, st),
        0 <= actor < n,
        kind is Fold || kind is Check || kind is Call,
    ensures
        ({
            let owes = st.to_call.count + cfg.ante.count - st.invested[actor].count > 1;
            let acts = betting::legal(cfg, st, actor);
            (exists|k: int| 0 <= k < acts.len() && (#[trigger] acts[k]).kind == kind) <==> {
                if kind is Fold {
                    owes
                } else if kind is Check {
                    !owes
                } else {
                    owes && (st.raises > 0 || cfg.limp)
                }
            }
        }),
{
    lemma_units();
    assert(st.invested[actor].count >= cfg.ante.count);
    let owes = st.to_call.count + cfg.ante.count - st.invested[actor].count > 1;
    let acts = betting::legal(cfg, st, actor);
    let front = betting::passive(cfg, st, actor);
    let back = betting::raising(cfg, st, actor);
    assert forall|k: int| 0 <= k < back.len() implies (#[trigger] back[k]).kind is Raise
        || back[k].kind is Jam by {}
    assert forall|k: int| 0 <= k < acts.len() && (#[trigger] acts[k]).kind == kind implies k
        < front.len() && acts[k] == front[k] by {
        if k >= front.len() {
            assert(acts[k] == back[k - front.len()]);
        }
    }
    if owes {
        assert(acts[0] == front[0] && front[0].kind is Fold);
        if st.raises > 0 || cfg.limp {
            assert(acts[1] == front[1] && front[1].kind is Call);
        }
    } else {
        assert(acts[0] == front[0] && front[0].kind is Check);
    }
}

/// Law: whatever a seat does, a fair round stays fair. Other seats' chips stay
/// where they are; a fold adds none; a check or a call makes up to the bet, and a
/// raise to the amount that it goes to, the ante aside.
pub proof fn law_rounds_stay_fair(
    cfg: PreflopConfig<Nano>,
    n: int,
    st: Round<Nano>,
    actor: int,
    k: int,
)
    requires
        fitting(cfg, n),
        fair(cfg, n, st),
        moderate(cfg, st, actor),
        0 <= actor < n,
        betting::waits(st, actor),
        0 <= k < betting::legal(cfg, st, actor).len(),
    ensures
        ({
            let act = betting::legal(cfg, st, actor)[k];
            let next = betting::after(cfg, n, st, actor, act);
            let raised = act.kind is Raise || act.kind is Jam;
            &&& fair(cfg, n, next)
            &&& forall|i: int|
                0 <= i < n && i != actor ==> #[trigger] next.invested[i] == st.invested[i]
            &&& next.invested[actor].count == if act.kind is Fold {
                st.invested[actor].count as int
            } else if raised {
                act.to.count + cfg.ante.count
            } else {
                st.to_call.count + cfg.ante.count
            }
            &&& next.to_call.count == if raised {
                act.to.count
            } else {
                st.to_call.count
            }
            &&& raised ==> next.last_raise.count == act.to.count - st.to_call.count
            &&& next.raises == st.raises + if raised {
                1int
            } else {
                0
            }
            &&& forall|i: int|
                0 <= i < n ==> #[trigger] live(next, i) == (live(st, i) && !(i == actor
                    && act.kind is Fold))
            &&& forall|i: int|
                0 <= i < n && i != actor ==> #[trigger] betting::waits(next, i) == if raised {
                    live(st, i)
                } else {
                    betting::waits(st, i)
                }
            &&& !betting::waits(next, actor)
        }),
{
    lemma_units();
    let act = betting::legal(cfg, st, actor)[k];
    let next = betting::after(cfg, n, st, actor, act);
    let raised = act.kind is Raise || act.kind is Jam;
    assert(st.invested[actor].count >= cfg.ante.count);
    if raised {
        let r = law_raises_come_from_the_menu(cfg, n, st, actor, k);
    }
    assert forall|i: int| 0 <= i < n implies {
        &&& #[trigger] live(next, i) == (live(st, i) && !(i == actor && act.kind is Fold))
        &&& i != actor ==> betting::waits(next, i) == if raised {
            live(st, i)
        } else {
            betting::waits(st, i)
        }
        &&& i == actor ==> !betting::waits(next, i)
        &&& cfg.ante.count <= next.invested[i].count <= next.to_call.count + cfg.ante.count
        &&& seats::seated(next.allin, i) ==> next.to_call.count == cfg.stack.count
        &&& live(next, i) && (!seats::seated(next.needs, i) || seats::seated(next.allin, i))
            ==> next.invested[i].count == next.to_call.count + cfg.ante.count
    } by {
        seats::lemma_without(st.folded, actor, i);
        seats::lemma_without(st.allin, actor, i);
        seats::lemma_without(st.needs, actor, i);
        lemma_table(n, st.folded, next.allin, i);
        seats::lemma_without(seats::table_of(n) & !st.folded & !next.allin, actor, i);
        let old = st.invested[i];
        assert(cfg.ante.count <= old.count <= st.to_call.count + cfg.ante.count);
        if seats::seated(st.allin, i) {
            assert(st.to_call.count == cfg.stack.count);
        }
    }
    assert forall|i: int| 0 <= i < n implies cfg.ante.count <= (#[trigger] next.invested[i]).count
        <= next.to_call.count + cfg.ante.count by {
        assert(live(next, i) == (live(st, i) && !(i == actor && act.kind is Fold)));
    }
    assert forall|i: int|
        0 <= i < n && live(next, i) && (!seats::seated(next.needs, i) || seats::seated(
            next.allin,
            i,
        )) implies (#[trigger] next.invested[i]).count == next.to_call.count + cfg.ante.count by {}
    assert forall|i: int| 0 <= i < n && #[trigger] seats::seated(next.allin, i) implies
        next.to_call.count == cfg.stack.count by {
        assert(live(next, i) == (live(st, i) && !(i == actor && act.kind is Fold)));
    }
    assert forall|i: int| 0 <= i < n && i != actor implies #[trigger] betting::waits(next, i)
        == if raised {
        live(st, i)
    } else {
        betting::waits(st, i)
    } by {
        assert(live(next, i) == (live(st, i) && !(i == actor && act.kind is Fold)));
    }
    assert(live(next, actor) == (live(st, actor) && !(act.kind is Fold)));
}

proof fn lemma_waits_from(n: int, st: Round<Nano>, k: int) -> (m: int)
    requires
        2 <= n <= 9,
        0 <= st.next_seat < n,
        0 <= k <= n,
    ensures
        k <= m <= n,
        forall|j: int| k <= j < m ==> !betting::waits(st, #[trigger] ((st.next_seat + j) % n)),
        betting::waits_from(n, st, k) == if m < n {
            Some((st.next_seat + m) % n)
        } else {
            None
        },
        m < n ==> betting::waits(st, (st.next_seat + m) % n),
    decreases n - k,
{
    if k >= n {
        n
    } else if betting::waits(st, (st.next_seat + k) % n) {
        k
    } else {
        let m = lemma_waits_from(n, st, k + 1);
        assert forall|j: int| k <= j < m implies !betting::waits(
            st,
            #[trigger] ((st.next_seat + j) % n),
        ) by {
            if j == k {
            }
        }
        m
    }
}

/// Law: action goes round the table: the seat to act is the first that waits,
/// going on from the seat after the last one; how many places on is returned.
pub proof fn law_action_goes_round(n: int, st: Round<Nano>) -> (m: int)
    requires
        2 <= n <= 9,
        0 <= st.next_seat < n,
    ensures
        0 <= m <= n,
        forall|j: int| 0 <= j < m ==> !betting::waits(st, #[trigger] ((st.next_seat + j) % n)),
        match betting::actor_of(n, st) {
            Some(seat) => m < n && seat == (st.next_seat + m) % n && betting::waits(st, seat),
            None => m == n,
        },
{
    lemma_waits_from(n, st, 0)
}

/// Law: once no seat is to act, all live seats have put in the same.
pub proof fn law_closed_rounds_are_even(cfg: PreflopConfig<Nano>, n: int, st: Round<Nano>, i: int)
    requires
        fitting(cfg, n),
        fair(cfg, n, st),
        betting::actor_of(n, st) is None,
        0 <= i < n,
        live(st, i),
    ensures
        st.invested[i].count == st.to_call.count + cfg.ante.count,
{
    let m = law_action_goes_round(n, st);
    let j = (i - st.next_seat) % n;
    vstd::arithmetic::div_mod::lemma_mod_bound(i - st.next_seat, n);
    assert((st.next_seat + j) % n == i) by {
        let d = i - st.next_seat;
        if d >= 0 {
            vstd::arithmetic::div_mod::lemma_small_mod(d as nat, n as nat);
            vstd::arithmetic::div_mod::lemma_small_mod(i as nat, n as nat);
        } else {
            vstd::arithmetic::div_mod::lemma_mod_add_multiples_vanish(d, n);
            vstd::arithmetic::div_mod::lemma_small_mod((d + n) as nat, n as nat);
            assert(j == d + n);
            vstd::arithmetic::div_mod::lemma_mod_add_multiples_vanish(i, n);
            vstd::arithmetic::div_mod::lemma_small_mod(i as nat, n as nat);
        }
    }
    assert(!betting::waits(st, (st.next_seat + j) % n));
}

proof fn lemma_with_some(set: u32, i: u32)
    by (bit_vector)
    requires
        i < 32,
    ensures
        set | (1u32 << i) != 0,
{
}

/// Law: the situation that seats face follows the betting. It is unopened until
/// someone calls or raises; a raise makes it a raise to face, or one over
/// another; a call makes limps of an unopened pot, and a squeeze of a single
/// raise. Folds and checks change nothing.
pub proof fn law_situations_follow_the_betting(
    cfg: PreflopConfig<Nano>,
    n: int,
    st: Round<Nano>,
    actor: int,
    act: Act<Nano>,
)
    requires
        0 <= actor < n <= 9,
        st.raises < 255,
    ensures
        betting::situation(betting::opening(cfg, n)) == betting::BUCKET_UNOPENED,
        ({
            let now = betting::situation(st);
            let next = betting::situation(betting::after(cfg, n, st, actor, act));
            match act.kind {
                PKind::Fold | PKind::Check => next == now,
                PKind::Raise | PKind::Jam => if now == betting::BUCKET_UNOPENED || now
                    == betting::BUCKET_VS_LIMPS {
                    next == betting::BUCKET_VS_RAISE
                } else {
                    next == betting::BUCKET_VS_3BET
                },
                PKind::Call => if now == betting::BUCKET_UNOPENED || now
                    == betting::BUCKET_VS_LIMPS {
                    next == betting::BUCKET_VS_LIMPS
                } else if now == betting::BUCKET_VS_RAISE || now == betting::BUCKET_SQUEEZE {
                    next == betting::BUCKET_SQUEEZE
                } else {
                    next == betting::BUCKET_VS_3BET
                },
            }
        }),
{
    lemma_with_some(st.called, actor as u32);
}

} // verus!
