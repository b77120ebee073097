//! Saved games: what is saved loads, and is the same game.

use crate::betting;
use crate::betting::Round;
use crate::framing;
use crate::num::{Num, Single};
use crate::preflop;
use crate::preflop::PreflopConfig;
use crate::preflop_build;
use crate::preflop_build::{Grown, Tally, TreeLimits};
use crate::preflop_save;
use crate::preflop_save::{GameError, GameHeader};
use crate::preflop_solver;
use crate::preflop_solver::{Arenas, Field, PreflopSolver};
use crate::preflop_tree;
use crate::preflop_tree::{Knot, KIND_ACTION};
use crate::preflop_values;
use crate::save;
use crate::seat_models;
use crate::seats;
use vstd::prelude::*;

verus! {

// ---------------------------------------------------------------------------
// The tree of a game
// ---------------------------------------------------------------------------

proof fn lemma_menu_same<W: Num>(
    a: PreflopConfig<W>,
    b: PreflopConfig<W>,
    st: Round<W>,
    actor: int,
)
    requires
        preflop::same_game(a, b),
    ensures
        betting::menu(a, st, actor) == betting::menu(b, st, actor),
        a.opens(actor) == b.opens(actor),
        a.mults(actor) == b.mults(actor),
        a.calls_only(actor) == b.calls_only(actor),
{
    assert(a.opens(actor) =~= b.opens(actor));
    assert(a.mults(actor) =~= b.mults(actor));
    assert(betting::menu(a, st, actor) =~= betting::menu(b, st, actor));
    if a.calls_only(actor) {
        let i = choose|i: int|
            0 <= i < a.call_only_seats@.len() && #[trigger] a.call_only_seats@[i] == actor;
        assert(b.call_only_seats@[i] == actor);
    }
    if b.calls_only(actor) {
        let i = choose|i: int|
            0 <= i < b.call_only_seats@.len() && #[trigger] b.call_only_seats@[i] == actor;
        assert(a.call_only_seats@[i] == actor);
    }
}

proof fn lemma_offered_same<W: Num>(
    a: PreflopConfig<W>,
    b: PreflopConfig<W>,
    to_call: W,
    tos: Seq<W>,
)
    requires
        preflop::same_game(a, b),
    ensures
        betting::offered(a, to_call, tos) == betting::offered(b, to_call, tos),
    decreases tos.len(),
{
    if tos.len() > 0 {
        lemma_offered_same(a, b, to_call, tos.drop_last());
    }
}

proof fn lemma_legal_same<W: Num>(
    a: PreflopConfig<W>,
    b: PreflopConfig<W>,
    st: Round<W>,
    actor: int,
)
    requires
        preflop::same_game(a, b),
    ensures
        betting::legal(a, st, actor) == betting::legal(b, st, actor),
{
    lemma_menu_same(a, b, st, actor);
    lemma_offered_same(a, b, st.to_call, betting::menu(a, st, actor));
    assert(betting::raising(a, st, actor) =~= betting::raising(b, st, actor));
    assert(betting::passive(a, st, actor) =~= betting::passive(b, st, actor));
}

proof fn lemma_left_same<W: Num>(
    a: PreflopConfig<W>,
    b: PreflopConfig<W>,
    live: u32,
    invested: Seq<W>,
    k: int,
)
    requires
        preflop::same_game(a, b),
    ensures
        preflop_tree::least_left(a, live, invested, k) == preflop_tree::least_left(
            b,
            live,
            invested,
            k,
        ),
    decreases k,
{
    if k > 0 {
        lemma_left_same(a, b, live, invested, k - 1);
    }
}

proof fn lemma_counted_same<W: Num>(
    a: PreflopConfig<W>,
    b: PreflopConfig<W>,
    n: int,
    cap: int,
    t: Tally,
    st: Round<W>,
)
    requires
        preflop::same_game(a, b),
    ensures
        preflop_build::counted(a, n, cap, t, st) == preflop_build::counted(b, n, cap, t, st),
    decreases a.max_raises - st.raises, seats::seats_in(st.needs, n), 1int, 0int,
{
    if !t.truncated && t.nodes + 1 <= cap && !preflop_build::decided(n, st) {
        match betting::actor_of(n, st) {
            None => {},
            Some(actor) => {
                lemma_legal_same(a, b, st, actor);
                let acts = betting::legal(a, st, actor);
                let met = Tally {
                    nodes: t.nodes + 1,
                    action_nodes: t.action_nodes + 1,
                    arena_len: t.arena_len + preflop_build::cells(acts.len()),
                    ..t
                };
                lemma_counted_from_same(a, b, n, cap, met, st, actor, 0);
            },
        }
    }
}

proof fn lemma_counted_from_same<W: Num>(
    a: PreflopConfig<W>,
    b: PreflopConfig<W>,
    n: int,
    cap: int,
    t: Tally,
    st: Round<W>,
    actor: int,
    k: int,
)
    requires
        preflop::same_game(a, b),
    ensures
        preflop_build::counted_from(a, n, cap, t, st, actor, k) == preflop_build::counted_from(
            b,
            n,
            cap,
            t,
            st,
            actor,
            k,
        ),
    decreases
        a.max_raises - st.raises,
        seats::seats_in(st.needs, n),
        0int,
        betting::legal(a, st, actor).len() - k,
{
    lemma_legal_same(a, b, st, actor);
    let acts = betting::legal(a, st, actor);
    if 0 <= k < acts.len() {
        let later = betting::after(a, n, st, actor, acts[k]);
        assert(later == betting::after(b, n, st, actor, acts[k]));
        if betting::nearer_end(a, n, later, st) {
            lemma_counted_same(a, b, n, cap, t, later);
            lemma_counted_from_same(
                a,
                b,
                n,
                cap,
                preflop_build::counted(a, n, cap, t, later),
                st,
                actor,
                k + 1,
            );
        }
    }
}

proof fn lemma_grown_same<S: Single>(
    a: PreflopConfig<S::Wide>,
    b: PreflopConfig<S::Wide>,
    n: int,
    limits: TreeLimits<S::Wide>,
    g: Grown<S>,
    st: Round<S::Wide>,
)
    requires
        preflop::same_game(a, b),
    ensures
        preflop_build::grown(a, n, limits, g, st) == preflop_build::grown(b, n, limits, g, st),
    decreases a.max_raises - st.raises, seats::seats_in(st.needs, n), 1int, 0int,
{
    if g.nodes.len() < u32::MAX && !preflop_build::decided(n, st) {
        match betting::actor_of(n, st) {
            None => {
                let live = seats::table_of(n) & !st.folded;
                lemma_left_same(a, b, live, st.invested, st.invested.len() as int);
                assert(preflop_build::shared_knot::<S>(a, n, st) == preflop_build::shared_knot::<
                    S,
                >(b, n, st));
            },
            Some(actor) => {
                lemma_legal_same(a, b, st, actor);
                let met = Grown {
                    nodes: g.nodes.push(
                        preflop_build::acting_knot(a, n, st, actor, g.arena_len),
                    ),
                    children: g.children,
                    arena_len: g.arena_len + preflop_build::cells(
                        betting::legal(a, st, actor).len(),
                    ),
                };
                lemma_grown_from_same(a, b, n, limits, met, st, actor, Seq::empty());
            },
        }
    }
}

proof fn lemma_grown_from_same<S: Single>(
    a: PreflopConfig<S::Wide>,
    b: PreflopConfig<S::Wide>,
    n: int,
    limits: TreeLimits<S::Wide>,
    g: Grown<S>,
    st: Round<S::Wide>,
    actor: int,
    kids: Seq<u32>,
)
    requires
        preflop::same_game(a, b),
    ensures
        preflop_build::grown_from(a, n, limits, g, st, actor, kids) == preflop_build::grown_from(
            b,
            n,
            limits,
            g,
            st,
            actor,
            kids,
        ),
    decreases
        a.max_raises - st.raises,
        seats::seats_in(st.needs, n),
        0int,
        betting::legal(a, st, actor).len() - kids.len(),
{
    lemma_legal_same(a, b, st, actor);
    let acts = betting::legal(a, st, actor);
    if kids.len() < acts.len() {
        let act = acts[kids.len() as int];
        let later = betting::after(a, n, st, actor, act);
        assert(later == betting::after(b, n, st, actor, act));
        if betting::nearer_end(a, n, later, st) {
            lemma_grown_same(a, b, n, limits, g, later);
            match preflop_build::grown(a, n, limits, g, later) {
                None => {},
                Some((next, kid)) => {
                    lemma_grown_from_same(a, b, n, limits, next, st, actor, kids.push(kid));
                },
            }
        }
    }
}

proof fn lemma_fault_same<W: Num>(a: PreflopConfig<W>, b: PreflopConfig<W>)
    requires
        preflop::same_game(a, b),
    ensures
        a.fault() == b.fault(),
{
    let n = a.positions@.len();
    assert(preflop::lists_fit(a.open_raises_by_seat, n, Some(a.stack)) == preflop::lists_fit(
        b.open_raises_by_seat,
        n,
        Some(b.stack),
    )) by {
        lemma_lists_same(a.open_raises_by_seat, b.open_raises_by_seat, n, Some(a.stack));
    }
    lemma_lists_same(a.raise_mults_by_seat, b.raise_mults_by_seat, n, None);
    assert forall|seat: int| a.opens(seat) == #[trigger] b.opens(seat) by {
        assert(a.opens(seat) =~= b.opens(seat));
    }
    if a.opening_raise() {
        let seat = choose|seat: int|
            0 <= seat < n && preflop::some_over(
                #[trigger] a.opens(seat),
                preflop::biggest(a.posts@),
            );
        assert(preflop::some_over(b.opens(seat), preflop::biggest(b.posts@)));
    }
    if b.opening_raise() {
        let seat = choose|seat: int|
            0 <= seat < n && preflop::some_over(
                #[trigger] b.opens(seat),
                preflop::biggest(b.posts@),
            );
        assert(preflop::some_over(a.opens(seat), preflop::biggest(a.posts@)));
    }
}

proof fn lemma_lists_same<W: Num>(
    u: Option<Vec<Vec<W>>>,
    v: Option<Vec<Vec<W>>>,
    n: nat,
    stack: Option<W>,
)
    requires
        preflop::same_lists(u, v),
    ensures
        preflop::lists_fit(u, n, stack) == preflop::lists_fit(v, n, stack),
{
    match (u, v) {
        (Some(x), Some(y)) => {
            assert forall|i: int| 0 <= i < x@.len() implies (#[trigger] x@[i])@ == (
            #[trigger] y@[i])@ by {}
            if preflop::lists_fit(u, n, stack) {
                assert forall|i: int| 0 <= i < n implies preflop::list_fits(
                    #[trigger] y@[i]@,
                    stack,
                ) by {
                    assert(preflop::list_fits(x@[i]@, stack));
                }
            }
            if preflop::lists_fit(v, n, stack) {
                assert forall|i: int| 0 <= i < n implies preflop::list_fits(
                    #[trigger] x@[i]@,
                    stack,
                ) by {
                    assert(preflop::list_fits(y@[i]@, stack));
                }
            }
        },
        _ => {},
    }
}

/// Law: games that say the same are refused for the same reason, if at all,
/// and have the same tree.
pub proof fn law_same_game_same_tree<S: Single>(
    a: PreflopConfig<S::Wide>,
    b: PreflopConfig<S::Wide>,
    limits: TreeLimits<S::Wide>,
)
    requires
        preflop::same_game(a, b),
    ensures
        preflop_build::tree_of::<S>(a, limits) == preflop_build::tree_of::<S>(b, limits),
        PreflopSolver::<S>::refusal(a, limits) == PreflopSolver::<S>::refusal(b, limits),
{
    let n = a.positions@.len() as int;
    let first = betting::opening(a, n);
    assert(first.invested =~= betting::opening(b, n).invested);
    assert(first == betting::opening(b, n));
    lemma_grown_same::<S>(a, b, n, limits, preflop_build::bare(), first);
    lemma_counted_same(
        a,
        b,
        n,
        preflop_build::cap_of(limits.nodes as int),
        Tally { nodes: 0, action_nodes: 0, arena_len: 0, truncated: false },
        first,
    );
    lemma_fault_same(a, b);
}

// ---------------------------------------------------------------------------
// What loads
// ---------------------------------------------------------------------------

/// Whether two games are the same: they say the same, with the same tree, the
/// same equities and the same seats.
pub open spec fn same_field<S: Single>(f: Field<S>, g: Field<S>) -> bool {
    &&& preflop::same_game(f.cfg, g.cfg)
    &&& f.cells == g.cells
    &&& f.tree == g.tree
    &&& f.seats.frozen == g.seats.frozen
    &&& seat_models::same_profiles(f.seats.profiles, g.seats.profiles)
    &&& f.seats.hero == g.seats.hero
    &&& f.seats.pre_hero == g.seats.pre_hero
    &&& f.seats.pins == g.seats.pins
}

/// What is listed is pinned at its node.
proof fn lemma_listed<S>(pins: Seq<Option<Seq<S>>>, k: int, j: int)
    requires
        0 <= k <= pins.len() <= u32::MAX,
        0 <= j < preflop_save::listed(pins, k).len(),
    ensures
        preflop_save::listed(pins, k)[j].0 < k,
        pins[preflop_save::listed(pins, k)[j].0 as int] == Some(preflop_save::listed(pins, k)[j].1),
    decreases k,
{
    if k > 0 && j < preflop_save::listed(pins, k - 1).len() {
        lemma_listed(pins, k - 1, j);
    }
}

/// The game's own pins fit it.
proof fn lemma_pins_fit<S: Single>(s: PreflopSolver<S>, locks: Seq<(u32, Vec<S>)>, from: int)
    requires
        s.wf(),
        preflop_save::listing(locks) == preflop_save::listed(
            s.field().seats.pins,
            s.nodes@.len() as int,
        ),
        pins_playable(s.field()),
        0 <= from,
    ensures
        preflop_save::locks_fault(s.field().tree.nodes, locks, from) is None,
    decreases locks.len() - from,
{
    if from < locks.len() {
        let pins = s.field().seats.pins;
        let n = s.nodes@.len() as int;
        let list = preflop_save::listed(pins, n);
        assert(list.len() == locks.len()) by {
            assert(preflop_save::listing(locks).len() == locks.len());
        }
        assert(list[from] == preflop_save::listing(locks)[from]);
        lemma_listed(pins, n, from);
        let at = locks[from].0 as int;
        assert(pins[at] is Some);
        assert(s.field().tree.nodes[at].kind == KIND_ACTION);
        lemma_pins_fit(s, locks, from + 1);
    }
}

/// Whether every pinned strategy has frequencies that can be played.
pub open spec fn pins_playable<S: Single>(f: Field<S>) -> bool {
    forall|i: int|
        0 <= i < f.seats.pins.len() && (#[trigger] f.seats.pins[i]) is Some
            ==> save::first_unplayable(f.seats.pins[i]->0, 0) is None
}

proof fn lemma_profile_same<S>(
    a: seat_models::SeatProfile<S>,
    b: seat_models::SeatProfile<S>,
)
    requires
        seat_models::same_profile(a, b),
        b.wf(),
    ensures
        a.wf(),
{
    assert forall|k: int| 0 <= k < betting::NUM_BUCKETS && (#[trigger] a.buckets@[k]) is Some
        implies a.buckets@[k]->0.wf() by {
        assert(seat_models::same_choice(a.buckets@[k], b.buckets@[k]));
        assert(b.buckets@[k] is Some);
    }
}

/// The game's own seats fit it.
proof fn lemma_seats_fit<S: Single>(s: PreflopSolver<S>, header: GameHeader<S>)
    requires
        s.wf(),
        preflop_save::game_heads(s, header),
    ensures
        preflop_save::seats_fault(header) is None,
{
    let n = s.field().n();
    assert forall|q: int| 0 <= q < n && (#[trigger] header.seat_profiles@[q]) is Some implies
        header.seat_profiles@[q]->0.wf() by {
        assert(s.field().seats.profiles[q] is Some);
        lemma_profile_same(header.seat_profiles@[q]->0, s.seat_profiles@[q]->0);
    }
    assert(preflop_save::flags_of(header.pre_hero_frozen) == s.field().seats.pre_hero);
}

/// Law: a saved game loads, under the limits that it was built with, and is
/// the same game at the same iteration with the same arenas.
pub proof fn law_saved_game_loads<S: Single>(
    s: PreflopSolver<S>,
    limits: TreeLimits<S::Wide>,
    header: GameHeader<S>,
    line: Seq<u8>,
    r: Result<PreflopSolver<S>, GameError<S>>,
)
    requires
        s.wf(),
        PreflopSolver::<S>::refusal(s.cfg, limits) is None,
        preflop_build::tree_of::<S>(s.cfg, limits) == Some(s.field().tree),
        preflop_save::game_heads(s, header),
        pins_playable(s.field()),
        forall|k: int| 0 <= k < line.len() ==> line[k] != 10,
        forall|i: int|
            0 <= i < s.regrets@.len() ==> S::of_word_spec((#[trigger] s.regrets@[i]).word_spec())
                == s.regrets@[i],
        forall|i: int|
            0 <= i < s.strat_sum@.len() ==> S::of_word_spec(
                (#[trigger] s.strat_sum@[i]).word_spec(),
            ) == s.strat_sum@[i],
        ({
            let file = preflop_save::game_bytes(
                line,
                save::words_of(s.regrets@),
                save::words_of(s.strat_sum@),
            );
            let at = (preflop_save::magic_bytes().len() + line.len()) as int;
            preflop_save::game_outcome(header, file.skip(at + 1), s.eq, limits, r)
        }),
    ensures
        r is Ok,
        r->Ok_0.wf(),
        r->Ok_0.iteration == s.iteration,
        same_field(r->Ok_0.field(), s.field()),
        r->Ok_0.arenas() == s.arenas(),
{
    let (a, b) = (save::words_of(s.regrets@), save::words_of(s.strat_sum@));
    assert(framing::span(8) == 0x1_0000_0000_0000_0000) by {
        reveal_with_fuel(framing::span, 9);
    }
    preflop_save::law_game_read_back(line, a, b);
    save::law_numbers_read_back(s.regrets@);
    save::law_numbers_read_back(s.strat_sum@);
    law_same_game_same_tree::<S>(header.config, s.cfg, limits);
    lemma_seats_fit(s, header);
    lemma_pins_fit(s, header.point_locks@, 0);
    let l = r->Ok_0;
    assert(l.field().tree == s.field().tree);
    assert(l.nodes@.len() == l.field().tree.nodes.len());
    assert(s.nodes@.len() == s.field().tree.nodes.len());
    preflop_save::law_pins_come_back(s.field().seats.pins);
}

// ---------------------------------------------------------------------------
// How it goes on
// ---------------------------------------------------------------------------

/// The same seats play the same at a node.
proof fn lemma_forced_same<S: Single>(f: Field<S>, g: Field<S>, i: int)
    requires
        f.wf(),
        g.wf(),
        same_field(f, g),
        0 <= i < f.tree.nodes.len(),
        f.tree.nodes[i].kind == KIND_ACTION,
    ensures
        f.forced(i) == g.forced(i),
        f.learns(i) == g.learns(i),
{
    let nd = f.tree.nodes[i];
    assert(preflop_build::knot_sound(f.n(), f.tree, i));
    let seat = nd.actor as int;
    let at = nd.bucket as int;
    match (f.seats.profiles[seat], g.seats.profiles[seat]) {
        (Some(a), Some(b)) => {
            assert(seat_models::same_choice(a.buckets@[at], b.buckets@[at]));
            match (a.buckets@[at], b.buckets@[at]) {
                (Some(x), Some(y)) => {
                    lemma_played_same(nd.actions, x, y);
                },
                _ => {},
            }
        },
        _ => {},
    }
}

proof fn lemma_played_same<W: Num, S: Num>(
    acts: Seq<betting::Act<W>>,
    x: seat_models::BucketPolicy<S>,
    y: seat_models::BucketPolicy<S>,
)
    requires
        seat_models::same_policy(x, y),
    ensures
        seat_models::played_by(acts, x) == seat_models::played_by(acts, y),
{
    let u = Seq::new(acts.len() * 169, |k: int| seat_models::put_on(acts, x, k / 169, k % 169));
    let v = Seq::new(acts.len() * 169, |k: int| seat_models::put_on(acts, y, k / 169, k % 169));
    assert(u =~= v);
}

proof fn lemma_settled_same<S: Single>(
    f: Field<S>,
    g: Field<S>,
    nd: Knot<S>,
    p: int,
    reaches: Seq<Seq<S>>,
)
    requires
        same_field(f, g),
    ensures
        preflop_values::settled(f.cfg, f.cells, nd, p, reaches) == preflop_values::settled(
            g.cfg,
            g.cells,
            nd,
            p,
            reaches,
        ),
{
    assert(preflop_values::rake_on(f.cfg, nd.pot) == preflop_values::rake_on(g.cfg, nd.pot));
    assert(preflop_values::settled(f.cfg, f.cells, nd, p, reaches)
        =~= preflop_values::settled(g.cfg, g.cells, nd, p, reaches));
}

proof fn lemma_trained_same<S: Single>(
    f: Field<S>,
    g: Field<S>,
    ar: Arenas<S>,
    i: int,
    p: int,
    reaches: Seq<Seq<S>>,
)
    requires
        f.wf(),
        g.wf(),
        same_field(f, g),
        0 <= i < f.tree.nodes.len(),
    ensures
        f.trained(ar, i, p, reaches) == g.trained(ar, i, p, reaches),
    decreases f.tree.nodes.len() - i, f.tree.nodes[i].actions.len() + 1,
{
    let nd = f.tree.nodes[i];
    if nd.kind != KIND_ACTION {
        lemma_settled_same(f, g, nd, p, reaches);
    } else {
        lemma_forced_same(f, g, i);
        lemma_trained_below_same(f, g, ar, i, p, reaches, f.tries(ar, i), nd.actions.len());
    }
}

proof fn lemma_trained_below_same<S: Single>(
    f: Field<S>,
    g: Field<S>,
    ar: Arenas<S>,
    i: int,
    p: int,
    reaches: Seq<Seq<S>>,
    sigma: Seq<S>,
    k: nat,
)
    requires
        f.wf(),
        g.wf(),
        same_field(f, g),
        0 <= i < f.tree.nodes.len(),
    ensures
        f.trained_below(ar, i, p, reaches, sigma, k) == g.trained_below(
            ar,
            i,
            p,
            reaches,
            sigma,
            k,
        ),
    decreases f.tree.nodes.len() - i, k,
{
    if k > 0 {
        let nd = f.tree.nodes[i];
        let c = f.child(i, k - 1);
        lemma_trained_below_same(f, g, ar, i, p, reaches, sigma, (k - 1) as nat);
        let mid = f.trained_below(ar, i, p, reaches, sigma, (k - 1) as nat).1;
        if i < c < f.tree.nodes.len() {
            let on = preflop_solver::acted(reaches, nd.actor as int, sigma, k - 1);
            lemma_trained_same(f, g, mid, c, p, on);
        }
    }
}

proof fn lemma_through_same<S: Single>(f: Field<S>, g: Field<S>, ar: Arenas<S>, k: int)
    requires
        f.wf(),
        g.wf(),
        same_field(f, g),
    ensures
        f.played_through(ar, k) == g.played_through(ar, k),
    decreases k,
{
    if k > 0 {
        lemma_through_same(f, g, ar, k - 1);
        let mid = f.played_through(ar, k - 1);
        lemma_trained_same(f, g, mid, 0, k - 1, preflop_solver::at_root::<S>(f.n()));
    }
}

proof fn lemma_discounted_same<S: Single>(f: Field<S>, g: Field<S>, ar: Arenas<S>, t: u32, k: int)
    requires
        f.wf(),
        g.wf(),
        same_field(f, g),
        k <= f.tree.nodes.len(),
    ensures
        f.discounted(ar, t, k) == g.discounted(ar, t, k),
    decreases k,
{
    if k > 0 {
        lemma_discounted_same(f, g, ar, t, k - 1);
        if f.tree.nodes[k - 1].kind == KIND_ACTION {
            lemma_forced_same(f, g, k - 1);
        }
    }
}

/// Law: the same game goes on the same. Every iteration from the same arenas
/// leads to the same arenas, so a solve can be saved, loaded and continued.
pub proof fn law_same_games_go_on_the_same<S: Single>(
    f: Field<S>,
    g: Field<S>,
    ar: Arenas<S>,
    t: u32,
)
    requires
        f.wf(),
        g.wf(),
        same_field(f, g),
    ensures
        f.iterated(ar, t) == g.iterated(ar, t),
{
    lemma_through_same(f, g, ar, f.n());
    lemma_discounted_same(f, g, f.played_through(ar, f.n()), t, f.tree.nodes.len() as int);
}

} // verus!
