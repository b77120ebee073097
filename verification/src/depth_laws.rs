//! Pots that are shared before the flop, in exact numbers: how deep the stacks
//! are behind them, who acts when, and how much of its equity a seat realizes.

use crate::betting::Round;
use crate::nano;
use crate::nano::{Nano, BILLION};
use crate::num;
use crate::num::Num;
use crate::play_laws;
use crate::preflop::PreflopConfig;
use crate::preflop_build;
use crate::preflop_tree;
use crate::seats;
use crate::weigh_laws;
use crate::weigh_laws::size;
use vstd::prelude::*;

verus! {

// ---------------------------------------------------------------------------
// Pots
// ---------------------------------------------------------------------------

/// Law: every pot holds what the seats have put in.
pub proof fn law_pots_hold_what_seats_put_in(
    cfg: PreflopConfig<Nano>,
    n: int,
    st: Round<Nano>,
    actor: int,
    arena_len: int,
)
    requires
        play_laws::none_negative(st.invested),
        play_laws::counted(st.invested) <= i64::MAX,
    ensures
        preflop_build::won_knot::<Nano>(n, st).pot.count == play_laws::counted(st.invested),
        preflop_build::shared_knot::<Nano>(cfg, n, st).pot.count == play_laws::counted(st.invested),
        preflop_build::acting_knot::<Nano>(cfg, n, st, actor, arena_len).pot.count
            == play_laws::counted(st.invested),
{
    play_laws::lemma_total_counted(st.invested);
}

proof fn lemma_live_bits(n: u32, f: u32, i: u32)
    by (bit_vector)
    requires
        n <= 9,
        i < n,
    ensures
        ((((1u32 << n) - 1) as u32) & !f) & (1u32 << i) != 0 <==> f & (1u32 << i) == 0,
{
}

proof fn lemma_lone_seat(set: u32, n: int, i: int)
    requires
        0 <= i < n,
        seats::seats_in(set, n) == 1,
        seats::seated(set, i),
    ensures
        seats::first_seat(set, n) == i,
    decreases n,
{
    seats::lemma_first_seat(set, n);
    seats::lemma_first_seat(set, n - 1);
    seats::lemma_seats_in(set, n - 1);
    if i < n - 1 {
        if seats::seated(set, n - 1) {
            assert(seats::first_seat(set, n - 1) == n - 1);
            assert(!seats::seated(set, i));
        }
        lemma_lone_seat(set, n - 1, i);
    } else {
        assert(seats::seats_in(set, n - 1) == 0);
    }
}

/// Law: where all seats but one have folded, that seat wins the pot.
pub proof fn law_the_last_seat_left_wins(n: int, st: Round<Nano>, i: int)
    requires
        2 <= n <= 9,
        preflop_build::decided(n, st),
        0 <= i < n,
    ensures
        !seats::seated(st.folded, i) <==> preflop_build::won_knot::<Nano>(n, st).winner == i,
        seats::seated(preflop_build::won_knot::<Nano>(n, st).live, i) <==> !seats::seated(
            st.folded,
            i,
        ),
{
    let live = seats::table_of(n) & !st.folded;
    lemma_live_bits(n as u32, st.folded, i as u32);
    seats::lemma_first_seat(live, n);
    if seats::seated(live, i) {
        lemma_lone_seat(live, n, i);
    }
}

// ---------------------------------------------------------------------------
// Depth
// ---------------------------------------------------------------------------

/// What a seat has left behind: its stack less what it has put in beside the
/// ante.
pub open spec fn behind(cfg: PreflopConfig<Nano>, invested: Seq<Nano>, i: int) -> int {
    cfg.stack.count + cfg.ante.count - invested[i].count
}

/// Whether amounts stay in range, and no seat has put in more than it has.
pub open spec fn covered(cfg: PreflopConfig<Nano>, invested: Seq<Nano>) -> bool {
    &&& 0 <= cfg.ante.count
    &&& 0 <= cfg.stack.count
    &&& cfg.stack.count + cfg.ante.count <= i64::MAX
    &&& forall|i: int|
        0 <= i < invested.len() ==> 0 <= (#[trigger] invested[i]).count <= cfg.stack.count
            + cfg.ante.count
}

proof fn lemma_least_left(cfg: PreflopConfig<Nano>, live: u32, invested: Seq<Nano>, k: int, i: int)
    requires
        covered(cfg, invested),
        0 <= k <= invested.len(),
        0 <= i < invested.len(),
        seats::seated(live, i),
        forall|j: int|
            0 <= j < invested.len() && seats::seated(live, j) ==> behind(cfg, invested, i)
                <= #[trigger] behind(cfg, invested, j),
    ensures
        match preflop_tree::least_left(cfg, live, invested, k) {
            Some(least) => behind(cfg, invested, i) <= least.count && (i < k ==> least.count
                == behind(cfg, invested, i)),
            None => k <= i,
        },
    decreases k,
{
    if k > 0 {
        lemma_least_left(cfg, live, invested, k - 1, i);
        assert(invested[k - 1].count <= cfg.stack.count + cfg.ante.count);
        if seats::seated(live, k - 1) {
            assert(behind(cfg, invested, i) <= behind(cfg, invested, k - 1));
            let left = cfg.stack.minus_spec(invested[k - 1]).plus_spec(cfg.ante);
            assert(left.count == behind(cfg, invested, k - 1));
        }
    }
}

/// Law: how deep stacks are behind a pot is the least that a live seat has left,
/// over the pot, up to rounding.
pub proof fn law_depth_is_the_shortest_stack_per_pot(
    cfg: PreflopConfig<Nano>,
    live: u32,
    invested: Seq<Nano>,
    pot: Nano,
    i: int,
)
    requires
        covered(cfg, invested),
        0 < pot.count,
        0 <= i < invested.len(),
        seats::seated(live, i),
        forall|j: int|
            0 <= j < invested.len() && seats::seated(live, j) ==> behind(cfg, invested, i)
                <= #[trigger] behind(cfg, invested, j),
        behind(cfg, invested, i) * BILLION <= i64::MAX * pot.count,
    ensures
        ({
            let deep = preflop_tree::depth(cfg, live, invested, pot).count;
            0 <= behind(cfg, invested, i) * BILLION - deep * pot.count < pot.count
        }),
{
    let b = BILLION as int;
    assert(nano::ten_to(0) == 1);
    lemma_least_left(cfg, live, invested, invested.len() as int, i);
    assert(invested[i].count <= cfg.stack.count + cfg.ante.count);
    let x = behind(cfg, invested, i);
    let (y, k) = (x * b, pot.count as int);
    assert(0 <= y) by (nonlinear_arith)
        requires
            y == x * b,
            0 <= x,
            0 < b,
    ;
    vstd::arithmetic::div_mod::lemma_fundamental_div_mod(y, k);
    vstd::arithmetic::div_mod::lemma_mod_bound(y, k);
    vstd::arithmetic::div_mod::lemma_div_pos_is_pos(y, k);
    let q = y / k;
    assert(q <= i64::MAX) by (nonlinear_arith)
        requires
            k * q <= i64::MAX * k,
            0 < k,
    ;
    let least = preflop_tree::least_left(cfg, live, invested, invested.len() as int)->Some_0;
    assert(least.over_spec(pot).count == q);
    assert(q * k == k * q) by (nonlinear_arith);
}

// ---------------------------------------------------------------------------
// Places and realization
// ---------------------------------------------------------------------------

/// Law: the places of seats in the order of play run from minus a half to plus a
/// half in even steps: the first has the one, the last the other, and twice the
/// number of steps in between counts what a place is off the middle.
pub proof fn law_places_are_spread_evenly(rank: int, m: int)
    requires
        2 <= m <= 9,
        0 <= rank < m,
    ensures
        size(
            2 * (m - 1) * preflop_tree::place_of::<Nano>(rank, m).count - BILLION * (2 * rank - (m
                - 1)),
        ) <= 2 * (m - 1),
        rank == 0 ==> preflop_tree::place_of::<Nano>(rank, m).count == -(BILLION / 2),
        rank == m - 1 ==> preflop_tree::place_of::<Nano>(rank, m).count == BILLION / 2,
        size(preflop_tree::place_of::<Nano>(rank, m).count as int) <= BILLION / 2,
{
    let b = BILLION as int;
    assert(nano::ten_to(0) == 1);
    assert(nano::ten_to(1) == 10) by {
        reveal_with_fuel(nano::ten_to, 2);
    }
    let k = m - 1;
    let y = rank * b * b;
    let d = k * b;
    assert(Nano::decimal_spec(5, 1).count == 500_000_000);
    assert(Nano::decimal_spec(rank as i64, 0).count == rank * b);
    assert(Nano::decimal_spec((m - 1) as i64, 0).count == d);
    let q = y / d;
    assert(q == rank * b / k) by (nonlinear_arith)
        requires
            q == y / d,
            y == rank * b * b,
            d == k * b,
            1 <= k,
            0 < b,
            0 <= rank,
    ;
    let z = rank * b;
    vstd::arithmetic::div_mod::lemma_fundamental_div_mod(z, k);
    vstd::arithmetic::div_mod::lemma_mod_bound(z, k);
    assert(0 <= q <= b) by (nonlinear_arith)
        requires
            z == k * q + z % k,
            0 <= z % k < k,
            z == rank * b,
            0 <= rank <= k,
            1 <= k,
            0 < b,
    ;
    assert(rank == k ==> q == b) by (nonlinear_arith)
        requires
            z == k * q + z % k,
            0 <= z % k < k,
            z == rank * b,
            1 <= k,
            q <= b,
    ;
    assert(rank == 0 ==> q == 0) by (nonlinear_arith)
        requires
            z == k * q + z % k,
            0 <= z % k < k,
            z == rank * b,
            1 <= k,
            0 <= q,
    ;
    assert(0 <= y && 0 < d) by (nonlinear_arith)
        requires
            y == rank * b * b,
            d == k * b,
            0 <= rank,
            1 <= k,
            0 < b,
    ;
    let ratio = Nano::decimal_spec(rank as i64, 0).over_spec(
        Nano::decimal_spec((m - 1) as i64, 0),
    );
    assert(ratio.count == q);
    let p = preflop_tree::place_of::<Nano>(rank, m).count as int;
    assert(p == q - 500_000_000);
    assert(2 * k * p == 2 * (k * q) - k * b) by (nonlinear_arith)
        requires
            p == q - 500_000_000,
            b == 1_000_000_000,
    ;
    assert(b * (2 * rank - k) == 2 * z - k * b) by (nonlinear_arith)
        requires
            z == rank * b,
    ;
}

/// Law: where equity counts raw, or nothing is left to bet, a seat realizes all
/// of its equity. Else it realizes the more the later it acts and the deeper the
/// stacks are, up to eight pots: of sixteen percent times the depth over eight
/// pots, its place tells how much is added or lost. Up to rounding.
pub proof fn law_later_seats_realize_more(raw: bool, depth: Nano, rank: int, m: int)
    requires
        2 <= m <= 9,
        0 <= rank < m,
        0 <= depth.count,
    ensures
        raw || depth.count <= 1 ==> preflop_tree::realized::<Nano>(raw, depth, rank, m).count
            == BILLION,
        !raw && depth.count > 1 ==> ({
            let deep = if depth.count < 8 * BILLION {
                depth.count as int
            } else {
                8 * BILLION
            };
            let more = preflop_tree::realized::<Nano>(raw, depth, rank, m).count - BILLION;
            &&& size(
                BILLION * (50 * more) - preflop_tree::place_of::<Nano>(rank, m).count * deep,
            ) <= 104 * BILLION
            &&& size(more) <= 80_000_000
        }),
{
    let b = BILLION as int;
    assert(nano::ten_to(0) == 1);
    assert(nano::ten_to(2) == 100) by {
        reveal_with_fuel(nano::ten_to, 3);
    }
    assert(nano::ten_to(9) == 1_000_000_000) by {
        reveal_with_fuel(nano::ten_to, 10);
    }
    law_places_are_spread_evenly(rank, m);
    let place = preflop_tree::place_of::<Nano>(rank, m);
    let p = place.count as int;
    let sixteen = Nano::decimal_spec(16, 2);
    let eight = Nano::decimal_spec(8, 0);
    assert(sixteen.count == 160_000_000);
    assert(eight.count == 8 * b);
    assert(Nano::decimal_spec(1, 9).count == 1);
    assert(Nano::decimal_spec(1, 0).count == b);
    if !raw && depth.count > 1 {
        let deep = if depth.count < 8 * b {
            depth.count as int
        } else {
            8 * b
        };
        let least = num::smaller_of(depth, eight);
        assert(least.count == deep);
        let part = least.over_spec(eight);
        let w = deep * b / (8 * b);
        assert(w == deep / 8) by (nonlinear_arith)
            requires
                w == deep * b / (8 * b),
                0 <= deep,
                0 < b,
        ;
        assert(0 <= deep * b) by (nonlinear_arith)
            requires
                0 <= deep,
                0 < b,
        ;
        assert(part.count == w);
        let x = 160_000_000 * p;
        weigh_laws::lemma_times_near(sixteen, place, b);
        weigh_laws::lemma_cut_near(x, b);
        let t = sixteen.times_spec(place).count as int;
        assert(size(t) <= 80_000_000);
        let y = t * w;
        assert(size(y) <= 80_000_000 * b) by (nonlinear_arith)
            requires
                y == t * w,
                -80_000_000 <= t <= 80_000_000,
                0 <= w <= b,
                size(y) == y || size(y) == -y,
        ;
        weigh_laws::lemma_times_near(sixteen.times_spec(place), part, b);
        weigh_laws::lemma_cut_near(y, b);
        let u = sixteen.times_spec(place).times_spec(part).count as int;
        let more = preflop_tree::realized::<Nano>(raw, depth, rank, m).count - b;
        assert(more == u);
        // 50 b u = 50 t w + e1, and 50 t = 8 p + e2, 8 w = deep + e3
        let e1 = b * u - t * w;
        let e2 = b * t - x;
        let e3 = deep - 8 * w;
        let r2 = 50 * t - 8 * p;
        assert(-50 <= r2 <= 50) by (nonlinear_arith)
            requires
                e2 == b * t - x,
                x == 160_000_000 * p,
                r2 == 50 * t - 8 * p,
                b == 1_000_000_000,
                -b <= e2 <= b,
        ;
        assert(50 * (b * u) - p * deep == 50 * e1 + r2 * w - p * e3) by (nonlinear_arith)
            requires
                e1 == b * u - t * w,
                r2 == 50 * t - 8 * p,
                e3 == deep - 8 * w,
        ;
        assert(size(r2 * w) <= 50 * b && size(p * e3) <= 4 * b)
            by (nonlinear_arith)
            requires
                -50 <= r2 <= 50,
                0 <= w <= b,
                -(b / 2) <= p <= b / 2,
                0 <= e3 < 8,
                b == 1_000_000_000,
                size(r2 * w) == r2 * w || size(r2 * w) == -(r2 * w),
                size(p * e3) == p * e3 || size(p * e3) == -(p * e3),
        ;
        assert(b * (50 * more) == 50 * (b * u)) by (nonlinear_arith)
            requires
                more == u,
        ;
    }
}

} // verus!
