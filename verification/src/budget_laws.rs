//! What memory pays for, in exact numbers, and how reports go on.

use crate::budget;
use crate::game::SpotConfig;
use crate::nano;
use crate::nano::{Nano, BILLION};
use crate::num;
use crate::num::Num;
use crate::report::{Progress, ReportEvent, ReportPlan, ReportShown, ReportStep};
use crate::store::Storage;
use vstd::prelude::*;

verus! {

// ---------------------------------------------------------------------------
// Memory
// ---------------------------------------------------------------------------

/// Law: a megabyte is a million bytes.
pub proof fn law_a_megabyte_is_a_million_bytes(bytes: int)
    requires
        0 <= bytes,
        bytes * BILLION <= i64::MAX,
    ensures
        0 <= bytes * BILLION - 1_000_000 * budget::in_megabytes::<Nano>(bytes).count < 1_000_000,
{
    let b = BILLION as int;
    assert(nano::ten_to(0) == 1);
    let (y, d) = (bytes * b * b, 1_000_000 * b);
    assert(Nano::decimal_spec(bytes as i64, 0).count == bytes * b);
    assert(Nano::decimal_spec(1_000_000, 0).count == d);
    lemma_over_million(bytes * b);
    assert(0 <= y) by (nonlinear_arith)
        requires
            y == bytes * b * b,
            0 <= bytes,
            0 < b,
    ;
}

/// A number of billionths over a million.
proof fn lemma_over_million(x: int)
    requires
        0 <= x <= i64::MAX,
    ensures
        ({
            let q = x * BILLION / (1_000_000 * BILLION);
            0 <= x - 1_000_000 * q < 1_000_000 && 0 <= q <= x
        }),
{
    let b = BILLION as int;
    let q = x * b / (1_000_000 * b);
    assert(q == x / 1_000_000) by (nonlinear_arith)
        requires
            q == x * b / (1_000_000 * b),
            0 <= x,
            0 < b,
    ;
    vstd::arithmetic::div_mod::lemma_fundamental_div_mod(x, 1_000_000);
    vstd::arithmetic::div_mod::lemma_mod_bound(x, 1_000_000);
}

/// Law: loading needs the arenas, and four bytes for each number of the player
/// who has more of them.
pub proof fn law_loading_needs_four_bytes_a_number(arena_mb: Nano, entries: [u64; 2])
    requires
        4 * BILLION * entries[0] <= i64::MAX,
        4 * BILLION * entries[1] <= i64::MAX,
        0 <= arena_mb.count,
        arena_mb.count + 4 * BILLION * entries[0] <= i64::MAX,
        arena_mb.count + 4 * BILLION * entries[1] <= i64::MAX,
    ensures
        ({
            let more = budget::load_peak::<Nano>(arena_mb, entries).count - arena_mb.count;
            &&& 1_000_000 * (more + 1) > 4 * BILLION * entries[0]
            &&& 1_000_000 * (more + 1) > 4 * BILLION * entries[1]
            &&& 1_000_000 * more <= 4 * BILLION * entries[0] || 1_000_000 * more <= 4 * BILLION
                * entries[1]
        }),
{
    let b = BILLION as int;
    assert(nano::ten_to(0) == 1);
    let most = if entries[0] < entries[1] {
        entries[1] as int
    } else {
        entries[0] as int
    };
    assert(4 * b * most <= i64::MAX) by {
        assert(most == entries[0] || most == entries[1]);
    }
    assert(most <= 10_000_000_000 && most * b <= i64::MAX) by (nonlinear_arith)
        requires
            4 * b * most <= i64::MAX,
            b == 1_000_000_000,
            0 <= most,
    ;
    let (m, four) = (Nano::decimal_spec(most as i64, 0), Nano::decimal_spec(4, 0));
    assert(m.count == most * b);
    assert(four.count == 4 * b);
    assert(Nano::decimal_spec(1_000_000, 0).count == 1_000_000 * b);
    let y = most * b * (4 * b);
    let x = 4 * b * most;
    assert(y / b == x && 0 <= y) by (nonlinear_arith)
        requires
            y == most * b * (4 * b),
            x == 4 * b * most,
            0 <= most,
            0 < b,
    ;
    assert(m.times_spec(four).count == x);
    lemma_over_million(x);
    assert(4 * b * entries[0] <= x && 4 * b * entries[1] <= x) by (nonlinear_arith)
        requires
            x == 4 * b * most,
            entries[0] <= most,
            entries[1] <= most,
            0 < b,
    ;
    assert(0 <= x * b) by (nonlinear_arith)
        requires
            0 <= x,
            0 < b,
    ;
}

/// The least bytes that a node costs on average: a quarter of the nodes decide
/// between two actions, with eight bytes a hand and action; compressed, four,
/// and sixteen more a node.
pub open spec fn bytes_of(hands: int, storage: Storage) -> int {
    if storage is Compressed {
        2 * hands + 16
    } else {
        4 * hands
    }
}

proof fn lemma_node_cost(hands: int, storage: Storage)
    requires
        1 <= hands <= 1326,
    ensures
        budget::node_cost::<Nano>(hands, storage).count == BILLION * bytes_of(hands, storage),
{
    let b = BILLION as int;
    assert(nano::ten_to(0) == 1);
    assert(nano::ten_to(2) == 100) by {
        reveal_with_fuel(nano::ten_to, 3);
    }
    let quarter = Nano::decimal_spec(25, 2);
    let two = Nano::decimal_spec(2, 0);
    assert(quarter.count == 250_000_000 && two.count == 2 * b);
    assert(quarter.times_spec(two).count == 500_000_000);
    let h = Nano::decimal_spec(hands as i64, 0);
    assert(h.count == hands * b);
    let half = quarter.times_spec(two).times_spec(h);
    assert(500_000_000 * (hands * b) / b == 500_000_000 * hands) by (nonlinear_arith)
        requires
            0 < b,
    ;
    assert(half.count == 500_000_000 * hands);
    let k = if storage is Compressed {
        4int
    } else {
        8
    };
    let w = Nano::decimal_spec(k as i64, 0);
    assert(w.count == k * b);
    let x = 500_000_000 * hands;
    assert(x * (k * b) / b == x * k && 0 <= x * (k * b)) by (nonlinear_arith)
        requires
            0 < b,
            0 <= x,
            0 < k,
    ;
    assert(half.times_spec(w).count == x * k);
    assert(Nano::decimal_spec(16, 0).count == 16 * b);
    assert(Nano::decimal_spec(0, 0).count == 0);
}

/// Law: a tree may have a thousand nodes, or as many as four times the memory
/// cap pays for at the least cost a node, rounded up to a whole node, whichever
/// is more.
pub proof fn law_node_budgets_are_four_caps_worth(
    cap_mb: Nano,
    config: SpotConfig<Nano>,
    storage: Storage,
)
    requires
        0 <= cap_mb.count,
        4_000_000 * cap_mb.count <= i64::MAX,
        ({
            let board = budget::board_set(config.board@);
            let oop = budget::range_size::<Nano>(config.range_oop@, board);
            let ip = budget::range_size::<Nano>(config.range_ip@, board);
            budget::smaller_range(oop, ip) <= 1326
        }),
    ensures
        ({
            let board = budget::board_set(config.board@);
            let hands = budget::smaller_range(
                budget::range_size::<Nano>(config.range_oop@, board),
                budget::range_size::<Nano>(config.range_ip@, board),
            );
            let n = budget::nodes_worth::<Nano>(cap_mb, config, storage);
            let cost = BILLION * bytes_of(hands, storage);
            &&& n >= 1000
            &&& BILLION * (n * cost + cost) > BILLION * (4_000_000 * cap_mb.count)
            &&& n > 1000 ==> (n - 1) * cost <= 4_000_000 * cap_mb.count
        }),
{
    let b = BILLION as int;
    let board = budget::board_set(config.board@);
    let hands = budget::smaller_range(
        budget::range_size::<Nano>(config.range_oop@, board),
        budget::range_size::<Nano>(config.range_ip@, board),
    );
    lemma_node_cost(hands, storage);
    assert(nano::ten_to(0) == 1);
    let c = cap_mb.count as int;
    let million = Nano::decimal_spec(1_000_000, 0);
    let four = Nano::decimal_spec(4, 0);
    assert(million.count == 1_000_000 * b && four.count == 4 * b);
    assert(Nano::decimal_spec(0, 0).count == 0);
    let y = c * (1_000_000 * b);
    assert(y / b == 1_000_000 * c && 0 <= y) by (nonlinear_arith)
        requires
            y == c * (1_000_000 * b),
            0 < b,
            0 <= c,
    ;
    let one = num::larger_of(Nano::decimal_spec(0, 0), cap_mb).times_spec(million);
    assert(one.count == 1_000_000 * c);
    let z = (1_000_000 * c) * (4 * b);
    assert(z / b == 4_000_000 * c && 0 <= z) by (nonlinear_arith)
        requires
            z == (1_000_000 * c) * (4 * b),
            0 < b,
            0 <= c,
    ;
    let bytes = one.times_spec(four);
    let x = 4_000_000 * c;
    assert(bytes.count == x);
    let k = bytes_of(hands, storage);
    let cost = b * k;
    assert(x * b / cost == x / k) by (nonlinear_arith)
        requires
            cost == b * k,
            0 < b,
            0 < k,
            0 <= x,
    ;
    assert(0 <= x * b && 0 < cost) by (nonlinear_arith)
        requires
            cost == b * k,
            0 < b,
            0 < k,
            0 <= x,
    ;
    vstd::arithmetic::div_mod::lemma_fundamental_div_mod(x, k);
    vstd::arithmetic::div_mod::lemma_mod_bound(x, k);
    let q = x / k;
    assert(0 <= q <= x) by (nonlinear_arith)
        requires
            x == k * q + x % k,
            0 <= x % k < k,
            1 <= k,
            0 <= x,
    ;
    let ratio = bytes.over_spec(budget::node_cost::<Nano>(hands, storage));
    assert(ratio.count == q);
    lemma_rounded_up(ratio);
    let n = budget::nodes_worth::<Nano>(cap_mb, config, storage);
    let up = budget::rounded_up(ratio);
    assert(n == if up < 1000 {
        1000
    } else {
        up
    });
    // up - 1 < q / b <= up
    assert(n * b >= q);
    assert(n * cost + cost > x) by (nonlinear_arith)
        requires
            n * b >= q,
            x == k * q + x % k,
            x % k < k,
            cost == b * k,
            0 < k,
            1 <= b,
    ;
    assert(b * (n * cost + cost) > b * x) by (nonlinear_arith)
        requires
            n * cost + cost > x,
            0 < b,
    ;
    if n > 1000 {
        assert((up - 1) * cost <= x) by (nonlinear_arith)
            requires
                (up - 1) * b <= q,
                x >= k * q,
                cost == b * k,
                0 < k,
        ;
    }
}

proof fn lemma_rounded_up(x: Nano)
    requires
        0 <= x.count,
    ensures
        ({
            let n = budget::rounded_up(x);
            &&& n * BILLION >= x.count
            &&& n > 0 ==> (n - 1) * BILLION < x.count
        }),
{
    let b = BILLION as int;
    let c = -(x.count as int);
    vstd::arithmetic::div_mod::lemma_fundamental_div_mod(c, b);
    vstd::arithmetic::div_mod::lemma_mod_bound(c, b);
    assert(x.negated_spec().count == c);
    assert(x.negated_spec().floored_spec() == c / b);
}

// ---------------------------------------------------------------------------
// Reports
// ---------------------------------------------------------------------------

/// Law: a report goes on flop by flop: a kept row moves it on by one flop and
/// one row, and after every eighth row the rows are written. A flop that is
/// solved is locked first where a player is modelled, and adapted to; a solve
/// that was stopped ends the report as stopped.
pub proof fn law_reports_go_on_flop_by_flop(
    plan: ReportPlan<Nano>,
    run: Progress,
    st: ReportShown,
    pct: Nano,
)
    requires
        plan.within(run),
        run.at < plan.flops@.len() < usize::MAX,
    ensures
        ({
            let (step, next, _) = plan.next(run, st, ReportEvent::Kept);
            &&& next.at == run.at + 1 && next.rows == run.rows + 1
            &&& next.stopped == run.stopped && next.error == run.error
            &&& plan.within(next)
            &&& step == if (run.rows + 1) % 8 == 0 {
                ReportStep::Write
            } else {
                ReportStep::Again
            }
        }),
        ({
            let (step, next, _) = plan.next(run, st, ReportEvent::Solved { pct });
            let (last, then, _) = plan.next(run, st, ReportEvent::Readapted { pct });
            &&& pct.count >= 0 ==> next == run && then == run && last == ReportStep::KeepRow
            &&& pct.count >= 0 ==> step == if plan.villain {
                ReportStep::Lock
            } else {
                ReportStep::KeepRow
            }
            &&& pct.count < 0 ==> next.stopped && then.stopped && step == (ReportStep::Conclude {
                complete: false,
            }) && last == (ReportStep::Conclude { complete: false })
        }),
        plan.next(run, st, ReportEvent::Locked).0 == ReportStep::Readapt,
{
    assert(nano::ten_to(0) == 1);
}

/// Law: an error ends a report, as not complete, and the report tells it.
pub proof fn law_errors_end_reports(
    plan: ReportPlan<Nano>,
    run: Progress,
    st: ReportShown,
    error: String,
    arena_mb: Nano,
)
    requires
        error@.len() > 0,
    ensures
        ({
            let failed = ReportStep::Conclude { complete: false };
            let (a, ra, _) = plan.next(run, st, ReportEvent::Refused { error });
            let (b, rb, _) = plan.next(run, st, ReportEvent::Unbuildable { error });
            let (c, rc, _) = plan.next(run, st, ReportEvent::LockFailed { error });
            let (d, rd, _) = plan.next(run, st, ReportEvent::ViewFailed { error });
            let n = error@.len();
            &&& a == failed && b == failed && c == failed && d == failed
            &&& error@ == ra.error && error@ == rd.error
            &&& rb.error.len() >= n && rb.error.skip(rb.error.len() - n) == error@
            &&& rc.error.len() >= n && rc.error.skip(rc.error.len() - n) == error@
        }),
        ({
            let (step, next, _) = plan.next(run, st, ReportEvent::Built { arena_mb });
            if arena_mb.count > plan.cap_mb.count {
                step == (ReportStep::Conclude { complete: false }) && next.error.len() > 0
            } else {
                step == ReportStep::Solve && next == run
            }
        }),
{
    reveal_strlit(": ");
    reveal_strlit(": tree too large (");
    reveal_strlit("villain lock failed on ");
    let n = error@.len();
    let board = plan.flops@[run.at as int]@;
    let rb = board + ": "@ + error@;
    assert(rb.skip(rb.len() - n) =~= error@);
    let rc = "villain lock failed on "@ + board + (": "@ + error@);
    assert(rc.skip(rc.len() - n) =~= error@);
}

} // verus!
