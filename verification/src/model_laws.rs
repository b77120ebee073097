//! How modelled seats and profiles play, in exact numbers.

use crate::aim_laws;
use crate::betting::{Act, PKind};
use crate::nano;
use crate::nano::{Nano, BILLION};
use crate::num::Num;
use crate::play_laws;
use crate::profile;
use crate::profile::{Menu, PostflopStats, ProfileLockRow};
use crate::profile_lock;
use crate::runouts;
use crate::seat_models;
use crate::seat_models::{BucketPolicy, RaiseSize};
use crate::strategy;
use crate::tree::Action;
use crate::weigh_laws;
use crate::weigh_laws::size;
use vstd::prelude::*;

verus! {

// ---------------------------------------------------------------------------
// Seats before the flop
// ---------------------------------------------------------------------------

/// Whether one of the actions is of a kind.
pub open spec fn can(acts: Seq<Act<Nano>>, kind: PKind) -> bool {
    exists|k: int| 0 <= k < acts.len() && (#[trigger] acts[k]).kind == kind
}

proof fn lemma_first_of(acts: Seq<Act<Nano>>, kind: PKind, from: int)
    requires
        0 <= from,
    ensures
        match seat_models::first_of(acts, kind, from) {
            Some(i) => from <= i < acts.len() && acts[i].kind == kind,
            None => forall|k: int| from <= k < acts.len() ==> (#[trigger] acts[k]).kind != kind,
        },
    decreases acts.len() - from,
{
    if from < acts.len() {
        lemma_first_of(acts, kind, from + 1);
    }
}

proof fn lemma_raise_among(acts: Seq<Act<Nano>>, most: bool, k: int)
    requires
        0 <= k <= acts.len(),
    ensures
        match seat_models::raise_among(acts, most, k) {
            Some(i) => {
                &&& 0 <= i < k
                &&& acts[i].kind is Raise
                &&& forall|j: int|
                    0 <= j < k && (#[trigger] acts[j]).kind is Raise ==> if most {
                        acts[j].to.count <= acts[i].to.count
                    } else {
                        acts[i].to.count <= acts[j].to.count
                    }
            },
            None => forall|j: int| 0 <= j < k ==> !((#[trigger] acts[j]).kind is Raise),
        },
    decreases k,
{
    if k > 0 {
        lemma_raise_among(acts, most, k - 1);
    }
}

/// Law: a modelled seat calls where it can, and checks where there is nothing to
/// call; it raises to the smallest or the largest amount short of all-in, as its
/// size says; it jams where it can. Where there is no raise it jams, where there
/// is no jam it makes the largest raise, and where there is neither it calls.
pub proof fn law_models_take_their_lines(acts: Seq<Act<Nano>>, j: int)
    requires
        0 <= j < acts.len(),
    ensures
        ({
            let call = seat_models::call_line(acts);
            let jam = seat_models::jam_line(acts);
            let least = seat_models::raise_line(acts, RaiseSize::Min);
            let most = seat_models::raise_line(acts, RaiseSize::Max);
            &&& 0 <= call < acts.len() && 0 <= jam < acts.len()
            &&& 0 <= least < acts.len() && 0 <= most < acts.len()
            &&& can(acts, PKind::Call) ==> acts[call].kind is Call
            &&& !can(acts, PKind::Call) && can(acts, PKind::Check) ==> acts[call].kind is Check
            &&& can(acts, PKind::Jam) ==> acts[jam].kind is Jam
            &&& can(acts, PKind::Raise) ==> acts[least].kind is Raise && acts[most].kind is Raise
            &&& acts[j].kind is Raise ==> acts[least].to.count <= acts[j].to.count
                && acts[j].to.count <= acts[most].to.count
            &&& !can(acts, PKind::Raise) ==> least == jam && most == jam
            &&& !can(acts, PKind::Jam) && can(acts, PKind::Raise) ==> jam == most
            &&& !can(acts, PKind::Jam) && !can(acts, PKind::Raise) ==> jam == call
            &&& seat_models::raise_line(acts, RaiseSize::Jam) == jam
        }),
{
    lemma_first_of(acts, PKind::Call, 0);
    lemma_first_of(acts, PKind::Check, 0);
    lemma_first_of(acts, PKind::Jam, 0);
    lemma_raise_among(acts, true, acts.len() as int);
    lemma_raise_among(acts, false, acts.len() as int);
}

/// Whether a policy's shares are shares of one.
pub open spec fn shared(policy: BucketPolicy<Nano>, h: int) -> bool {
    &&& 0 <= policy.call@[h].count
    &&& 0 <= policy.raise@[h].count
    &&& 0 <= policy.jam@[h].count
    &&& policy.call@[h].count + policy.raise@[h].count + policy.jam@[h].count <= BILLION
}

/// What a class plays of an action: what its lines that end there take, the rest
/// going to the first action.
pub open spec fn share_on(acts: Seq<Act<Nano>>, policy: BucketPolicy<Nano>, a: int, h: int) -> int {
    let (c, r, j) = (
        policy.call@[h].count as int,
        policy.raise@[h].count as int,
        policy.jam@[h].count as int,
    );
    (if a == 0 {
        BILLION - c - r - j
    } else {
        0
    }) + (if a == seat_models::call_line(acts) {
        c
    } else {
        0
    }) + (if a == seat_models::raise_line(acts, policy.raise_size) {
        r
    } else {
        0
    }) + (if a == seat_models::jam_line(acts) {
        j
    } else {
        0
    })
}

proof fn lemma_put_on(acts: Seq<Act<Nano>>, policy: BucketPolicy<Nano>, a: int, h: int)
    requires
        shared(policy, h),
    ensures
        seat_models::put_on::<Nano, Nano>(acts, policy, a, h).count == share_on(
            acts,
            policy,
            a,
            h,
        ),
        0 <= share_on(acts, policy, a, h) <= BILLION,
{
    assert(nano::ten_to(0) == 1);
    assert(Nano::decimal_spec(0, 0).count == 0);
    assert(Nano::decimal_spec(1, 0).count == BILLION);
}

/// The shares of a class over the first `k` actions.
proof fn lemma_shares_sum(
    acts: Seq<Act<Nano>>,
    policy: BucketPolicy<Nano>,
    s: Seq<Nano>,
    h: int,
    k: int,
)
    requires
        shared(policy, h),
        0 <= k <= acts.len(),
        1 <= acts.len(),
        s.len() == acts.len(),
        forall|a: int| 0 <= a < s.len() ==> (#[trigger] s[a]).count == share_on(acts, policy, a, h),
    ensures
        ({
            let (c, r, j) = (
                policy.call@[h].count as int,
                policy.raise@[h].count as int,
                policy.jam@[h].count as int,
            );
            play_laws::counted(s.take(k)) == (if 0 < k {
                BILLION - c - r - j
            } else {
                0
            }) + (if 0 <= seat_models::call_line(acts) < k {
                c
            } else {
                0
            }) + (if 0 <= seat_models::raise_line(acts, policy.raise_size) < k {
                r
            } else {
                0
            }) + (if 0 <= seat_models::jam_line(acts) < k {
                j
            } else {
                0
            })
        }),
    decreases k,
{
    if k > 0 {
        lemma_shares_sum(acts, policy, s, h, k - 1);
        assert(s.take(k).drop_last() =~= s.take(k - 1));
        assert(s.take(k).last() == s[k - 1]);
    } else {
        assert(s.take(0) =~= Seq::<Nano>::empty());
    }
}

/// Law: a modelled seat plays its lines as often as its policy says, class by
/// class, and folds or checks with the rest.
pub proof fn law_models_play_their_shares(
    acts: Seq<Act<Nano>>,
    policy: BucketPolicy<Nano>,
    a: int,
    h: int,
)
    requires
        1 <= acts.len(),
        0 <= a < acts.len(),
        0 <= h < 169,
        shared(policy, h),
    ensures
        seat_models::played_by::<Nano, Nano>(acts, policy)[strategy::cell(169, a, h)].count
            == share_on(acts, policy, a, h),
{
    let b = BILLION as int;
    let na = acts.len() as int;
    let block = Seq::new(
        acts.len() * 169,
        |k: int| seat_models::put_on::<Nano, Nano>(acts, policy, k / 169, k % 169),
    );
    let col = strategy::column(block, na, 169, h);
    assert forall|x: int| 0 <= x < na implies (#[trigger] col[x]).count == share_on(
        acts,
        policy,
        x,
        h,
    ) by {
        strategy::lemma_cell(na, 169, x, h);
        lemma_put_on(acts, policy, x, h);
    }
    assert forall|x: int| 0 <= x < na implies (#[trigger] col[x]).count >= 0 by {
        lemma_put_on(acts, policy, x, h);
    }
    law_models_take_their_lines(acts, a);
    lemma_raise_line(acts, policy.raise_size);
    lemma_shares_sum(acts, policy, col, h, na);
    assert(col.take(na) =~= col);
    assert(play_laws::counted(col) == b);
    play_laws::lemma_total_counted(col);
    strategy::lemma_cell(na, 169, a, h);
    lemma_put_on(acts, policy, a, h);
    assert(nano::ten_to(12) == 1_000_000_000_000) by {
        reveal_with_fuel(nano::ten_to, 13);
    }
    assert(Nano::decimal_spec(1, 12).count == 0);
    let x = share_on(acts, policy, a, h);
    assert(x * b / b == x) by (nonlinear_arith)
        requires
            0 < b,
    ;
    assert(0 <= x * b) by (nonlinear_arith)
        requires
            0 <= x,
            0 < b,
    ;
}

proof fn lemma_raise_line(acts: Seq<Act<Nano>>, size: RaiseSize)
    requires
        1 <= acts.len(),
    ensures
        0 <= seat_models::raise_line(acts, size) < acts.len(),
{
    law_models_take_their_lines(acts, 0);
}

// ---------------------------------------------------------------------------
// What is told of a profile
// ---------------------------------------------------------------------------

/// The situation that a decision counts towards as a bet or raise: facing a bet
/// the sixth; else the street's own with the initiative, and the seventh
/// without.
pub open spec fn bold_slot(street: int, facing: bool, leads: bool) -> int {
    if facing {
        6
    } else if leads {
        street
    } else {
        7
    }
}

/// Law: the targets that a profile's report shows are those that its locks aim
/// at: of a fold on each street, of a raise as far as folds leave room, and of a
/// bet with and without the initiative.
pub proof fn law_shown_targets_are_the_aims(
    stats: PostflopStats<Nano>,
    st: int,
    menu: Menu,
    leads: bool,
)
    requires
        0 <= st < 3,
        menu.preferred is Some,
    ensures
        ({
            let fold = aim_laws::share_of(profile_lock::slot_target(stats, 3 + st));
            let raise = aim_laws::share_of(
                profile_lock::slot_target(stats, bold_slot(st, true, leads)),
            );
            let bet = aim_laws::share_of(
                profile_lock::slot_target(stats, bold_slot(st, false, leads)),
            );
            let (f, r) = profile::facing_aims(stats, st, menu);
            &&& f.count == fold
            &&& r.count == if raise < BILLION - fold {
                raise
            } else {
                BILLION - fold
            }
            &&& profile::betting_aim(stats, st, menu, leads).count == bet
        }),
{
    aim_laws::lemma_share(stats.fold_to_bet[st]);
    aim_laws::lemma_share(stats.raise_bet);
    aim_laws::lemma_share(stats.cbet[st]);
    aim_laws::lemma_share(stats.donk);
    assert(nano::ten_to(0) == 1);
    assert(Nano::decimal_spec(1, 0).count == BILLION);
}

/// What hands take of the marked ones among the first `k` actions, each weighed
/// by its reach.
pub open spec fn takes_of(reach: Seq<Nano>, sigma: Seq<Nano>, marks: Seq<bool>, k: int) -> int
    decreases k,
{
    if k <= 0 {
        0
    } else {
        takes_of(reach, sigma, marks, k - 1) + if marks[k - 1] {
            weigh_laws::weighed(
                reach,
                reach.len() as int,
                |i: int| sigma[strategy::cell(reach.len() as int, k - 1, i)].count as int,
            )
        } else {
            0
        }
    }
}

/// Whether shares are shares of one, and reach adds up in range action by
/// action.
pub open spec fn countable(reach: Seq<Nano>, sigma: Seq<Nano>, na: int) -> bool {
    &&& 0 <= na
    &&& sigma.len() == na * reach.len()
    &&& play_laws::none_negative(reach)
    &&& play_laws::counted(reach) <= i64::MAX
    &&& na * play_laws::counted(reach) <= i64::MAX
    &&& na * BILLION <= i64::MAX
    &&& forall|k: int| 0 <= k < sigma.len() ==> 0 <= (#[trigger] sigma[k]).count <= BILLION
}

proof fn lemma_adding(
    sum: Nano,
    reach: Seq<Nano>,
    sigma: Seq<Nano>,
    na: int,
    a: int,
    n: int,
)
    requires
        countable(reach, sigma, na),
        0 <= a < na,
        0 <= n <= reach.len(),
        0 <= sum.count,
        sum.count + play_laws::counted(reach) <= i64::MAX,
    ensures
        ({
            let nh = reach.len() as int;
            let t = profile_lock::adding_hands::<Nano>(sum, reach, sigma, a, n).count as int;
            &&& sum.count <= t <= sum.count + play_laws::reach_counted(reach, n)
            &&& size(
                BILLION * (t - sum.count) - weigh_laws::weighed(
                    reach,
                    n,
                    |i: int| sigma[strategy::cell(nh, a, i)].count as int,
                ),
            ) <= n * BILLION
        }),
    decreases n,
{
    let nh = reach.len() as int;
    let b = BILLION as int;
    play_laws::lemma_taken_bound(reach, n);
    if n > 0 {
        lemma_adding(sum, reach, sigma, na, a, n - 1);
        assert(reach.take(n).drop_last() =~= reach.take(n - 1));
        let i = n - 1;
        strategy::lemma_cell(na, nh, a, i);
        let share = sigma[strategy::cell(nh, a, i)];
        let (x, y) = (reach[i].count as int, share.count as int);
        assert(0 <= y <= b);
        assert(x >= 0);
        assert(0 <= x * y <= x * b) by (nonlinear_arith)
            requires
                0 <= x,
                0 <= y <= b,
        ;
        weigh_laws::lemma_times_near(reach[i], share, x);
        weigh_laws::lemma_cut_near(x * y, b);
        vstd::arithmetic::div_mod::lemma_div_pos_is_pos(x * y, b);
    } else {
        assert(reach.take(0) =~= Seq::<Nano>::empty());
    }
}

proof fn lemma_taking(reach: Seq<Nano>, sigma: Seq<Nano>, marks: Seq<bool>, k: int)
    requires
        countable(reach, sigma, marks.len() as int),
        0 <= k <= marks.len(),
    ensures
        ({
            let t = profile_lock::taking::<Nano>(reach, sigma, marks, k).count as int;
            &&& 0 <= t <= k * play_laws::counted(reach)
            &&& size(BILLION * t - takes_of(reach, sigma, marks, k)) <= k * (reach.len() * BILLION)
        }),
    decreases k,
{
    let b = BILLION as int;
    let c = play_laws::counted(reach);
    let unit = reach.len() * b;
    assert(nano::ten_to(0) == 1);
    assert(0 <= unit) by (nonlinear_arith)
        requires
            unit == reach.len() * b,
            0 < b,
    ;
    if k > 0 {
        lemma_taking(reach, sigma, marks, k - 1);
        play_laws::lemma_counted_bound(reach);
        let t0 = profile_lock::taking::<Nano>(reach, sigma, marks, k - 1);
        assert(k * c == (k - 1) * c + c && k * c <= marks.len() * c && k * unit == (k - 1) * unit
            + unit) by (nonlinear_arith)
            requires
                k <= marks.len(),
                0 <= c,
        ;
        if marks[k - 1] {
            lemma_adding(t0, reach, sigma, marks.len() as int, k - 1, reach.len() as int);
            assert(reach.take(reach.len() as int) =~= reach);
            let t1 = profile_lock::taking::<Nano>(reach, sigma, marks, k).count as int;
            assert(b * t1 == b * (t1 - t0.count) + b * t0.count) by (nonlinear_arith);
        }
    } else {
        assert(0 * c == 0 && 0 * unit == 0);
    }
}

/// Law: how often a range takes one of some actions is what its hands take of
/// them, weighed by reach, over all of its reach, up to rounding.
pub proof fn law_rates_are_shares_of_the_reach(
    reach: Seq<Nano>,
    sigma: Seq<Nano>,
    marks: Seq<bool>,
)
    requires
        countable(reach, sigma, marks.len() as int),
        0 < play_laws::counted(reach),
    ensures
        ({
            let rate = profile_lock::rate::<Nano>(reach, sigma, marks).count;
            let mass = play_laws::counted(reach);
            &&& 0 <= rate <= marks.len() * BILLION
            &&& size(
                rate * mass - takes_of(reach, sigma, marks, marks.len() as int),
            ) <= mass + marks.len() * (reach.len() * BILLION)
        }),
{
    let b = BILLION as int;
    let n = marks.len() as int;
    lemma_taking(reach, sigma, marks, n);
    lemma_mass(reach, reach.len() as int);
    assert(reach.take(reach.len() as int) =~= reach);
    assert(nano::ten_to(12) == 1_000_000_000_000) by {
        reveal_with_fuel(nano::ten_to, 13);
    }
    assert(Nano::decimal_spec(1, 12).count == 0);
    let mass = play_laws::counted(reach);
    let t = profile_lock::taking::<Nano>(reach, sigma, marks, n).count as int;
    let y = t * b;
    weigh_laws::lemma_cut_near(y, mass);
    let q = nano::cut_div(y, mass);
    assert(0 <= y <= n * b * mass) by (nonlinear_arith)
        requires
            y == t * b,
            0 <= t <= n * mass,
            0 < b,
    ;
    vstd::arithmetic::div_mod::lemma_div_pos_is_pos(y, mass);
    assert(q <= n * b) by (nonlinear_arith)
        requires
            mass * q <= n * b * mass,
            0 < mass,
    ;
    assert(mass * q == q * mass && b * t == y) by (nonlinear_arith)
        requires
            y == t * b,
    ;
}

proof fn lemma_mass(reach: Seq<Nano>, n: int)
    requires
        0 <= n <= reach.len(),
        play_laws::none_negative(reach),
        play_laws::counted(reach) <= i64::MAX,
    ensures
        runouts::reach_total::<Nano>(reach, n).count == play_laws::reach_counted(reach, n),
    decreases n,
{
    assert(nano::ten_to(0) == 1);
    play_laws::lemma_taken_bound(reach, n);
    if n > 0 {
        lemma_mass(reach, n - 1);
        assert(reach.take(n).drop_last() =~= reach.take(n - 1));
    } else {
        assert(reach.take(0) =~= Seq::<Nano>::empty());
    }
}

/// Law: what a report says was achieved is a hundred times what was done of what
/// was seen, up to rounding.
pub proof fn law_achieved_is_a_percentage(
    stats: PostflopStats<Nano>,
    acc: Seq<(Nano, Nano)>,
    slot: int,
    row: ProfileLockRow<Nano>,
)
    requires
        profile_lock::slot_shown::<Nano>(stats, acc, slot, row),
        0 < acc[slot].0.count,
        0 <= acc[slot].1.count <= acc[slot].0.count,
    ensures
        ({
            let (seen, did) = (acc[slot].0.count, acc[slot].1.count);
            0 <= 100 * BILLION * did - row.achieved.count * seen <= 100 * seen
        }),
{
    let b = BILLION as int;
    assert(nano::ten_to(0) == 1);
    let hundred = Nano::decimal_spec(100, 0);
    assert(hundred.count == 100 * b);
    let (k, x) = (acc[slot].0.count as int, acc[slot].1.count as int);
    let y = x * b;
    assert(0 <= y <= k * b) by (nonlinear_arith)
        requires
            y == x * b,
            0 <= x <= k,
            0 < b,
    ;
    vstd::arithmetic::div_mod::lemma_fundamental_div_mod(y, k);
    vstd::arithmetic::div_mod::lemma_mod_bound(y, k);
    vstd::arithmetic::div_mod::lemma_div_pos_is_pos(y, k);
    let q = y / k;
    assert(q <= b) by (nonlinear_arith)
        requires
            k * q <= k * b,
            0 < k,
    ;
    let part = acc[slot].1.over_spec(acc[slot].0);
    assert(part.count == q);
    let z = q * (100 * b);
    assert(0 <= z <= 100 * b * b) by (nonlinear_arith)
        requires
            z == q * (100 * b),
            0 <= q <= b,
            0 < b,
    ;
    assert(z / b == 100 * q) by (nonlinear_arith)
        requires
            z == q * (100 * b),
            0 < b,
    ;
    assert(row.achieved.count == 100 * q);
    let r = y % k;
    assert(100 * b * x - 100 * q * k == 100 * r) by (nonlinear_arith)
        requires
            y == x * b,
            y == k * q + r,
    ;
}

/// Whether one slot has been added to by what a range did of what it was seen to
/// do, and no other slot but perhaps one more.
pub open spec fn seen_more(
    before: (Nano, Nano),
    after: (Nano, Nano),
    mass: int,
    rate: int,
) -> bool {
    &&& after.0.count == before.0.count + mass
    &&& 0 <= mass * rate - BILLION * (after.1.count - before.1.count) < BILLION
}

/// Law: a decision counts its play towards the situations it belongs to, weighed
/// by the reach of the range. Facing a bet it counts its folds on the street
/// and, where it can raise, its raises. Else it counts its bets, with or
/// without the initiative. Nothing else is counted.
pub proof fn law_decisions_count_where_they_belong(
    acc: Seq<(Nano, Nano)>,
    reach: Seq<Nano>,
    sigma: Seq<Nano>,
    acts: Seq<Action<Nano>>,
    st: int,
    menu: Menu,
    leads: bool,
    k: int,
)
    requires
        acc.len() == 8,
        0 <= st < 3,
        0 <= k < 8,
        countable(reach, sigma, acts.len() as int),
        0 < play_laws::counted(reach),
        0 <= acc[k].0.count,
        0 <= acc[k].1.count,
        acc[k].0.count + play_laws::counted(reach) <= i64::MAX,
        acc[k].1.count + acts.len() * play_laws::counted(reach) <= i64::MAX,
    ensures
        ({
            let after = profile_lock::counted::<Nano>(acc, reach, sigma, acts, st, menu, leads);
            let mass = play_laws::counted(reach);
            let bold = profile_lock::rate::<Nano>(
                reach,
                sigma,
                Seq::new(acts.len(), |a: int| aim_laws::attacks(acts[a])),
            ).count as int;
            let folds = profile_lock::rate::<Nano>(
                reach,
                sigma,
                Seq::new(acts.len(), |a: int| Some(a as usize) == menu.fold && a <= usize::MAX),
            ).count as int;
            &&& after.len() == 8
            &&& if menu.fold is Some && k == 3 + st {
                seen_more(acc[k], after[k], mass, folds)
            } else if menu.preferred is Some && k == bold_slot(st, menu.fold is Some, leads) {
                seen_more(acc[k], after[k], mass, bold)
            } else {
                after[k] == acc[k]
            }
        }),
{
    let b = BILLION as int;
    let after = profile_lock::counted::<Nano>(acc, reach, sigma, acts, st, menu, leads);
    let mass = runouts::reach_total::<Nano>(reach, reach.len() as int);
    lemma_mass(reach, reach.len() as int);
    assert(reach.take(reach.len() as int) =~= reach);
    let attacks = Seq::new(acts.len(), |a: int| aim_laws::attacks(acts[a]));
    assert(profile_lock::aggressive(acts) =~= attacks);
    let folding = Seq::new(
        acts.len(),
        |a: int| Some(a as usize) == menu.fold && a <= usize::MAX,
    );
    if menu.fold is Some {
        let f = menu.fold->Some_0;
        assert(profile_lock::only(acts.len() as int, f as int) =~= folding);
        law_rates_are_shares_of_the_reach(reach, sigma, folding);
        let folds = profile_lock::rate::<Nano>(reach, sigma, folding);
        lemma_weighed_rate(mass, folds, acts.len() as int);
    }
    law_rates_are_shares_of_the_reach(reach, sigma, attacks);
    lemma_weighed_rate(mass, profile_lock::rate::<Nano>(reach, sigma, attacks), acts.len() as int);
}

proof fn lemma_weighed_rate(mass: Nano, rate: Nano, n: int)
    requires
        0 < mass.count,
        0 <= rate.count <= n * BILLION,
        0 <= n,
        n * mass.count <= i64::MAX,
    ensures
        0 <= mass.count * rate.count - BILLION * mass.times_spec(rate).count < BILLION,
        0 <= mass.times_spec(rate).count <= n * mass.count,
{
    let b = BILLION as int;
    let (m, r) = (mass.count as int, rate.count as int);
    let y = m * r;
    assert(0 <= y <= b * (n * m)) by (nonlinear_arith)
        requires
            y == m * r,
            0 < m,
            0 <= r <= n * b,
    ;
    weigh_laws::lemma_times_near(mass, rate, n * m);
    vstd::arithmetic::div_mod::lemma_fundamental_div_mod(y, b);
    vstd::arithmetic::div_mod::lemma_mod_bound(y, b);
    vstd::arithmetic::div_mod::lemma_div_pos_is_pos(y, b);
    assert(y / b <= n * m) by (nonlinear_arith)
        requires
            b * (y / b) <= b * (n * m),
            0 < b,
    ;
}

} // verus!
