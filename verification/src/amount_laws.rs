//! What the sizes of a spot stand for, in exact numbers: which chips a bet or
//! raise of a given size puts in, and that players may make just those.

use crate::nano;
use crate::nano::{Nano, BILLION};
use crate::num;
use crate::num::Num;
use crate::pot_laws;
use crate::tree;
use crate::tree::{Action, BetSize, BuildState, TreeConfig, IP, OOP};
use crate::weigh_laws::size;
use vstd::prelude::*;

verus! {

/// Whether going to `to` over a bet of `bet` is what a raise size asks for,
/// where calling would make the pot `pot` and all-in is `most`. A raise of so
/// many percent puts in, on top of the call, so many hundredths of the pot
/// after the call; a multiple multiplies the bet. All up to rounding.
pub open spec fn raises_by(ask: BetSize<Nano>, bet: int, pot: int, most: int, to: int) -> bool {
    match ask {
        BetSize::PotPct(p) => size((to - bet) * 100 * BILLION - p.count * pot) <= 100 * (pot
            + BILLION),
        BetSize::PrevMult(m) => size(to * BILLION - m.count * bet) <= BILLION,
        BetSize::AllIn => to == most,
    }
}

/// Whether betting `to` into `pot` is what a bet size asks for.
pub open spec fn bets_by(ask: BetSize<Nano>, pot: int, most: int, to: int) -> bool {
    match ask {
        BetSize::PotPct(p) => size(to * 100 * BILLION - p.count * pot) <= 100 * (pot + BILLION),
        BetSize::PrevMult(_) => false,
        BetSize::AllIn => to == most,
    }
}

/// Whether an amount counts as all-in: it takes all chips, or passes the
/// threshold.
pub open spec fn takes_all(cfg: TreeConfig<Nano>, most: int, to: int) -> bool {
    to >= most - 1 || to >= nano::cut_div(cfg.allin_threshold.count * most, BILLION as int) - 1
}

/// The chips that the bettor has out on the street.
pub open spec fn bet_faced(st: BuildState<Nano>) -> int {
    st.street_bet[1 - st.to_act].count as int
}

/// The chips that going all-in goes to on the street.
pub open spec fn all_in_to(cfg: TreeConfig<Nano>, st: BuildState<Nano>) -> int {
    let me = st.to_act as int;
    st.street_bet[me].count + pot_laws::whole_stack(cfg) - st.put[me].count
}

/// The least that a raise goes to: it raises by as much as the last bet or
/// raise did.
pub open spec fn least_raise(st: BuildState<Nano>) -> int {
    bet_faced(st) + if st.last_increment.count > 1 {
        st.last_increment.count as int
    } else {
        1
    }
}

/// Whether an amount that is asked for comes to `to` as a raise: lifted to the
/// least raise, and all-in where it counts as that.
pub open spec fn lands(cfg: TreeConfig<Nano>, st: BuildState<Nano>, asked: int, to: int) -> bool {
    let most = all_in_to(cfg, st);
    let want = if asked < least_raise(st) {
        least_raise(st)
    } else {
        asked
    };
    if takes_all(cfg, most, want) {
        to == most
    } else {
        to == want
    }
}

/// Whether a state is one that betting can be in, with chips that add up in
/// range.
pub open spec fn playable(cfg: TreeConfig<Nano>, st: BuildState<Nano>) -> bool {
    &&& pot_laws::roomy(cfg)
    &&& pot_laws::even(cfg, st)
    &&& st.to_act < 2
    &&& st.street < 3
    &&& 2 * pot_laws::whole_stack(cfg) <= i64::MAX
}

/// Whether the player to act faces a bet.
pub open spec fn faces(st: BuildState<Nano>) -> bool {
    st.street_bet[st.to_act as int].count < bet_faced(st)
}

/// Whether the player to act may raise: chips are left once the bet is called,
/// and the last raise has not been made.
pub open spec fn raise_allowed(cfg: TreeConfig<Nano>, st: BuildState<Nano>) -> bool {
    &&& faces(st)
    &&& bet_faced(st) + 1 < all_in_to(cfg, st)
    &&& st.num_raises < cfg.max_raises
}

/// The sizes that a player has on a street.
pub open spec fn own_lists(cfg: TreeConfig<Nano>, st: BuildState<Nano>) -> tree::StreetSizing<
    Nano,
> {
    if st.to_act == OOP {
        cfg.oop[st.street as int]
    } else {
        cfg.ip[st.street as int]
    }
}

/// Whether a bet would be a donk bet: out of position, into the player who bet
/// or raised last on an earlier street.
pub open spec fn into_the_aggressor(root_street: u8, st: BuildState<Nano>) -> bool {
    st.to_act == OOP && root_street < st.street && st.last_aggressor is Some
        && st.last_aggressor->0 == IP
}

// ---------------------------------------------------------------------------
// Lists of amounts
// ---------------------------------------------------------------------------

proof fn lemma_inserted_holds(s: Seq<Nano>, x: Nano, y: Nano)
    ensures
        tree::inserted(s, x).contains(y) <==> s.contains(y) || x == y,
    decreases s.len(),
{
    let out = tree::inserted(s, x);
    if s.len() > 0 && x.below_spec(s.last()) {
        let rest = s.drop_last();
        lemma_inserted_holds(rest, x, y);
        let some = tree::inserted(rest, x);
        assert(out == some.push(s.last()));
        lemma_push_holds(some, s.last(), y);
        lemma_push_holds(rest, s.last(), y);
        assert(rest.push(s.last()) =~= s);
    } else {
        lemma_push_holds(s, x, y);
    }
}

proof fn lemma_push_holds(s: Seq<Nano>, x: Nano, y: Nano)
    ensures
        s.push(x).contains(y) <==> s.contains(y) || x == y,
{
    let t = s.push(x);
    if s.contains(y) {
        let i = choose|i: int| 0 <= i < s.len() && s[i] == y;
        assert(t[i] == y);
    }
    if x == y {
        assert(t[s.len() as int] == y);
    }
    if t.contains(y) && x != y {
        let i = choose|i: int| 0 <= i < t.len() && t[i] == y;
        assert(s[i] == y);
    }
}

proof fn lemma_ascending_holds(s: Seq<Nano>, y: Nano)
    ensures
        tree::ascending(s).contains(y) <==> s.contains(y),
    decreases s.len(),
{
    if s.len() > 0 {
        let rest = s.drop_last();
        lemma_ascending_holds(rest, y);
        lemma_inserted_holds(tree::ascending(rest), s.last(), y);
        lemma_push_holds(rest, s.last(), y);
        assert(rest.push(s.last()) =~= s);
    }
}

/// Whether a list has an amount less than a millionth away.
pub open spec fn has_near(s: Seq<Nano>, y: int) -> bool {
    exists|i: int| 0 <= i < s.len() && size((#[trigger] s[i]).count - y) < 1000
}

proof fn lemma_thinned_holds(s: Seq<Nano>, y: Nano)
    requires
        pot_laws::between(s, 0, i64::MAX as int),
    ensures
        tree::thinned(s).contains(y) ==> s.contains(y),
        s.contains(y) ==> has_near(tree::thinned(s), y.count as int),
        tree::thinned(s).len() > 0 <==> s.len() > 0,
    decreases s.len(),
{
    if s.len() > 0 {
        let rest = s.drop_last();
        assert forall|k: int| 0 <= k < rest.len() implies 0 <= (#[trigger] rest[k]).count
            <= i64::MAX by {
            assert(rest[k] == s[k]);
        }
        lemma_thinned_holds(rest, y);
        let some = tree::thinned(rest);
        let out = tree::thinned(s);
        let x = s.last();
        assert(s[s.len() - 1] == x);
        lemma_push_holds(rest, x, y);
        assert(rest.push(x) =~= s);
        assert(nano::ten_to(6) == 1_000_000) by {
            reveal_with_fuel(nano::ten_to, 7);
        }
        assert(nano::ten_to(0) == 1);
        assert(Nano::decimal_spec(1, 6).count == 1000);
        if some.len() > 0 {
            assert(some.contains(some.last()));
            lemma_thinned_holds(rest, some.last());
            let i = choose|i: int| 0 <= i < rest.len() && rest[i] == some.last();
            assert(rest[i].count >= 0);
        }
        if some.len() > 0 && tree::near(x, some.last()) {
            if x == y {
                assert(size(some[some.len() - 1].count - y.count) < 1000);
            }
        } else {
            assert(out == some.push(x));
            lemma_push_holds(some, x, y);
            if rest.contains(y) {
                let i = choose|i: int|
                    0 <= i < some.len() && size((#[trigger] some[i]).count - y.count) < 1000;
                assert(out[i] == some[i]);
            }
            if x == y {
                assert(out[some.len() as int] == y);
            }
        }
    }
}

/// Where a raise candidate ends up: lifted, then all-in where it counts as it.
spec fn settles(cand: Nano, min_to: Nano, max_to: Nano, threshold: Nano) -> Nano {
    tree::snapped(
        if cand.below_spec(min_to) {
            min_to
        } else {
            cand
        },
        max_to,
        threshold,
    )
}

proof fn lemma_kept_raise(
    cands: Seq<Nano>,
    bet: Nano,
    min_to: Nano,
    max_to: Nano,
    threshold: Nano,
    k: int,
)
    requires
        0 <= k < cands.len(),
        bet.plus_spec(tree::slack()).below_spec(settles(cands[k], min_to, max_to, threshold)),
    ensures
        tree::kept_raises(cands, bet, min_to, max_to, threshold).contains(
            settles(cands[k], min_to, max_to, threshold),
        ),
    decreases cands.len(),
{
    let rest = cands.drop_last();
    let some = tree::kept_raises(rest, bet, min_to, max_to, threshold);
    let y = settles(cands[k], min_to, max_to, threshold);
    let x = settles(cands.last(), min_to, max_to, threshold);
    lemma_push_holds(some, x, y);
    if k < rest.len() {
        assert(rest[k] == cands[k]);
        lemma_kept_raise(rest, bet, min_to, max_to, threshold, k);
    }
}

proof fn lemma_raise_comes_from(
    cands: Seq<Nano>,
    bet: Nano,
    min_to: Nano,
    max_to: Nano,
    threshold: Nano,
    y: Nano,
) -> (k: int)
    requires
        tree::kept_raises(cands, bet, min_to, max_to, threshold).contains(y),
    ensures
        0 <= k < cands.len(),
        y == settles(cands[k], min_to, max_to, threshold),
    decreases cands.len(),
{
    if cands.len() == 0 {
        0
    } else {
        let rest = cands.drop_last();
        let some = tree::kept_raises(rest, bet, min_to, max_to, threshold);
        let x = settles(cands.last(), min_to, max_to, threshold);
        lemma_push_holds(some, x, y);
        if some.contains(y) {
            let k = lemma_raise_comes_from(rest, bet, min_to, max_to, threshold, y);
            assert(rest[k] == cands[k]);
            k
        } else {
            cands.len() - 1
        }
    }
}

proof fn lemma_kept_bet(cands: Seq<Nano>, max_to: Nano, threshold: Nano, k: int)
    requires
        0 <= k < cands.len(),
        !cands[k].at_most_spec(tree::slack()),
    ensures
        tree::kept_bets(cands, max_to, threshold).contains(
            tree::snapped(cands[k], max_to, threshold),
        ),
    decreases cands.len(),
{
    let rest = cands.drop_last();
    let some = tree::kept_bets(rest, max_to, threshold);
    let y = tree::snapped(cands[k], max_to, threshold);
    lemma_push_holds(some, tree::snapped(cands.last(), max_to, threshold), y);
    if k < rest.len() {
        assert(rest[k] == cands[k]);
        lemma_kept_bet(rest, max_to, threshold, k);
    }
}

proof fn lemma_bet_comes_from(cands: Seq<Nano>, max_to: Nano, threshold: Nano, y: Nano) -> (k: int)
    requires
        tree::kept_bets(cands, max_to, threshold).contains(y),
    ensures
        0 <= k < cands.len(),
        !cands[k].at_most_spec(tree::slack()),
        y == tree::snapped(cands[k], max_to, threshold),
    decreases cands.len(),
{
    if cands.len() == 0 {
        0
    } else {
        let rest = cands.drop_last();
        let some = tree::kept_bets(rest, max_to, threshold);
        lemma_push_holds(some, tree::snapped(cands.last(), max_to, threshold), y);
        if some.contains(y) {
            let k = lemma_bet_comes_from(rest, max_to, threshold, y);
            assert(rest[k] == cands[k]);
            k
        } else {
            cands.len() - 1
        }
    }
}

// ---------------------------------------------------------------------------
// What a size comes to
// ---------------------------------------------------------------------------

/// A hundredth part of a product, with a quotient that is cut off twice.
proof fn lemma_percent(p: Nano, pot: int) -> (part: int)
    requires
        0 <= pot <= i64::MAX,
    ensures
        size(part * 100 * BILLION - p.count * pot) <= 100 * (pot + BILLION),
        p.over_spec(Nano::decimal_spec(100, 0)).times_spec(
            Nano { count: pot as i64 },
        ).count == nano::clamp_count(part),
{
    let b = BILLION as int;
    let x = p.count as int;
    assert(nano::ten_to(0) == 1);
    assert(Nano::decimal_spec(100, 0).count == 100 * b);
    let q = nano::cut_div(x * b, 100 * b);
    crate::weigh_laws::lemma_cut_near(x * b, 100 * b);
    let y = q * pot;
    let part = nano::cut_div(y, b);
    crate::weigh_laws::lemma_cut_near(y, b);
    assert(size(q) <= i64::MAX) by {
        let sq = size(q);
        assert(100 * b * sq <= 0x8000_0000_0000_0000 * b) by {
            assert(size(x * b) <= 0x8000_0000_0000_0000 * b) by (nonlinear_arith)
                requires
                    -0x8000_0000_0000_0000 <= x <= 0x7fff_ffff_ffff_ffff,
                    0 < b,
                    size(x * b) == x * b || size(x * b) == -(x * b),
            ;
        }
        assert(sq <= 0x7fff_ffff_ffff_ffff) by (nonlinear_arith)
            requires
                100 * b * sq <= 0x8000_0000_0000_0000 * b,
                0 < b,
                0 <= sq,
        ;
    }
    let (e1, e2) = (100 * b * q - x * b, b * part - y);
    assert(b * (100 * q - x) == e1) by (nonlinear_arith)
        requires
            e1 == 100 * b * q - x * b,
    ;
    let d = 100 * q - x;
    assert(-100 <= d <= 100) by (nonlinear_arith)
        requires
            b * d == e1,
            -(100 * b) <= e1 <= 100 * b,
            0 < b,
    ;
    assert(part * 100 * b - x * pot == 100 * e2 + d * pot) by {
        assert(part * 100 * b == 100 * (b * part)) by (nonlinear_arith);
        assert(d * pot == 100 * (q * pot) - x * pot) by (nonlinear_arith)
            requires
                d == 100 * q - x,
        ;
    }
    assert(size(d * pot) <= 100 * pot) by (nonlinear_arith)
        requires
            -100 <= d <= 100,
            0 <= pot,
            size(d * pot) == d * pot || size(d * pot) == -(d * pot),
    ;
    part
}

/// What a raise size asks for, and what it is counted as.
proof fn lemma_asked(ask: BetSize<Nano>, bet: Nano, pot: int, max_to: Nano) -> (asked: int)
    requires
        0 <= pot <= i64::MAX,
        0 <= bet.count,
    ensures
        raises_by(ask, bet.count as int, pot, max_to.count as int, asked),
        tree::raise_to(ask, bet, Nano { count: pot as i64 }, max_to).count == nano::clamp_count(
            asked,
        ) || (asked > i64::MAX && tree::raise_to(ask, bet, Nano { count: pot as i64 }, max_to).count
            == i64::MAX) || (asked < bet.count && tree::raise_to(
            ask,
            bet,
            Nano { count: pot as i64 },
            max_to,
        ).count < bet.count),
{
    match ask {
        BetSize::PotPct(p) => {
            let part = lemma_percent(p, pot);
            bet.count + part
        },
        BetSize::PrevMult(m) => {
            let y = bet.count * m.count;
            crate::weigh_laws::lemma_cut_near(y, BILLION as int);
            let q = nano::cut_div(y, BILLION as int);
            assert(BILLION * q == q * BILLION && m.count * bet.count == y) by (nonlinear_arith)
                requires
                    y == bet.count * m.count,
            ;
            q
        },
        BetSize::AllIn => max_to.count as int,
    }
}

/// What snapping does.
proof fn lemma_snapped(cfg: TreeConfig<Nano>, to: Nano, max_to: Nano)
    requires
        0 <= to.count,
        0 < max_to.count,
    ensures
        tree::snapped(to, max_to, cfg.allin_threshold).count == if takes_all(
            cfg,
            max_to.count as int,
            to.count as int,
        ) {
            max_to.count
        } else {
            to.count
        },
{
    pot_laws::lemma_slack();
}

/// Where a candidate settles is where the amount that it stands for lands.
proof fn lemma_settles(
    cfg: TreeConfig<Nano>,
    st: BuildState<Nano>,
    cand: Nano,
    asked: int,
    min_to: Nano,
    max_to: Nano,
)
    requires
        playable(cfg, st),
        raise_allowed(cfg, st),
        max_to.count == all_in_to(cfg, st),
        min_to.count == nano::clamp_count(least_raise(st)),
        cand.count == nano::clamp_count(asked) || (asked > i64::MAX && cand.count == i64::MAX) || (
        asked < bet_faced(st) && cand.count < bet_faced(st)),
    ensures
        lands(cfg, st, asked, settles(cand, min_to, max_to, cfg.allin_threshold).count as int),
        settles(cand, min_to, max_to, cfg.allin_threshold).count > bet_faced(st) + 1 || !takes_all(
            cfg,
            max_to.count as int,
            settles(cand, min_to, max_to, cfg.allin_threshold).count as int,
        ),
{
    let lifted = if cand.below_spec(min_to) {
        min_to
    } else {
        cand
    };
    lemma_snapped(cfg, lifted, max_to);
}

/// The amounts behind the raises of a state.
proof fn lemma_raise_numbers(cfg: TreeConfig<Nano>, st: BuildState<Nano>)
    requires
        playable(cfg, st),
        faces(st),
    ensures
        ({
            let me = st.to_act as int;
            let bet = st.street_bet[1 - me];
            let max_to = st.street_bet[me].plus_spec(tree::behind(cfg, st.put[me]));
            &&& max_to.count == all_in_to(cfg, st)
            &&& 0 <= max_to.count
            &&& st.put[0].plus_spec(st.put[1]).plus_spec(tree::facing(st)).count == 2 * st.put[1
                - me].count
            &&& 0 <= st.put[1 - me].count <= pot_laws::whole_stack(cfg)
            &&& bet.plus_spec(num::larger_of(st.last_increment, tree::slack())).count
                == nano::clamp_count(least_raise(st))
            &&& tree::slack::<Nano>().below_spec(tree::facing(st))
            &&& tree::may_raise(cfg, st) == raise_allowed(cfg, st)
        }),
{
    let me = st.to_act as int;
    pot_laws::lemma_slack();
    pot_laws::lemma_behind(cfg, st.put[me]);
}

/// Law: every raise size gives a raise. Where raises are allowed, a raise of `p`
/// percent goes, on top of the call, to `p` hundredths of the pot as it stands
/// after the call, which is twice what the bettor has put in; lifted to the
/// least raise, all-in where it counts as that, and up to a millionth.
pub proof fn law_raise_sizes_are_offered(
    cfg: TreeConfig<Nano>,
    root_street: u8,
    st: BuildState<Nano>,
    k: int,
) -> (r: (int, int))
    requires
        playable(cfg, st),
        raise_allowed(cfg, st),
        0 <= k < own_lists(cfg, st).raise@.len(),
    ensures
        raises_by(
            own_lists(cfg, st).raise@[k],
            bet_faced(st),
            2 * st.put[1 - st.to_act].count,
            all_in_to(cfg, st),
            r.0,
        ),
        lands(cfg, st, r.0, r.1),
        r.1 > bet_faced(st) + 1 ==> exists|j: int|
            0 <= j < tree::legal(cfg, root_street, st).len() && (
            #[trigger] tree::legal(cfg, root_street, st)[j]) is Raise && size(
                tree::legal(cfg, root_street, st)[j]->Raise_0.count - r.1,
            ) < 1000,
{
    let me = st.to_act as int;
    lemma_raise_numbers(cfg, st);
    let bet = st.street_bet[1 - me];
    let pot = 2 * st.put[1 - me].count;
    let sizes = own_lists(cfg, st).raise@;
    let max_to = st.street_bet[me].plus_spec(tree::behind(cfg, st.put[me]));
    let after = st.put[0].plus_spec(st.put[1]).plus_spec(tree::facing(st));
    assert(after == Nano { count: pot as i64 });
    let min_to = bet.plus_spec(num::larger_of(st.last_increment, tree::slack()));
    let asked = lemma_asked(sizes[k], bet, pot, max_to);
    let named = tree::raise_candidates(sizes, bet, after, max_to);
    let cands = if cfg.add_allin {
        named.push(max_to)
    } else {
        named
    };
    assert(cands[k] == tree::raise_to(sizes[k], bet, after, max_to));
    lemma_settles(cfg, st, cands[k], asked, min_to, max_to);
    let y = settles(cands[k], min_to, max_to, cfg.allin_threshold);
    lemma_raise_found(cfg, root_street, st, cands, k);
    (asked, y.count as int)
}

/// A candidate that raises is among the raises, up to a millionth.
proof fn lemma_raise_found(
    cfg: TreeConfig<Nano>,
    root_street: u8,
    st: BuildState<Nano>,
    cands: Seq<Nano>,
    k: int,
)
    requires
        playable(cfg, st),
        raise_allowed(cfg, st),
        ({
            let me = st.to_act as int;
            let bet = st.street_bet[1 - me];
            let max_to = st.street_bet[me].plus_spec(tree::behind(cfg, st.put[me]));
            let after = st.put[0].plus_spec(st.put[1]).plus_spec(tree::facing(st));
            let named = tree::raise_candidates(own_lists(cfg, st).raise@, bet, after, max_to);
            cands == if cfg.add_allin {
                named.push(max_to)
            } else {
                named
            }
        }),
        0 <= k < cands.len(),
    ensures
        ({
            let me = st.to_act as int;
            let bet = st.street_bet[1 - me];
            let max_to = st.street_bet[me].plus_spec(tree::behind(cfg, st.put[me]));
            let min_to = bet.plus_spec(num::larger_of(st.last_increment, tree::slack()));
            let y = settles(cands[k], min_to, max_to, cfg.allin_threshold);
            y.count > bet_faced(st) + 1 ==> exists|j: int|
                0 <= j < tree::legal(cfg, root_street, st).len() && (
                #[trigger] tree::legal(cfg, root_street, st)[j]) is Raise && size(
                    tree::legal(cfg, root_street, st)[j]->Raise_0.count - y.count,
                ) < 1000
        }),
{
    let me = st.to_act as int;
    lemma_raise_numbers(cfg, st);
    pot_laws::lemma_slack();
    let bet = st.street_bet[1 - me];
    let max_to = st.street_bet[me].plus_spec(tree::behind(cfg, st.put[me]));
    let min_to = bet.plus_spec(num::larger_of(st.last_increment, tree::slack()));
    let t = cfg.allin_threshold;
    let y = settles(cands[k], min_to, max_to, t);
    if y.count > bet_faced(st) + 1 {
        let kept = tree::kept_raises(cands, bet, min_to, max_to, t);
        lemma_kept_raise(cands, bet, min_to, max_to, t, k);
        pot_laws::lemma_kept_raises(cands, bet, min_to, max_to, t);
        let up = tree::ascending(kept);
        lemma_ascending_holds(kept, y);
        pot_laws::lemma_ascending(kept, bet.count + 2, max_to.count as int);
        assert forall|x: int| 0 <= x < up.len() implies 0 <= (#[trigger] up[x]).count
            <= i64::MAX by {}
        lemma_thinned_holds(up, y);
        let tos = tree::raises(cfg, st);
        assert(tos == tree::thinned(up));
        let i = choose|i: int|
            0 <= i < tos.len() && size((#[trigger] tos[i]).count - y.count) < 1000;
        assert(tree::legal(cfg, root_street, st)[i + 2] == Action::Raise(tos[i]));
    }
}

/// Law: every raise comes from a size, or is the all-in that is always offered.
pub proof fn law_raises_come_from_sizes(
    cfg: TreeConfig<Nano>,
    root_street: u8,
    st: BuildState<Nano>,
    j: int,
) -> (r: (int, int))
    requires
        playable(cfg, st),
        0 <= j < tree::legal(cfg, root_street, st).len(),
        tree::legal(cfg, root_street, st)[j] is Raise,
    ensures
        raise_allowed(cfg, st),
        ({
            let to = tree::legal(cfg, root_street, st)[j]->Raise_0.count as int;
            let sizes = own_lists(cfg, st).raise@;
            &&& bet_faced(st) + 1 < to
            &&& to <= all_in_to(cfg, st)
            &&& to == all_in_to(cfg, st) && cfg.add_allin || {
                &&& 0 <= r.0 < sizes.len()
                &&& raises_by(
                    sizes[r.0],
                    bet_faced(st),
                    2 * st.put[1 - st.to_act].count,
                    all_in_to(cfg, st),
                    r.1,
                )
                &&& lands(cfg, st, r.1, to)
            }
        }),
{
    let me = st.to_act as int;
    pot_laws::lemma_slack();
    pot_laws::lemma_behind(cfg, st.put[me]);
    pot_laws::lemma_offered(cfg, root_street, st, j);
    lemma_raise_numbers(cfg, st);
    let bet = st.street_bet[1 - me];
    let pot = 2 * st.put[1 - me].count;
    let sizes = own_lists(cfg, st).raise@;
    let max_to = st.street_bet[me].plus_spec(tree::behind(cfg, st.put[me]));
    let after = st.put[0].plus_spec(st.put[1]).plus_spec(tree::facing(st));
    assert(after == Nano { count: pot as i64 });
    let min_to = bet.plus_spec(num::larger_of(st.last_increment, tree::slack()));
    let named = tree::raise_candidates(sizes, bet, after, max_to);
    let cands = if cfg.add_allin {
        named.push(max_to)
    } else {
        named
    };
    let t = cfg.allin_threshold;
    let kept = tree::kept_raises(cands, bet, min_to, max_to, t);
    let up = tree::ascending(kept);
    let tos = tree::raises(cfg, st);
    assert(tos == tree::thinned(up));
    assert(tree::legal(cfg, root_street, st)[j] == Action::Raise(tos[j - 2]));
    let y = tos[j - 2];
    pot_laws::lemma_kept_raises(cands, bet, min_to, max_to, t);
    pot_laws::lemma_ascending(kept, bet.count + 2, max_to.count as int);
    assert forall|x: int| 0 <= x < up.len() implies 0 <= (#[trigger] up[x]).count <= i64::MAX by {}
    lemma_thinned_holds(up, y);
    assert(tos.contains(y));
    lemma_ascending_holds(kept, y);
    let k = lemma_raise_comes_from(cands, bet, min_to, max_to, t, y);
    if k < sizes.len() {
        let asked = lemma_asked(sizes[k], bet, pot, max_to);
        assert(cands[k] == tree::raise_to(sizes[k], bet, after, max_to));
        lemma_settles(cfg, st, cands[k], asked, min_to, max_to);
        (k, asked)
    } else {
        assert(cands[k] == max_to);
        lemma_settles(cfg, st, max_to, max_to.count as int, min_to, max_to);
        (k, 0)
    }
}

// ---------------------------------------------------------------------------
// Bets
// ---------------------------------------------------------------------------

/// The sizes that a bet may have: the donk sizes where it would be a donk bet,
/// else the bet sizes.
pub open spec fn opening_sizes(
    cfg: TreeConfig<Nano>,
    root_street: u8,
    st: BuildState<Nano>,
) -> Seq<BetSize<Nano>> {
    if into_the_aggressor(root_street, st) {
        own_lists(cfg, st).donk@
    } else {
        own_lists(cfg, st).bet@
    }
}

/// Whether an amount that is asked for comes to `to` as a bet.
pub open spec fn lands_as_bet(
    cfg: TreeConfig<Nano>,
    st: BuildState<Nano>,
    asked: int,
    to: int,
) -> bool {
    let most = all_in_to(cfg, st);
    if takes_all(cfg, most, asked) {
        to == most
    } else {
        to == asked
    }
}

/// The amounts behind the bets of a state.
proof fn lemma_bet_numbers(cfg: TreeConfig<Nano>, st: BuildState<Nano>)
    requires
        playable(cfg, st),
        !faces(st),
    ensures
        ({
            let me = st.to_act as int;
            &&& tree::behind(cfg, st.put[me]).count == all_in_to(cfg, st)
            &&& st.put[0].plus_spec(st.put[1]).count == st.put[0].count + st.put[1].count
            &&& 0 <= st.put[0].count + st.put[1].count <= i64::MAX
            &&& !tree::slack::<Nano>().below_spec(tree::facing(st))
            &&& st.put[0] == st.put[1]
        }),
{
    let me = st.to_act as int;
    pot_laws::lemma_slack();
    pot_laws::lemma_behind(cfg, st.put[me]);
}

/// The bet candidates are those that the sizes other than multiples ask for.
proof fn lemma_bet_candidate(sizes: Seq<BetSize<Nano>>, pot: Nano, max_to: Nano, k: int) -> (r: (
    int,
    int,
))
    requires
        0 <= k < sizes.len(),
        !(sizes[k] is PrevMult),
        0 <= pot.count,
    ensures
        0 <= r.0 < tree::bet_candidates(sizes, pot, max_to).len(),
        bets_by(sizes[k], pot.count as int, max_to.count as int, r.1),
        tree::bet_candidates(sizes, pot, max_to)[r.0].count == nano::clamp_count(r.1),
    decreases sizes.len(),
{
    let rest = sizes.drop_last();
    let some = tree::bet_candidates(rest, pot, max_to);
    let all = tree::bet_candidates(sizes, pot, max_to);
    if k < rest.len() {
        assert(rest[k] == sizes[k]);
        let r = lemma_bet_candidate(rest, pot, max_to, k);
        assert(all[r.0] == some[r.0]);
        r
    } else {
        match sizes[k] {
            BetSize::PotPct(p) => {
                let part = lemma_percent(p, pot.count as int);
                assert(Nano { count: pot.count as int as i64 } == pot);
                (some.len() as int, part)
            },
            BetSize::PrevMult(_) => (0, 0),
            BetSize::AllIn => (some.len() as int, max_to.count as int),
        }
    }
}

proof fn lemma_candidate_comes_from(
    sizes: Seq<BetSize<Nano>>,
    pot: Nano,
    max_to: Nano,
    i: int,
) -> (r: (int, int))
    requires
        0 <= i < tree::bet_candidates(sizes, pot, max_to).len(),
        0 <= pot.count,
    ensures
        0 <= r.0 < sizes.len(),
        bets_by(sizes[r.0], pot.count as int, max_to.count as int, r.1),
        tree::bet_candidates(sizes, pot, max_to)[i].count == nano::clamp_count(r.1),
    decreases sizes.len(),
{
    let rest = sizes.drop_last();
    let some = tree::bet_candidates(rest, pot, max_to);
    if i < some.len() {
        let r = lemma_candidate_comes_from(rest, pot, max_to, i);
        assert(rest[r.0] == sizes[r.0]);
        r
    } else {
        let k = sizes.len() - 1;
        match sizes[k] {
            BetSize::PotPct(p) => {
                let part = lemma_percent(p, pot.count as int);
                assert(Nano { count: pot.count as int as i64 } == pot);
                (k, part)
            },
            BetSize::PrevMult(_) => (0, 0),
            BetSize::AllIn => (k, max_to.count as int),
        }
    }
}

/// Law: every bet size gives a bet. A bet of `p` percent is `p` hundredths of
/// the pot, which is what both players have put in; all-in where it counts as
/// that, and up to a millionth. Multiples are for raises only, and bets of no
/// chips are none.
pub proof fn law_bet_sizes_are_offered(
    cfg: TreeConfig<Nano>,
    root_street: u8,
    st: BuildState<Nano>,
    k: int,
) -> (r: (int, int))
    requires
        playable(cfg, st),
        !faces(st),
        1 < all_in_to(cfg, st),
        0 <= k < opening_sizes(cfg, root_street, st).len(),
        !(opening_sizes(cfg, root_street, st)[k] is PrevMult),
    ensures
        bets_by(
            opening_sizes(cfg, root_street, st)[k],
            st.put[0].count + st.put[1].count,
            all_in_to(cfg, st),
            r.0,
        ),
        r.0 > 1 ==> lands_as_bet(cfg, st, r.0, r.1) && exists|j: int|
            0 <= j < tree::legal(cfg, root_street, st).len() && (
            #[trigger] tree::legal(cfg, root_street, st)[j]) is Bet && size(
                tree::legal(cfg, root_street, st)[j]->Bet_0.count - r.1,
            ) < 1000,
{
    let me = st.to_act as int;
    lemma_bet_numbers(cfg, st);
    pot_laws::lemma_slack();
    let sizes = tree::bet_list(cfg, root_street, st);
    assert(sizes == opening_sizes(cfg, root_street, st));
    let pot = st.put[0].plus_spec(st.put[1]);
    let max_to = tree::behind(cfg, st.put[me]);
    let named = tree::bet_candidates(sizes, pot, max_to);
    let (i, asked) = lemma_bet_candidate(sizes, pot, max_to, k);
    let cands = if cfg.add_allin && (sizes.len() > 0 || !tree::donking(root_street, st)) {
        named.push(max_to)
    } else {
        named
    };
    assert(cands[i] == named[i]);
    let t = cfg.allin_threshold;
    let y = tree::snapped(cands[i], max_to, t);
    if asked > 1 {
        lemma_snapped(cfg, cands[i], max_to);
        let kept = tree::kept_bets(cands, max_to, t);
        lemma_kept_bet(cands, max_to, t, i);
        pot_laws::lemma_kept_bets(cands, max_to, t);
        let up = tree::ascending(kept);
        lemma_ascending_holds(kept, y);
        pot_laws::lemma_ascending(kept, 2, max_to.count as int);
        assert forall|x: int| 0 <= x < up.len() implies 0 <= (#[trigger] up[x]).count
            <= i64::MAX by {}
        lemma_thinned_holds(up, y);
        let tos = tree::bets(cfg, root_street, st);
        assert(tos == tree::thinned(up));
        let x = choose|x: int|
            0 <= x < tos.len() && size((#[trigger] tos[x]).count - y.count) < 1000;
        assert(tree::legal(cfg, root_street, st)[x + 1] == Action::Bet(tos[x]));
    }
    (asked, y.count as int)
}

/// Law: every bet comes from a size, or is the all-in that is always offered
/// but to those who would lead into the aggressor without a donk size.
pub proof fn law_bets_come_from_sizes(
    cfg: TreeConfig<Nano>,
    root_street: u8,
    st: BuildState<Nano>,
    j: int,
) -> (r: (int, int))
    requires
        playable(cfg, st),
        0 <= j < tree::legal(cfg, root_street, st).len(),
        tree::legal(cfg, root_street, st)[j] is Bet,
    ensures
        !faces(st),
        ({
            let to = tree::legal(cfg, root_street, st)[j]->Bet_0.count as int;
            let sizes = opening_sizes(cfg, root_street, st);
            &&& 1 < to <= all_in_to(cfg, st)
            &&& to == all_in_to(cfg, st) && cfg.add_allin && (sizes.len() > 0
                || !into_the_aggressor(root_street, st)) || {
                &&& 0 <= r.0 < sizes.len()
                &&& bets_by(
                    sizes[r.0],
                    st.put[0].count + st.put[1].count,
                    all_in_to(cfg, st),
                    r.1,
                )
                &&& lands_as_bet(cfg, st, r.1, to)
            }
        }),
{
    let me = st.to_act as int;
    pot_laws::lemma_slack();
    pot_laws::lemma_behind(cfg, st.put[me]);
    pot_laws::lemma_offered(cfg, root_street, st, j);
    lemma_bet_numbers(cfg, st);
    let sizes = tree::bet_list(cfg, root_street, st);
    assert(sizes == opening_sizes(cfg, root_street, st));
    let pot = st.put[0].plus_spec(st.put[1]);
    let max_to = tree::behind(cfg, st.put[me]);
    let named = tree::bet_candidates(sizes, pot, max_to);
    let cands = if cfg.add_allin && (sizes.len() > 0 || !tree::donking(root_street, st)) {
        named.push(max_to)
    } else {
        named
    };
    let t = cfg.allin_threshold;
    let kept = tree::kept_bets(cands, max_to, t);
    let up = tree::ascending(kept);
    let tos = tree::bets(cfg, root_street, st);
    assert(tos == tree::thinned(up));
    assert(tree::legal(cfg, root_street, st)[j] == Action::Bet(tos[j - 1]));
    let y = tos[j - 1];
    pot_laws::lemma_kept_bets(cands, max_to, t);
    pot_laws::lemma_ascending(kept, 2, max_to.count as int);
    assert forall|x: int| 0 <= x < up.len() implies 0 <= (#[trigger] up[x]).count <= i64::MAX by {}
    lemma_thinned_holds(up, y);
    assert(tos.contains(y));
    lemma_ascending_holds(kept, y);
    let k = lemma_bet_comes_from(cands, max_to, t, y);
    lemma_snapped(cfg, cands[k], max_to);
    if k < named.len() {
        assert(cands[k] == named[k]);
        lemma_candidate_comes_from(sizes, pot, max_to, k)
    } else {
        (k, 0)
    }
}

/// Law: a player who faces a bet may fold, call it or raise; one who faces none
/// may check or bet, and all-in is among the raises and bets where the spot
/// always offers it.
pub proof fn law_what_players_may_do(
    cfg: TreeConfig<Nano>,
    root_street: u8,
    st: BuildState<Nano>,
)
    requires
        playable(cfg, st),
    ensures
        ({
            let acts = tree::legal(cfg, root_street, st);
            &&& faces(st) ==> {
                &&& acts.len() >= 2
                &&& acts[0] is Fold
                &&& acts[1] is Call
                &&& acts[1]->Call_0.count == bet_faced(st)
                &&& forall|j: int| 2 <= j < acts.len() ==> (#[trigger] acts[j]) is Raise
                &&& !raise_allowed(cfg, st) ==> acts.len() == 2
                &&& raise_allowed(cfg, st) && cfg.add_allin ==> exists|j: int|
                    2 <= j < acts.len() && size(
                        (#[trigger] acts[j])->Raise_0.count - all_in_to(cfg, st),
                    ) < 1000
            }
            &&& !faces(st) ==> {
                &&& acts.len() >= 1
                &&& acts[0] is Check
                &&& forall|j: int| 1 <= j < acts.len() ==> (#[trigger] acts[j]) is Bet
                &&& all_in_to(cfg, st) <= 1 ==> acts.len() == 1
            }
        }),
{
    let me = st.to_act as int;
    let acts = tree::legal(cfg, root_street, st);
    pot_laws::lemma_slack();
    pot_laws::lemma_behind(cfg, st.put[me]);
    if faces(st) {
        lemma_raise_numbers(cfg, st);
        if raise_allowed(cfg, st) && cfg.add_allin {
            let bet = st.street_bet[1 - me];
            let max_to = st.street_bet[me].plus_spec(tree::behind(cfg, st.put[me]));
            let min_to = bet.plus_spec(num::larger_of(st.last_increment, tree::slack()));
            let after = st.put[0].plus_spec(st.put[1]).plus_spec(tree::facing(st));
            let named = tree::raise_candidates(own_lists(cfg, st).raise@, bet, after, max_to);
            let cands = named.push(max_to);
            let k = named.len() as int;
            assert(cands[k] == max_to);
            lemma_settles(cfg, st, max_to, max_to.count as int, min_to, max_to);
            lemma_raise_found(cfg, root_street, st, cands, k);
            let y = settles(cands[k], min_to, max_to, cfg.allin_threshold);
            assert(y.count == all_in_to(cfg, st)) by {
                lemma_snapped(cfg, max_to, max_to);
            }
            let j = choose|j: int|
                0 <= j < acts.len() && (#[trigger] acts[j]) is Raise && size(
                    acts[j]->Raise_0.count - y.count,
                ) < 1000;
            assert(j >= 2);
        }
    } else {
        lemma_bet_numbers(cfg, st);
    }
}

} // verus!
