//! What a profile asks for, in exact numbers: which of the stats a decision is
//! aimed at, and what each action gets.

use crate::cfr::Solver;
use crate::locks;
use crate::nano;
use crate::nano::{Nano, BILLION};
use crate::num::Num;
use crate::play_laws;
use crate::profile;
use crate::profile::PostflopStats;
use crate::profile_lock::{Aim, Laid};
use crate::rake;
use crate::strategy;
use crate::tree::Action;
use vstd::prelude::*;

verus! {

/// A percentage as a share, in billionths: a hundredth of it, nothing where it
/// is negative, and all where it is more than all.
pub open spec fn share_of(percent: Nano) -> int {
    if percent.count < 0 {
        0
    } else if percent.count as int / 100 > BILLION {
        BILLION as int
    } else {
        percent.count as int / 100
    }
}

/// Whether an action stays in without betting.
pub open spec fn stays(act: Action<Nano>) -> bool {
    act is Check || act is Call
}

/// Whether an action bets or raises.
pub open spec fn attacks(act: Action<Nano>) -> bool {
    act is Bet || act is Raise
}

/// The chips that a bet or raise goes to.
pub open spec fn goes_to(act: Action<Nano>) -> int {
    match act {
        Action::Bet(x) => x.count as int,
        Action::Raise(x) => x.count as int,
        _ => 0,
    }
}

/// Whether a decision offers at most one fold, and one way to stay in.
pub open spec fn plain_menu(acts: Seq<Action<Nano>>) -> bool {
    &&& forall|i: int, j: int|
        0 <= i < acts.len() && 0 <= j < acts.len() && #[trigger] acts[i] is Fold
            && #[trigger] acts[j] is Fold ==> i == j
    &&& forall|i: int, j: int|
        0 <= i < acts.len() && 0 <= j < acts.len() && stays(#[trigger] acts[i]) && stays(
            #[trigger] acts[j],
        ) ==> i == j
    &&& exists|i: int| 0 <= i < acts.len() && stays(#[trigger] acts[i])
    &&& acts.len() <= usize::MAX
}

/// Whether the villain faces a bet.
pub open spec fn faces_bet(acts: Seq<Action<Nano>>) -> bool {
    exists|i: int| 0 <= i < acts.len() && #[trigger] acts[i] is Fold
}

/// Whether `p` is the bet or raise that is made: the largest where the stats
/// ask for the largest, else the smallest.
pub open spec fn chosen(acts: Seq<Action<Nano>>, largest: bool, p: int) -> bool {
    &&& 0 <= p < acts.len()
    &&& attacks(acts[p])
    &&& forall|j: int|
        0 <= j < acts.len() && attacks(#[trigger] acts[j]) ==> if largest {
            goes_to(acts[j]) <= goes_to(acts[p])
        } else {
            goes_to(acts[p]) <= goes_to(acts[j])
        }
}

/// Whether frequencies are what a profile asks for. Facing a bet the villain
/// folds as often as the street's fold to bet says, raises as often as there is
/// room for, and calls the rest. Else the villain bets as often as the street's
/// continuation bet says where the villain has the initiative, and as often as
/// the donk bet says where not, and checks the rest. All bets are of one size.
pub open spec fn as_told(
    acts: Seq<Action<Nano>>,
    stats: PostflopStats<Nano>,
    street: int,
    initiative: bool,
    largest: bool,
    freqs: Seq<Nano>,
) -> bool {
    let fold = share_of(stats.fold_to_bet[street]);
    &&& freqs.len() == acts.len()
    &&& play_laws::none_negative(freqs)
    &&& play_laws::counted(freqs) == BILLION
    &&& forall|j: int| 0 <= j < acts.len() && #[trigger] acts[j] is Fold ==> freqs[j].count == fold
    &&& forall|j: int|
        0 <= j < acts.len() && attacks(#[trigger] acts[j]) && freqs[j].count != 0 ==> chosen(
            acts,
            largest,
            j,
        )
    &&& (exists|j: int| 0 <= j < acts.len() && attacks(#[trigger] acts[j])) ==> exists|p: int|
        {
            &&& #[trigger] chosen(acts, largest, p)
            &&& freqs[p].count == if faces_bet(acts) {
                let raise = share_of(stats.raise_bet);
                if raise < BILLION - fold {
                    raise
                } else {
                    BILLION - fold
                }
            } else if initiative {
                share_of(stats.cbet[street])
            } else {
                share_of(stats.donk)
            }
        }
}

pub(crate) proof fn lemma_share(x: Nano)
    ensures
        profile::fraction(x).count == share_of(x),
        0 <= share_of(x) <= BILLION,
{
    let b = BILLION as int;
    assert(nano::ten_to(0) == 1);
    assert(Nano::decimal_spec(100, 0).count == 100 * b);
    let c = if x.count < 0 {
        -(x.count as int)
    } else {
        x.count as int
    };
    assert((c * b) / (100 * b) == c / 100) by {
        vstd::arithmetic::div_mod::lemma_div_denominator(c * b, b, 100);
        vstd::arithmetic::div_mod::lemma_div_multiples_vanish(c, b);
        assert(c * b == b * c) by (nonlinear_arith);
    }
    assert((-(x.count as int)) * b == -(x.count * b)) by (nonlinear_arith);
}

proof fn lemma_fold_at(acts: Seq<Action<Nano>>, k: int)
    requires
        0 <= k <= acts.len() <= usize::MAX,
    ensures
        match profile::fold_among(acts, k) {
            Some(i) => i < k && acts[i as int] is Fold,
            None => forall|j: int| 0 <= j < k ==> !(#[trigger] acts[j] is Fold),
        },
    decreases k,
{
    if k > 0 {
        lemma_fold_at(acts, k - 1);
    }
}

proof fn lemma_passive_at(acts: Seq<Action<Nano>>, k: int)
    requires
        0 <= k <= acts.len() <= usize::MAX,
    ensures
        match profile::passive_among(acts, k) {
            Some(i) => i < k && stays(acts[i as int]),
            None => forall|j: int| 0 <= j < k ==> !stays(#[trigger] acts[j]),
        },
    decreases k,
{
    if k > 0 {
        lemma_passive_at(acts, k - 1);
    }
}

proof fn lemma_preferred_at(acts: Seq<Action<Nano>>, largest: bool, k: int)
    requires
        0 <= k <= acts.len() <= usize::MAX,
    ensures
        match profile::preferred_among(acts, largest, k) {
            Some(p) => chosen(acts.take(k), largest, p as int) && p < k,
            None => forall|j: int| 0 <= j < k ==> !attacks(#[trigger] acts[j]),
        },
    decreases k,
{
    if k > 0 {
        lemma_preferred_at(acts, largest, k - 1);
        let before = acts.take(k - 1);
        let now = acts.take(k);
        match profile::preferred_among(acts, largest, k) {
            Some(p) => {
                assert forall|j: int| 0 <= j < k && attacks(#[trigger] now[j]) implies if largest {
                    goes_to(now[j]) <= goes_to(now[p as int])
                } else {
                    goes_to(now[p as int]) <= goes_to(now[j])
                } by {
                    if j < k - 1 {
                        assert(before[j] == now[j]);
                        assert(attacks(acts[j]));
                        let q = profile::preferred_among(acts, largest, k - 1)->Some_0;
                        assert(before[q as int] == acts[q as int]);
                    }
                }
            },
            None => {},
        }
    }
}

/// The sum of a list with nothing in it but at a few places.
proof fn lemma_counted_put(s: Seq<Nano>, at: int, v: Nano)
    requires
        0 <= at < s.len(),
    ensures
        play_laws::counted(s.update(at, v)) == play_laws::counted(s) - s[at].count + v.count,
    decreases s.len(),
{
    let t = s.update(at, v);
    if at == s.len() - 1 {
        assert(t.drop_last() =~= s.drop_last());
    } else {
        lemma_counted_put(s.drop_last(), at, v);
        assert(t.drop_last() =~= s.drop_last().update(at, v));
    }
}

proof fn lemma_counted_zeros(n: nat)
    ensures
        play_laws::counted(strategy::level(n, Nano { count: 0 })) == 0,
    decreases n,
{
    if n > 0 {
        lemma_counted_zeros((n - 1) as nat);
        assert(strategy::level(n, Nano { count: 0 }).drop_last() =~= strategy::level(
            (n - 1) as nat,
            Nano { count: 0 },
        ));
    }
}

/// Law: the frequencies that a profile aims at are those that its stats tell.
pub proof fn law_aims_follow_the_stats(
    acts: Seq<Action<Nano>>,
    stats: PostflopStats<Nano>,
    street: int,
    initiative: bool,
    largest: bool,
)
    requires
        plain_menu(acts),
        0 <= street < 3,
    ensures
        as_told(
            acts,
            stats,
            street,
            initiative,
            largest,
            profile::aims(
                stats,
                street,
                profile::menu_of(acts, largest),
                initiative,
                acts.len() as int,
            ),
        ),
{
    let k = acts.len() as int;
    let menu = profile::menu_of(acts, largest);
    let freqs = profile::aims(stats, street, menu, initiative, k);
    let b = BILLION as int;
    let zero = Nano { count: 0 };
    let none = strategy::level(k as nat, zero);
    assert(nano::ten_to(0) == 1);
    assert(Nano::decimal_spec(0, 0) == zero);
    assert(Nano::decimal_spec(1, 0).count == b);
    lemma_fold_at(acts, k);
    lemma_passive_at(acts, k);
    lemma_preferred_at(acts, largest, k);
    lemma_share(stats.fold_to_bet[street]);
    lemma_share(stats.raise_bet);
    lemma_share(stats.cbet[street]);
    lemma_share(stats.donk);
    lemma_counted_zeros(k as nat);
    assert(acts.take(k) =~= acts);
    assert(menu.passive is Some);
    let c = menu.passive->Some_0 as int;
    let fold = share_of(stats.fold_to_bet[street]);
    if menu.fold is Some {
        let f = menu.fold->Some_0 as int;
        let (x, r) = profile::facing_aims(stats, street, menu);
        let rest = Nano { count: (b - x.count - r.count) as i64 };
        let folding = none.update(f, x);
        let calling = folding.update(c, rest);
        lemma_counted_put(none, f, x);
        lemma_counted_put(folding, c, rest);
        if menu.preferred is Some {
            let p = menu.preferred->Some_0 as int;
            lemma_counted_put(calling, p, r);
            assert(freqs == calling.update(p, r));
        } else {
            assert(freqs == calling);
        }
        assert(acts[f] is Fold);
        assert(faces_bet(acts));
    } else {
        let bet = profile::betting_aim(stats, street, menu, initiative);
        let rest = Nano { count: (b - bet.count) as i64 };
        let checking = none.update(c, rest);
        lemma_counted_put(none, c, rest);
        if menu.preferred is Some {
            let p = menu.preferred->Some_0 as int;
            lemma_counted_put(checking, p, bet);
            assert(freqs == checking.update(p, bet));
        } else {
            assert(freqs == checking);
        }
        assert(!faces_bet(acts));
    }
    if menu.preferred is Some {
        assert(chosen(acts, largest, menu.preferred->Some_0 as int));
    }
}

/// The label of a profile's lock: the street, and what it asks for in whole
/// percents.
pub open spec fn says_so(
    name: Seq<char>,
    acts: Seq<Action<Nano>>,
    street: int,
    initiative: bool,
    freqs: Seq<Nano>,
) -> bool {
    let when = "profile: "@ + (if street == 0 {
        "flop"@
    } else if street == 1 {
        "turn"@
    } else {
        "river"@
    });
    let attack = attack_share(acts, freqs, acts.len() as int);
    if faces_bet(acts) {
        forall|f: int|
            0 <= f < acts.len() && #[trigger] acts[f] is Fold ==> name == when + " fold "@
                + nano::fixed_text(100 * freqs[f].count, 0) + "% / raise "@ + nano::fixed_text(
                100 * attack,
                0,
            ) + "%"@
    } else {
        name == when + (if initiative {
            " c-bet "@
        } else {
            " stab "@
        }) + nano::fixed_text(100 * attack, 0) + "%"@
    }
}

/// How often the first `k` actions bet or raise.
pub open spec fn attack_share(acts: Seq<Action<Nano>>, freqs: Seq<Nano>, k: int) -> int
    decreases k,
{
    if k <= 0 {
        0
    } else {
        attack_share(acts, freqs, k - 1) + if attacks(acts[k - 1]) {
            freqs[k - 1].count as int
        } else {
            0
        }
    }
}

/// Only one bet or raise is made.
proof fn lemma_attack_share(acts: Seq<Action<Nano>>, freqs: Seq<Nano>, k: int, p: int)
    requires
        0 <= k <= acts.len(),
        freqs.len() == acts.len(),
        forall|j: int|
            0 <= j < acts.len() && j != p && attacks(#[trigger] acts[j]) ==> freqs[j].count == 0,
    ensures
        attack_share(acts, freqs, k) == if 0 <= p < k && attacks(acts[p]) {
            freqs[p].count as int
        } else {
            0
        },
    decreases k,
{
    if k > 0 {
        lemma_attack_share(acts, freqs, k - 1, p);
    }
}

proof fn lemma_percents(x: Nano)
    requires
        0 <= x.count <= BILLION,
    ensures
        profile::percent_text(x) == nano::fixed_text(100 * x.count, 0),
{
    let b = BILLION as int;
    assert(nano::ten_to(0) == 1);
    assert(Nano::decimal_spec(100, 0).count == 100 * b);
    let c = x.count as int;
    assert(c * (100 * b) == b * (100 * c)) by (nonlinear_arith);
    vstd::arithmetic::div_mod::lemma_div_multiples_vanish(100 * c, b);
}

/// Law: the label of a profile's lock tells what the lock aims at.
pub proof fn law_labels_tell_the_aims(
    acts: Seq<Action<Nano>>,
    stats: PostflopStats<Nano>,
    street: int,
    initiative: bool,
    largest: bool,
)
    requires
        plain_menu(acts),
        0 <= street < 3,
    ensures
        says_so(
            profile::lock_name(stats, street, profile::menu_of(acts, largest), initiative),
            acts,
            street,
            initiative,
            profile::aims(
                stats,
                street,
                profile::menu_of(acts, largest),
                initiative,
                acts.len() as int,
            ),
        ),
{
    let k = acts.len() as int;
    let menu = profile::menu_of(acts, largest);
    let freqs = profile::aims(stats, street, menu, initiative, k);
    let name = profile::lock_name(stats, street, menu, initiative);
    law_aims_follow_the_stats(acts, stats, street, initiative, largest);
    assert(nano::ten_to(0) == 1);
    lemma_fold_at(acts, k);
    lemma_passive_at(acts, k);
    lemma_preferred_at(acts, largest, k);
    assert(acts.take(k) =~= acts);
    lemma_share(stats.fold_to_bet[street]);
    lemma_share(stats.raise_bet);
    lemma_share(stats.cbet[street]);
    lemma_share(stats.donk);
    let p = match menu.preferred {
        Some(p) => p as int,
        None => -1,
    };
    assert forall|j: int| 0 <= j < k && j != p && attacks(#[trigger] acts[j]) implies freqs[j].count
        == 0 by {
        assert(freqs[j] == Nano::decimal_spec(0, 0));
    }
    lemma_attack_share(acts, freqs, k, p);
    reveal_strlit("profile:");
    reveal_strlit("profile: ");
    reveal_strlit(" ");
    assert(locks::PROFILE_LABEL@ + " "@ =~= "profile: "@);
    let street_text = profile::street_text(street);
    let when = "profile: "@ + street_text;
    assert(locks::PROFILE_LABEL@ + " "@ + street_text =~= when);
    if menu.fold is Some {
        let (x, r) = profile::facing_aims(stats, street, menu);
        lemma_percents(x);
        lemma_percents(r);
        assert(acts[menu.fold->Some_0 as int] is Fold);
        assert forall|f: int| 0 <= f < k && #[trigger] acts[f] is Fold implies name == when
            + " fold "@ + nano::fixed_text(100 * freqs[f].count, 0) + "% / raise "@
            + nano::fixed_text(100 * attack_share(acts, freqs, k), 0) + "%"@ by {
            assert(f == menu.fold->Some_0);
            assert(freqs[f] == x);
        }
    } else {
        let bet = profile::betting_aim(stats, street, menu, initiative);
        lemma_percents(bet);
    }
}

/// Whether what was laid down at a decision is the solved strategy raked to
/// frequencies that the stats tell, under a label that says so.
pub open spec fn lays_down(
    s: Solver<Nano>,
    aim: Aim<Nano>,
    idx: int,
    reach: Seq<Nano>,
    aggressor: Option<usize>,
    after: Laid<Nano>,
    freqs: Seq<Nano>,
) -> bool {
    let acts = s.acts_at(idx);
    let street = s.node(idx).street as int;
    let initiative = aggressor is Some && aggressor->0 == aim.villain;
    &&& as_told(acts, aim.stats, street, initiative, aim.stats.bet_size@ == "max"@, freqs)
    &&& says_so(after.labels[idx as u32], acts, street, initiative, freqs)
    &&& after.labels.contains_key(idx as u32)
    &&& after.locks.contains_key(idx as u32)
    &&& after.locks[idx as u32] == rake::raked::<Nano>(
        s.solved(idx),
        acts.len() as int,
        s.nh(aim.villain),
        reach,
        freqs,
    )
}

/// Law: where a profile lays a lock down, the villain's solved strategy there
/// is raked to what the stats tell for the node's street, and for whether the
/// villain made the last bet or raise on the way; the label tells it. The
/// user's own locks stay.
pub proof fn law_profiles_lock_what_the_stats_tell(
    s: Solver<Nano>,
    aim: Aim<Nano>,
    idx: int,
    reach: Seq<Nano>,
    aggressor: Option<usize>,
    laid: Laid<Nano>,
)
    requires
        s.wf(),
        s.decides(idx),
        0 <= aim.villain < 2,
        plain_menu(s.acts_at(idx)),
        !Solver::<Nano>::manual(laid, idx),
    ensures
        exists|freqs: Seq<Nano>| #[trigger]
            lays_down(
                s,
                aim,
                idx,
                reach,
                aggressor,
                s.laid_at(aim, idx, reach, aggressor, laid).0,
                freqs,
            ),
{
    let acts = s.acts_at(idx);
    let street = s.node(idx).street as int;
    let initiative = aggressor == Some(aim.villain as usize);
    let largest = aim.stats.bet_size@ == "max"@;
    assert(crate::tree_laws::node_sound(s.spot.tree.arena(), s.spot.board_mask, idx));
    law_aims_follow_the_stats(acts, aim.stats, street, initiative, largest);
    law_labels_tell_the_aims(acts, aim.stats, street, initiative, largest);
    let freqs = profile::aims(
        aim.stats,
        street,
        profile::menu_of(acts, largest),
        initiative,
        acts.len() as int,
    );
    assert(lays_down(
        s,
        aim,
        idx,
        reach,
        aggressor,
        s.laid_at(aim, idx, reach, aggressor, laid).0,
        freqs,
    ));
}

} // verus!
