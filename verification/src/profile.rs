//! Postflop player profiles. HUD stats compile into locks over every node
//! where the villain acts, distorting the solved strategy (hands that bet most
//! keep betting most) to the stat targets.

use crate::locks::PROFILE_LABEL;
use crate::num;
use crate::num::{larger, smaller, Num, Single};
use crate::strategy;
use crate::strategy::filled;
use crate::text::{chars_of, push_all, string_of};
use crate::tree::Action;
use vstd::prelude::*;

verus! {

/// Postflop HUD stats for a modeled villain. Percent units throughout.
#[derive(Debug, Clone)]
pub struct PostflopStats<S> {
    /// Bet frequency with the initiative, per street [flop, turn, river]
    /// (flop = c-bet, turn/river = barrels).
    pub cbet: [S; 3],
    /// Fold frequency facing a bet or raise, per street. Applies at every
    /// raise depth.
    pub fold_to_bet: [S; 3],
    /// Raise frequency facing a bet (any street, any depth).
    pub raise_bet: S,
    /// Bet frequency without the initiative (donk / stab), any street.
    pub donk: S,
    /// Which size takes the bet/raise mass: "min" | "max".
    pub bet_size: String,
}

/// Whether two records of play say the same.
pub open spec fn same_stats<S>(a: PostflopStats<S>, b: PostflopStats<S>) -> bool {
    &&& a.cbet == b.cbet
    &&& a.fold_to_bet == b.fold_to_bet
    &&& a.raise_bet == b.raise_bet
    &&& a.donk == b.donk
    &&& a.bet_size@ == b.bet_size@
}

impl<S: Copy> PostflopStats<S> {
    /// A record that says the same.
    pub fn duplicate(&self) -> (r: Self)
        ensures
            same_stats(r, *self),
    {
        PostflopStats {
            cbet: self.cbet,
            fold_to_bet: self.fold_to_bet,
            raise_bet: self.raise_bet,
            donk: self.donk,
            bet_size: self.bet_size.clone(),
        }
    }
}

/// The size that takes the betting mass where none is named.
pub fn default_bet_size() -> (r: String)
    ensures
        r@ == "min"@,
{
    "min".to_owned()
}

/// Reach-weighted target-vs-achieved readback per situation (trust check:
/// raking can't force actions the solved strategy never uses).
#[derive(Debug, Clone)]
pub struct ProfileLockRow<S> {
    pub label: String,
    pub target: S,
    pub achieved: S,
}

#[derive(Debug, Clone)]
pub struct ProfileLockSummary<S> {
    pub locked: usize,
    pub rows: Vec<ProfileLockRow<S>>,
}

// ---------------------------------------------------------------------------
// What a node asks of the villain
// ---------------------------------------------------------------------------

/// Where the actions of a node stand: the fold, the check or call, and the
/// bet or raise that takes the mass.
#[derive(Clone, Copy)]
pub struct Menu {
    pub fold: Option<usize>,
    pub passive: Option<usize>,
    pub preferred: Option<usize>,
}

/// The last fold among the first `k` actions.
pub open spec fn fold_among<W>(acts: Seq<Action<W>>, k: int) -> Option<usize>
    decreases k,
{
    if k <= 0 {
        None
    } else if acts[k - 1] is Fold {
        Some((k - 1) as usize)
    } else {
        fold_among(acts, k - 1)
    }
}

/// The last check or call among the first `k` actions.
pub open spec fn passive_among<W>(acts: Seq<Action<W>>, k: int) -> Option<usize>
    decreases k,
{
    if k <= 0 {
        None
    } else if acts[k - 1] is Check || acts[k - 1] is Call {
        Some((k - 1) as usize)
    } else {
        passive_among(acts, k - 1)
    }
}

/// The amount of a bet or raise.
pub open spec fn aggression<W>(a: Action<W>) -> Option<W> {
    match a {
        Action::Bet(x) => Some(x),
        Action::Raise(x) => Some(x),
        _ => None,
    }
}

/// The largest bet or raise among the first `k` actions (the last of several),
/// or the smallest (the first of several).
pub open spec fn preferred_among<W: Num>(acts: Seq<Action<W>>, largest: bool, k: int) -> Option<
    usize,
>
    decreases k,
{
    if k <= 0 {
        None
    } else {
        let prev = preferred_among(acts, largest, k - 1);
        match aggression(acts[k - 1]) {
            None => prev,
            Some(x) => match prev {
                None => Some((k - 1) as usize),
                Some(j) => {
                    let y = aggression(acts[j as int])->Some_0;
                    if if largest {
                        y.at_most_spec(x)
                    } else {
                        x.below_spec(y)
                    } {
                        Some((k - 1) as usize)
                    } else {
                        prev
                    }
                },
            },
        }
    }
}

pub open spec fn menu_of<W: Num>(acts: Seq<Action<W>>, largest: bool) -> Menu {
    let k = acts.len() as int;
    Menu {
        fold: fold_among(acts, k),
        passive: passive_among(acts, k),
        preferred: preferred_among(acts, largest, k),
    }
}

proof fn lemma_menu<W: Num>(acts: Seq<Action<W>>, largest: bool, k: int)
    requires
        0 <= k <= acts.len() <= usize::MAX,
    ensures
        fold_among(acts, k) is Some ==> fold_among(acts, k)->Some_0 < k,
        passive_among(acts, k) is Some ==> passive_among(acts, k)->Some_0 < k,
        preferred_among(acts, largest, k) is Some ==> preferred_among(acts, largest, k)->Some_0 < k
            && aggression(acts[preferred_among(acts, largest, k)->Some_0 as int]) is Some,
    decreases k,
{
    if k > 0 {
        lemma_menu(acts, largest, k - 1);
    }
}

pub(crate) fn read_menu<W: Num>(acts: &[Action<W>], largest: bool) -> (r: Menu)
    ensures
        r == menu_of(acts@, largest),
        r.fold is Some ==> r.fold->Some_0 < acts@.len(),
        r.passive is Some ==> r.passive->Some_0 < acts@.len(),
        r.preferred is Some ==> r.preferred->Some_0 < acts@.len(),
{
    let mut fold: Option<usize> = None;
    let mut passive: Option<usize> = None;
    let mut preferred: Option<usize> = None;
    let mut amount: Option<W> = None;
    let n: usize = acts.len();
    let mut k: usize = 0;
    while k < n
        invariant
            k <= n == acts@.len(),
            fold == fold_among(acts@, k as int),
            passive == passive_among(acts@, k as int),
            preferred == preferred_among(acts@, largest, k as int),
            preferred is Some <==> amount is Some,
            preferred is Some ==> preferred->Some_0 < k && amount == aggression(
                acts@[preferred->Some_0 as int],
            ),
        decreases n - k,
    {
        match acts[k] {
            Action::Fold => {
                fold = Some(k);
            },
            Action::Check => {
                passive = Some(k);
            },
            Action::Call(_) => {
                passive = Some(k);
            },
            Action::Bet(x) => {
                let takes: bool = match amount {
                    None => true,
                    Some(y) => if largest {
                        y.at_most(x)
                    } else {
                        x.below(y)
                    },
                };
                if takes {
                    preferred = Some(k);
                    amount = Some(x);
                }
            },
            Action::Raise(x) => {
                let takes: bool = match amount {
                    None => true,
                    Some(y) => if largest {
                        y.at_most(x)
                    } else {
                        x.below(y)
                    },
                };
                if takes {
                    preferred = Some(k);
                    amount = Some(x);
                }
            },
        }
        k = k + 1;
    }
    proof {
        lemma_menu(acts@, largest, n as int);
    }
    Menu { fold, passive, preferred }
}

/// A number held between zero and one.
pub open spec fn unit_clamped<S: Num>(x: S) -> S {
    if x.below_spec(S::decimal_spec(0, 0)) {
        S::decimal_spec(0, 0)
    } else if S::decimal_spec(1, 0).below_spec(x) {
        S::decimal_spec(1, 0)
    } else {
        x
    }
}

fn clamp_unit<S: Num>(x: S) -> (r: S)
    ensures
        r == unit_clamped(x),
{
    let zero = S::decimal(0, 0);
    let one = S::decimal(1, 0);
    if x.below(zero) {
        zero
    } else if one.below(x) {
        one
    } else {
        x
    }
}

/// A percentage as a fraction between zero and one.
pub open spec fn fraction<S: Num>(percent: S) -> S {
    unit_clamped(percent.over_spec(S::decimal_spec(100, 0)))
}

pub open spec fn street_text(st: int) -> Seq<char> {
    if st == 0 {
        "flop"@
    } else if st == 1 {
        "turn"@
    } else {
        "river"@
    }
}

pub(crate) fn street_name(st: usize) -> (r: Vec<char>)
    ensures
        r@ == street_text(st as int),
{
    if st == 0 {
        chars_of("flop")
    } else if st == 1 {
        chars_of("turn")
    } else {
        chars_of("river")
    }
}

/// A fraction as whole percents.
pub open spec fn percent_text<S: Num>(x: S) -> Seq<char> {
    x.times_spec(S::decimal_spec(100, 0)).fixed_spec(0)
}

/// How often the villain folds and raises facing a bet.
pub open spec fn facing_aims<S: Num>(stats: PostflopStats<S>, st: int, menu: Menu) -> (S, S) {
    let one = S::decimal_spec(1, 0);
    let f = fraction(stats.fold_to_bet[st]);
    let r = if menu.preferred is Some {
        num::smaller_of(fraction(stats.raise_bet), one.minus_spec(f))
    } else {
        S::decimal_spec(0, 0)
    };
    (f, r)
}

/// How often the villain bets when nobody has.
pub open spec fn betting_aim<S: Num>(
    stats: PostflopStats<S>,
    st: int,
    menu: Menu,
    leads: bool,
) -> S {
    if menu.preferred is None {
        S::decimal_spec(0, 0)
    } else if leads {
        fraction(stats.cbet[st])
    } else {
        fraction(stats.donk)
    }
}

/// A list with one entry set, where there is a place for it.
pub open spec fn put_at<S>(s: Seq<S>, at: Option<usize>, v: S) -> Seq<S> {
    match at {
        Some(i) => s.update(i as int, v),
        None => s,
    }
}

/// The frequencies that the stats ask for at a node.
pub open spec fn aims<S: Num>(
    stats: PostflopStats<S>,
    st: int,
    menu: Menu,
    leads: bool,
    na: int,
) -> Seq<S> {
    let zero = S::decimal_spec(0, 0);
    let one = S::decimal_spec(1, 0);
    let none = strategy::level(na as nat, zero);
    if menu.fold is Some {
        let (f, r) = facing_aims(stats, st, menu);
        let folding = put_at(none, menu.fold, f);
        let calling = put_at(
            folding,
            menu.passive,
            num::larger_of(zero, one.minus_spec(f).minus_spec(r)),
        );
        put_at(calling, menu.preferred, r)
    } else {
        let b = betting_aim(stats, st, menu, leads);
        put_at(put_at(none, menu.passive, one.minus_spec(b)), menu.preferred, b)
    }
}

/// What the lock of a node is called.
pub open spec fn lock_name<S: Num>(
    stats: PostflopStats<S>,
    st: int,
    menu: Menu,
    leads: bool,
) -> Seq<char> {
    if menu.fold is Some {
        let (f, r) = facing_aims(stats, st, menu);
        PROFILE_LABEL@ + " "@ + street_text(st) + " fold "@ + percent_text(f) + "% / raise "@
            + percent_text(r) + "%"@
    } else {
        PROFILE_LABEL@ + " "@ + street_text(st) + if leads {
            " c-bet "@
        } else {
            " stab "@
        } + percent_text(betting_aim(stats, st, menu, leads)) + "%"@
    }
}

fn push_str(out: &mut Vec<char>, s: &str)
    ensures
        final(out)@ == old(out)@ + s@,
{
    let v = chars_of(s);
    push_all(out, &v);
}

fn push_percent<S: Num>(out: &mut Vec<char>, x: S)
    ensures
        final(out)@ == old(out)@ + percent_text(x),
{
    let s = x.times(S::decimal(100, 0)).fixed(0);
    push_str(out, s.as_str());
}

fn set_at<S: Copy>(s: &mut Vec<S>, at: Option<usize>, v: S)
    requires
        at is Some ==> at->Some_0 < old(s)@.len(),
    ensures
        final(s)@ == put_at(old(s)@, at, v),
        final(s)@.len() == old(s)@.len(),
{
    match at {
        Some(i) => s.set(i, v),
        None => {},
    }
}

/// The frequencies and the name of a node's lock.
pub(crate) fn plan_lock<S: Num>(
    stats: &PostflopStats<S>,
    st: usize,
    menu: Menu,
    leads: bool,
    na: usize,
) -> (r: (Vec<S>, String))
    requires
        st < 3,
        menu.fold is Some ==> menu.fold->Some_0 < na,
        menu.passive is Some ==> menu.passive->Some_0 < na,
        menu.preferred is Some ==> menu.preferred->Some_0 < na,
    ensures
        r.0@ == aims(*stats, st as int, menu, leads, na as int),
        r.0@.len() == na,
        r.1@ == lock_name(*stats, st as int, menu, leads),
{
    let zero = S::decimal(0, 0);
    let one = S::decimal(1, 0);
    let hundred = S::decimal(100, 0);
    let mut target = filled(na, zero);
    let mut name = chars_of(PROFILE_LABEL);
    push_str(&mut name, " ");
    push_all(&mut name, &street_name(st));
    if menu.fold.is_some() {
        let f = clamp_unit(stats.fold_to_bet[st].over(hundred));
        let r = if menu.preferred.is_some() {
            smaller(clamp_unit(stats.raise_bet.over(hundred)), one.minus(f))
        } else {
            zero
        };
        set_at(&mut target, menu.fold, f);
        set_at(&mut target, menu.passive, larger(zero, one.minus(f).minus(r)));
        set_at(&mut target, menu.preferred, r);
        push_str(&mut name, " fold ");
        push_percent(&mut name, f);
        push_str(&mut name, "% / raise ");
        push_percent(&mut name, r);
        push_str(&mut name, "%");
    } else {
        let b = if menu.preferred.is_none() {
            zero
        } else if leads {
            clamp_unit(stats.cbet[st].over(hundred))
        } else {
            clamp_unit(stats.donk.over(hundred))
        };
        set_at(&mut target, menu.passive, one.minus(b));
        set_at(&mut target, menu.preferred, b);
        if leads {
            push_str(&mut name, " c-bet ");
        } else {
            push_str(&mut name, " stab ");
        }
        push_percent(&mut name, b);
        push_str(&mut name, "%");
    }
    let text = string_of(name.as_slice());
    (target, text)
}

} // verus!
