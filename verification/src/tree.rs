//! Game tree construction from the betting configuration.
//!
//! Streets are indexed 0 = flop, 1 = turn, 2 = river. Players: 0 = OOP, 1 = IP.

use crate::cards::{cards_mask, Card};
use crate::cards;
use crate::messages;
use crate::messages::write_whole;
use crate::num::{integer, larger, magnitude, smaller, Num};
use crate::growth_laws;
use crate::num;
use crate::text::{chars_of, push_all, string_of};
use vstd::prelude::*;

pub use crate::sizing::parse_sizes;

verus! {

pub const OOP: u8 = 0;

pub const IP: u8 = 1;

/// The child slot of a card that cannot come.
pub const SENTINEL: u32 = 0xffff_ffff;

/// Most hands a player may bring: the arena offsets then stay within 64 bits.
pub const MAX_HANDS: usize = 0x100_0000;

/// Most actions a node may have.
pub const MAX_ACTIONS: usize = 250;

/// A bet size specification.
#[derive(Clone, Copy, Debug, PartialEq)]
pub enum BetSize<N> {
    /// Percentage of the pot (75 = 75% pot).
    PotPct(N),
    /// Multiple of the opponent's bet (raises only), 3 = raise to 3x.
    PrevMult(N),
    /// All-in.
    AllIn,
}

/// Bet sizing options for one player on one street.
#[derive(Clone, Debug)]
pub struct StreetSizing<N> {
    pub bet: Vec<BetSize<N>>,
    pub raise: Vec<BetSize<N>>,
    /// OOP only: lead sizes when the opponent was the last street's aggressor.
    pub donk: Vec<BetSize<N>>,
}

#[derive(Clone, Debug)]
pub struct TreeConfig<N> {
    /// Total chips in the pot at the root (both players' prior contributions).
    pub starting_pot: N,
    /// Effective remaining stack behind for each player.
    pub effective_stack: N,
    /// Rake fraction of the final pot (0.05 = 5%).
    pub rake_pct: N,
    /// Rake cap in chips (0 = no cap).
    pub rake_cap: N,
    /// Sizing per street for each player: [flop, turn, river].
    pub oop: [StreetSizing<N>; 3],
    pub ip: [StreetSizing<N>; 3],
    /// A bet or raise to at least this fraction of the largest possible
    /// amount becomes all-in.
    pub allin_threshold: N,
    /// Always offer an all-in option in addition to configured sizes.
    pub add_allin: bool,
    /// Maximum number of raises per street.
    pub max_raises: u8,
}

/// Player action at a decision node.
#[derive(Clone, Copy, Debug, PartialEq)]
pub enum Action<N> {
    Fold,
    Check,
    /// Call, matching the opponent's street contribution.
    Call(N),
    /// Bet to this street-total amount.
    Bet(N),
    /// Raise to this street-total amount.
    Raise(N),
}

pub const KIND_ACTION: u8 = 0;

pub const KIND_CHANCE: u8 = 1;

pub const KIND_TERM_FOLD: u8 = 2;

pub const KIND_TERM_SHOWDOWN: u8 = 3;

/// Compact node. Children and actions live in shared arenas in `Tree`.
#[derive(Clone, Copy, Debug)]
pub struct Node<N> {
    pub kind: u8,
    /// Action node: acting player. Fold terminal: the player who folded.
    pub player: u8,
    /// Street of this node (0/1/2). For chance nodes: street being dealt INTO.
    pub street: u8,
    pub num_children: u8,
    /// Index into `Tree::children`. Chance nodes own 52 slots (card -> child).
    pub children_start: u32,
    /// Action nodes: index into `Tree::actions` (num_children entries).
    pub actions_start: u32,
    /// Action nodes: offset (in elements) into the regret/strategy arenas.
    pub data_offset: u64,
    /// Total contribution of each player when this node is reached.
    pub put: [N; 2],
    /// Showdown: payoff for winner (+), loser (-), and tie delta.
    /// Fold terminal: t_win = winner's net gain, t_lose = folder's net loss.
    pub t_win: N,
    pub t_lose: N,
    pub t_tie: N,
}

pub struct Tree<N> {
    pub config: TreeConfig<N>,
    /// Street of the root (0 if solving from the flop, 1 from turn, 2 from river).
    pub root_street: u8,
    pub nodes: Vec<Node<N>>,
    pub children: Vec<u32>,
    pub actions: Vec<Action<N>>,
    /// data_size[p] counts the arena elements of the nodes where p acts.
    pub data_size: [u64; 2],
}

/// How strictly the builder validates the sizing config.
///
/// `Strict` is for every new build: a raise-only size ("2.5x") in a consumed
/// bet or donk list is an error, because the size would silently vanish.
/// `LenientLoad` is for rebuilding a tree from a saved config: such a size is
/// dropped, as it was when the file was written, so that the layout matches.
#[derive(Clone, Copy, Debug, PartialEq, Eq, Structural)]
pub enum Strictness {
    Strict,
    LenientLoad,
}

/// Why a tree was not built.
#[derive(Clone, Copy, Debug, PartialEq)]
pub enum BuildError<N> {
    /// The board does not have 3 to 5 cards.
    BoardLength,
    /// Pot and stacks must be positive.
    Stakes,
    /// A raise-only size stands in a bet list (or, if `donk`, a donk list).
    RaiseOnly { street: u8, player: u8, donk: bool, mult: N },
    /// The tree grew past the node budget.
    Budget { cap: usize },
    /// A node would have no action, or more than a node can hold.
    ActionCount { count: usize },
    /// The tree grew past what 32-bit indices can address.
    IndexSpace,
}

/// Where the betting stands.
#[derive(Clone, Copy)]
pub struct BuildState<N> {
    pub street: u8,
    pub to_act: u8,
    pub put: [N; 2],
    pub street_bet: [N; 2],
    pub last_increment: N,
    pub num_raises: u8,
    /// Last street's final aggressor (carried over check-check streets).
    pub last_aggressor: Option<u8>,
    /// Whether the first player already checked this street.
    pub checked: bool,
}

// ---------------------------------------------------------------------------
// The betting rules
// ---------------------------------------------------------------------------

/// The slack within which two chip amounts count as equal: 1e-9.
pub open spec fn slack<N: Num>() -> N {
    N::decimal_spec(1, 9)
}

pub open spec fn other(p: u8) -> int {
    1 - p
}

/// What a player who has put in `put` still has behind.
pub open spec fn behind<N: Num>(cfg: TreeConfig<N>, put: N) -> N {
    cfg.effective_stack.minus_spec(
        put.minus_spec(cfg.starting_pot.over_spec(N::decimal_spec(2, 0))),
    )
}

/// The sizing lists of one player.
pub open spec fn lists<N>(cfg: TreeConfig<N>, player: u8) -> [StreetSizing<N>; 3] {
    if player == OOP {
        cfg.oop
    } else {
        cfg.ip
    }
}

/// How much the player to act must add to match the opponent.
pub open spec fn facing<N: Num>(st: BuildState<N>) -> N {
    st.street_bet[other(st.to_act)].minus_spec(st.street_bet[st.to_act as int])
}

/// An amount at or past the all-in threshold becomes the all-in amount.
pub open spec fn snapped<N: Num>(to: N, max_to: N, threshold: N) -> N {
    if max_to.minus_spec(slack()).at_most_spec(to) || threshold.times_spec(max_to).minus_spec(
        slack(),
    ).at_most_spec(to) {
        max_to
    } else {
        to
    }
}

/// The amount that a raise size stands for.
pub open spec fn raise_to<N: Num>(size: BetSize<N>, bet: N, pot_after_call: N, max_to: N) -> N {
    match size {
        BetSize::PotPct(p) => bet.plus_spec(
            p.over_spec(N::decimal_spec(100, 0)).times_spec(pot_after_call),
        ),
        BetSize::PrevMult(m) => bet.times_spec(m),
        BetSize::AllIn => max_to,
    }
}

/// The amounts that a list of raise sizes stands for.
pub open spec fn raise_candidates<N: Num>(
    sizes: Seq<BetSize<N>>,
    bet: N,
    pot_after_call: N,
    max_to: N,
) -> Seq<N> {
    Seq::new(sizes.len(), |i: int| raise_to(sizes[i], bet, pot_after_call, max_to))
}

/// The raises that remain after lifting each to the minimum, turning those
/// past the threshold into all-ins and dropping those that do not raise.
pub open spec fn kept_raises<N: Num>(
    cands: Seq<N>,
    bet: N,
    min_to: N,
    max_to: N,
    threshold: N,
) -> Seq<N>
    decreases cands.len(),
{
    if cands.len() == 0 {
        Seq::empty()
    } else {
        let rest = kept_raises(cands.drop_last(), bet, min_to, max_to, threshold);
        let lifted = if cands.last().below_spec(min_to) {
            min_to
        } else {
            cands.last()
        };
        let to = snapped(lifted, max_to, threshold);
        if bet.plus_spec(slack()).below_spec(to) {
            rest.push(to)
        } else {
            rest
        }
    }
}

/// The amounts that a list of bet sizes stands for. A raise-only size stands
/// for none.
pub open spec fn bet_candidates<N: Num>(sizes: Seq<BetSize<N>>, pot: N, max_to: N) -> Seq<N>
    decreases sizes.len(),
{
    if sizes.len() == 0 {
        Seq::empty()
    } else {
        let rest = bet_candidates(sizes.drop_last(), pot, max_to);
        match sizes.last() {
            BetSize::PotPct(p) => rest.push(
                p.over_spec(N::decimal_spec(100, 0)).times_spec(pot),
            ),
            BetSize::PrevMult(_) => rest,
            BetSize::AllIn => rest.push(max_to),
        }
    }
}

/// The bets that remain after dropping those of no chips and turning those
/// past the threshold into all-ins.
pub open spec fn kept_bets<N: Num>(cands: Seq<N>, max_to: N, threshold: N) -> Seq<N>
    decreases cands.len(),
{
    if cands.len() == 0 {
        Seq::empty()
    } else {
        let rest = kept_bets(cands.drop_last(), max_to, threshold);
        if cands.last().at_most_spec(slack()) {
            rest
        } else {
            rest.push(snapped(cands.last(), max_to, threshold))
        }
    }
}

/// `s`, in ascending order, with `x` put behind everything that is not larger.
pub open spec fn inserted<N: Num>(s: Seq<N>, x: N) -> Seq<N>
    decreases s.len(),
{
    if s.len() > 0 && x.below_spec(s.last()) {
        inserted(s.drop_last(), x).push(s.last())
    } else {
        s.push(x)
    }
}

/// `s` in ascending order; equal amounts keep their order.
pub open spec fn ascending<N: Num>(s: Seq<N>) -> Seq<N>
    decreases s.len(),
{
    if s.len() == 0 {
        s
    } else {
        inserted(ascending(s.drop_last()), s.last())
    }
}

/// Whether two amounts are less than 1e-6 apart.
pub open spec fn near<N: Num>(a: N, b: N) -> bool {
    num::magnitude_of(a.minus_spec(b)).below_spec(N::decimal_spec(1, 6))
}

/// `s` without the amounts that are near the last one kept before them.
pub open spec fn thinned<N: Num>(s: Seq<N>) -> Seq<N>
    decreases s.len(),
{
    if s.len() == 0 {
        s
    } else {
        let rest = thinned(s.drop_last());
        if rest.len() > 0 && near(s.last(), rest.last()) {
            rest
        } else {
            rest.push(s.last())
        }
    }
}

/// Whether the player to act leads into the aggressor of an earlier street.
pub open spec fn donking<N>(root_street: u8, st: BuildState<N>) -> bool {
    st.to_act == OOP && st.street > root_street && st.last_aggressor == Some(IP)
}

/// The raises open to the player to act.
pub open spec fn raises<N: Num>(cfg: TreeConfig<N>, st: BuildState<N>) -> Seq<N> {
    let me = st.to_act as int;
    let bet = st.street_bet[other(st.to_act)];
    let stack = behind(cfg, st.put[me]);
    let pot_after_call = st.put[0].plus_spec(st.put[1]).plus_spec(facing(st));
    let max_to = st.street_bet[me].plus_spec(stack);
    let min_to = bet.plus_spec(num::larger_of(st.last_increment, slack()));
    let sizes = lists(cfg, st.to_act)[st.street as int].raise@;
    let named = raise_candidates(sizes, bet, pot_after_call, max_to);
    let cands = if cfg.add_allin {
        named.push(max_to)
    } else {
        named
    };
    thinned(ascending(kept_raises(cands, bet, min_to, max_to, cfg.allin_threshold)))
}

/// The sizes from which the player to act may bet.
pub open spec fn bet_list<N>(cfg: TreeConfig<N>, root_street: u8, st: BuildState<N>) -> Seq<
    BetSize<N>,
> {
    let sizing = lists(cfg, st.to_act)[st.street as int];
    if donking(root_street, st) {
        sizing.donk@
    } else {
        sizing.bet@
    }
}

/// The bets open to the player to act.
pub open spec fn bets<N: Num>(cfg: TreeConfig<N>, root_street: u8, st: BuildState<N>) -> Seq<N> {
    let max_to = behind(cfg, st.put[st.to_act as int]);
    let pot = st.put[0].plus_spec(st.put[1]);
    let sizes = bet_list(cfg, root_street, st);
    let named = bet_candidates(sizes, pot, max_to);
    let cands = if cfg.add_allin && (sizes.len() > 0 || !donking(root_street, st)) {
        named.push(max_to)
    } else {
        named
    };
    thinned(ascending(kept_bets(cands, max_to, cfg.allin_threshold)))
}

/// Whether the player to act has chips for a raise and raises are left.
pub open spec fn may_raise<N: Num>(cfg: TreeConfig<N>, st: BuildState<N>) -> bool {
    &&& facing(st).plus_spec(slack()).below_spec(behind(cfg, st.put[st.to_act as int]))
    &&& st.num_raises < cfg.max_raises
}

/// The legal actions, in order: facing a bet, fold, call and the raises;
/// otherwise check and the bets.
pub open spec fn legal<N: Num>(cfg: TreeConfig<N>, root_street: u8, st: BuildState<N>) -> Seq<
    Action<N>,
> {
    if slack::<N>().below_spec(facing(st)) {
        let stay = seq![Action::Fold, Action::Call(st.street_bet[other(st.to_act)])];
        if may_raise(cfg, st) {
            stay + raises(cfg, st).map_values(|to: N| Action::Raise(to))
        } else {
            stay
        }
    } else {
        let stay = seq![Action::Check];
        if slack::<N>().below_spec(behind(cfg, st.put[st.to_act as int])) {
            stay + bets(cfg, root_street, st).map_values(|to: N| Action::Bet(to))
        } else {
            stay
        }
    }
}

/// The rake taken from a pot.
pub open spec fn rake_of<N: Num>(cfg: TreeConfig<N>, pot: N) -> N {
    let r = cfg.rake_pct.times_spec(pot);
    if N::decimal_spec(0, 0).below_spec(cfg.rake_cap) {
        num::smaller_of(r, cfg.rake_cap)
    } else {
        r
    }
}

// ---------------------------------------------------------------------------
// The rules, computed
// ---------------------------------------------------------------------------

fn chips_behind<N: Num>(cfg: &TreeConfig<N>, put: N) -> (r: N)
    ensures
        r == behind(*cfg, put),
{
    cfg.effective_stack.minus(put.minus(cfg.starting_pot.over(N::decimal(2, 0))))
}

fn snap<N: Num>(to: N, max_to: N, threshold: N) -> (r: N)
    ensures
        r == snapped(to, max_to, threshold),
{
    let eps = N::decimal(1, 9);
    if max_to.minus(eps).at_most(to) || threshold.times(max_to).minus(eps).at_most(to) {
        max_to
    } else {
        to
    }
}

/// Sorts amounts in ascending order and drops those near the one before.
fn dedupe_amounts<N: Num>(v: &Vec<N>) -> (r: Vec<N>)
    ensures
        r@ == thinned(ascending(v@)),
{
    let mut sorted: Vec<N> = Vec::new();
    let mut i: usize = 0;
    assert(v@.take(0) =~= Seq::<N>::empty());
    while i < v.len()
        invariant
            i <= v.len(),
            sorted@ == ascending(v@.take(i as int)),
        decreases v.len() - i,
    {
        let x = v[i];
        let ghost before = sorted@;
        let mut k: usize = sorted.len();
        assert(before.take(k as int) =~= before);
        assert(inserted(before, x) =~= inserted(before.take(k as int), x) + before.skip(k as int));
        while k > 0 && x.below(sorted[k - 1])
            invariant
                k <= sorted.len(),
                sorted@ == before,
                inserted(before, x) == inserted(before.take(k as int), x) + before.skip(k as int),
            decreases k,
        {
            assert(before.take(k as int).drop_last() =~= before.take(k - 1));
            assert(inserted(before.take(k as int), x) == inserted(before.take(k - 1), x).push(
                before[k - 1],
            ));
            k = k - 1;
            assert(before.skip(k as int) =~= seq![before[k as int]] + before.skip(k + 1));
            assert(inserted(before, x) =~= inserted(before.take(k as int), x) + before.skip(
                k as int,
            ));
        }
        assert(inserted(before.take(k as int), x) == before.take(k as int).push(x));
        sorted.insert(k, x);
        assert(sorted@ =~= before.take(k as int).push(x) + before.skip(k as int));
        assert(v@.take(i + 1).drop_last() =~= v@.take(i as int));
        i = i + 1;
    }
    assert(v@.take(v@.len() as int) =~= v@);
    let mut out: Vec<N> = Vec::new();
    let mut j: usize = 0;
    assert(sorted@.take(0) =~= Seq::<N>::empty());
    while j < sorted.len()
        invariant
            j <= sorted.len(),
            out@ == thinned(sorted@.take(j as int)),
        decreases sorted.len() - j,
    {
        assert(sorted@.take(j + 1).drop_last() =~= sorted@.take(j as int));
        let x = sorted[j];
        let n: usize = out.len();
        if n == 0 || !magnitude(x.minus(out[n - 1])).below(N::decimal(1, 6)) {
            out.push(x);
        }
        j = j + 1;
    }
    assert(sorted@.take(sorted@.len() as int) =~= sorted@);
    out
}

fn raise_amounts<N: Num>(
    sizes: &Vec<BetSize<N>>,
    add_allin: bool,
    bet: N,
    pot_after_call: N,
    max_to: N,
) -> (r: Vec<N>)
    ensures
        r@ == ({
            let named = raise_candidates(sizes@, bet, pot_after_call, max_to);
            if add_allin {
                named.push(max_to)
            } else {
                named
            }
        }),
{
    let mut out: Vec<N> = Vec::new();
    let mut i: usize = 0;
    while i < sizes.len()
        invariant
            i <= sizes.len(),
            out@.len() == i,
            forall|k: int|
                0 <= k < i ==> out@[k] == raise_to(sizes@[k], bet, pot_after_call, max_to),
        decreases sizes.len() - i,
    {
        let to: N = match sizes[i] {
            BetSize::PotPct(p) => bet.plus(p.over(N::decimal(100, 0)).times(pot_after_call)),
            BetSize::PrevMult(m) => bet.times(m),
            BetSize::AllIn => max_to,
        };
        out.push(to);
        i = i + 1;
    }
    assert(out@ =~= raise_candidates(sizes@, bet, pot_after_call, max_to));
    if add_allin {
        out.push(max_to);
    }
    out
}

fn keep_raises<N: Num>(cands: &Vec<N>, bet: N, min_to: N, max_to: N, threshold: N) -> (r: Vec<N>)
    ensures
        r@ == kept_raises(cands@, bet, min_to, max_to, threshold),
{
    let mut out: Vec<N> = Vec::new();
    let mut i: usize = 0;
    assert(cands@.take(0) =~= Seq::<N>::empty());
    while i < cands.len()
        invariant
            i <= cands.len(),
            out@ == kept_raises(cands@.take(i as int), bet, min_to, max_to, threshold),
        decreases cands.len() - i,
    {
        assert(cands@.take(i + 1).drop_last() =~= cands@.take(i as int));
        let mut to = cands[i];
        if to.below(min_to) {
            to = min_to;
        }
        to = snap(to, max_to, threshold);
        if bet.plus(N::decimal(1, 9)).below(to) {
            out.push(to);
        }
        i = i + 1;
    }
    assert(cands@.take(cands@.len() as int) =~= cands@);
    out
}

fn bet_amounts<N: Num>(sizes: &Vec<BetSize<N>>, pot: N, max_to: N) -> (r: Vec<N>)
    ensures
        r@ == bet_candidates(sizes@, pot, max_to),
{
    let mut out: Vec<N> = Vec::new();
    let mut i: usize = 0;
    assert(sizes@.take(0) =~= Seq::<BetSize<N>>::empty());
    while i < sizes.len()
        invariant
            i <= sizes.len(),
            out@ == bet_candidates(sizes@.take(i as int), pot, max_to),
        decreases sizes.len() - i,
    {
        assert(sizes@.take(i + 1).drop_last() =~= sizes@.take(i as int));
        match sizes[i] {
            BetSize::PotPct(p) => out.push(p.over(N::decimal(100, 0)).times(pot)),
            BetSize::PrevMult(_) => {},
            BetSize::AllIn => out.push(max_to),
        }
        i = i + 1;
    }
    assert(sizes@.take(sizes@.len() as int) =~= sizes@);
    out
}

fn keep_bets<N: Num>(cands: &Vec<N>, max_to: N, threshold: N) -> (r: Vec<N>)
    ensures
        r@ == kept_bets(cands@, max_to, threshold),
{
    let mut out: Vec<N> = Vec::new();
    let mut i: usize = 0;
    assert(cands@.take(0) =~= Seq::<N>::empty());
    while i < cands.len()
        invariant
            i <= cands.len(),
            out@ == kept_bets(cands@.take(i as int), max_to, threshold),
        decreases cands.len() - i,
    {
        assert(cands@.take(i + 1).drop_last() =~= cands@.take(i as int));
        if !cands[i].at_most(N::decimal(1, 9)) {
            out.push(snap(cands[i], max_to, threshold));
        }
        i = i + 1;
    }
    assert(cands@.take(cands@.len() as int) =~= cands@);
    out
}

/// The legal actions of a betting state.
pub fn legal_actions<N: Num>(cfg: &TreeConfig<N>, root_street: u8, st: &BuildState<N>) -> (r: Vec<
    Action<N>,
>)
    requires
        st.to_act < 2,
        st.street < 3,
    ensures
        r@ == legal(*cfg, root_street, *st),
{
    let me: usize = st.to_act as usize;
    let opp: usize = 1 - me;
    let eps = N::decimal(1, 9);
    let stack_me = chips_behind(cfg, st.put[me]);
    let to_match = st.street_bet[opp].minus(st.street_bet[me]);
    let sizing = if st.to_act == OOP {
        &cfg.oop[st.street as usize]
    } else {
        &cfg.ip[st.street as usize]
    };
    let mut actions: Vec<Action<N>> = Vec::new();
    if eps.below(to_match) {
        actions.push(Action::Fold);
        actions.push(Action::Call(st.street_bet[opp]));
        assert(actions@ =~= seq![Action::Fold, Action::Call(st.street_bet[other(st.to_act)])]);
        if to_match.plus(eps).below(stack_me) && st.num_raises < cfg.max_raises {
            let bet = st.street_bet[opp];
            let pot_after_call = st.put[0].plus(st.put[1]).plus(to_match);
            let max_to = st.street_bet[me].plus(stack_me);
            let cands = raise_amounts(&sizing.raise, cfg.add_allin, bet, pot_after_call, max_to);
            let min_to = bet.plus(larger(st.last_increment, eps));
            let kept = keep_raises(&cands, bet, min_to, max_to, cfg.allin_threshold);
            let tos = dedupe_amounts(&kept);
            let ghost stay = actions@;
            let mut i: usize = 0;
            while i < tos.len()
                invariant
                    i <= tos.len(),
                    actions@ == stay + tos@.take(i as int).map_values(|to: N| Action::Raise(to)),
                decreases tos.len() - i,
            {
                actions.push(Action::Raise(tos[i]));
                assert(actions@ =~= stay + tos@.take(i + 1).map_values(|to: N| Action::Raise(to)));
                i = i + 1;
            }
            assert(tos@.take(tos@.len() as int) =~= tos@);
            assert(tos@ == raises(*cfg, *st));
        }
    } else {
        actions.push(Action::Check);
        assert(actions@ =~= seq![Action::<N>::Check]);
        if eps.below(stack_me) {
            let leads = st.to_act == OOP && st.street > root_street && (match st.last_aggressor {
                Some(p) => p == IP,
                None => false,
            });
            let sizes = if leads {
                &sizing.donk
            } else {
                &sizing.bet
            };
            let pot = st.put[0].plus(st.put[1]);
            let mut cands = bet_amounts(sizes, pot, stack_me);
            if cfg.add_allin && (sizes.len() > 0 || !leads) {
                cands.push(stack_me);
            }
            let kept = keep_bets(&cands, stack_me, cfg.allin_threshold);
            let tos = dedupe_amounts(&kept);
            let ghost stay = actions@;
            let mut i: usize = 0;
            while i < tos.len()
                invariant
                    i <= tos.len(),
                    actions@ == stay + tos@.take(i as int).map_values(|to: N| Action::Bet(to)),
                decreases tos.len() - i,
            {
                actions.push(Action::Bet(tos[i]));
                assert(actions@ =~= stay + tos@.take(i + 1).map_values(|to: N| Action::Bet(to)));
                i = i + 1;
            }
            assert(tos@.take(tos@.len() as int) =~= tos@);
            assert(tos@ == bets(*cfg, root_street, *st));
        }
    }
    actions
}

fn rake<N: Num>(cfg: &TreeConfig<N>, pot: N) -> (r: N)
    ensures
        r == rake_of(*cfg, pot),
{
    let r = cfg.rake_pct.times(pot);
    if N::decimal(0, 0).below(cfg.rake_cap) {
        smaller(r, cfg.rake_cap)
    } else {
        r
    }
}

// ---------------------------------------------------------------------------
// Growing the tree
// ---------------------------------------------------------------------------

/// What stays fixed while a tree grows.
#[verifier::ext_equal]
pub struct Setting<N> {
    pub config: TreeConfig<N>,
    pub root_street: u8,
    pub board_mask: u64,
    pub max_nodes: Option<usize>,
    pub num_hands: [u64; 2],
}

/// The part of a tree grown so far.
#[verifier::ext_equal]
pub struct Arena<N> {
    pub nodes: Seq<Node<N>>,
    pub children: Seq<u32>,
    pub actions: Seq<Action<N>>,
    pub data_size: [u64; 2],
}

/// What growing leads to: the arena with the subtree and the index of its
/// root, or the reason why the build stops.
pub type Growth<N> = Result<(Arena<N>, u32), BuildError<N>>;

pub open spec fn set_pair<T>(pair: [T; 2], p: u8, v: T) -> [T; 2] {
    if p == 0 {
        [v, pair[1]]
    } else {
        [pair[0], v]
    }
}

pub open spec fn zero<N: Num>() -> N {
    N::decimal_spec(0, 0)
}

/// A node that holds nothing but its kind, place and contributions.
pub open spec fn plain_node<N: Num>(kind: u8, player: u8, street: u8, put: [N; 2]) -> Node<N> {
    Node {
        kind,
        player,
        street,
        num_children: 0,
        children_start: 0,
        actions_start: 0,
        data_offset: 0,
        put,
        t_win: zero(),
        t_lose: zero(),
        t_tie: zero(),
    }
}

/// The player to act folds: the winner gains the folder's contribution less
/// the rake on the matched pot.
pub open spec fn fold_node<N: Num>(cfg: TreeConfig<N>, st: BuildState<N>) -> Node<N> {
    let f = st.put[st.to_act as int];
    let rake = rake_of(cfg, N::decimal_spec(2, 0).times_spec(f));
    Node {
        t_win: f.minus_spec(rake),
        t_lose: f.negated_spec(),
        ..plain_node(KIND_TERM_FOLD, st.to_act, st.street, st.put)
    }
}

/// Hands are shown down: the winner gains the loser's contribution less the
/// rake, and a tie costs each player half the rake.
pub open spec fn showdown_node<N: Num>(cfg: TreeConfig<N>, street: u8, put: [N; 2]) -> Node<N> {
    let rake = rake_of(cfg, put[0].plus_spec(put[1]));
    Node {
        t_win: put[0].minus_spec(rake),
        t_lose: put[0].negated_spec(),
        t_tie: rake.negated_spec().over_spec(N::decimal_spec(2, 0)),
        ..plain_node(KIND_TERM_SHOWDOWN, 0, street, put)
    }
}

/// The node budget, where there is one, is used up.
pub open spec fn spent<N>(cx: Setting<N>, a: Arena<N>) -> bool {
    cx.max_nodes matches Some(cap) && a.nodes.len() >= cap
}

/// The node is added, unless indices run out.
pub open spec fn placed<N>(a: Arena<N>, node: Node<N>) -> Growth<N> {
    if a.nodes.len() >= SENTINEL {
        Err(BuildError::IndexSpace)
    } else {
        Ok((Arena { nodes: a.nodes.push(node), ..a }, a.nodes.len() as u32))
    }
}

/// The node is added, unless the budget is used up or indices run out.
pub open spec fn afforded<N>(cx: Setting<N>, a: Arena<N>, node: Node<N>) -> Growth<N> {
    if spent(cx, a) {
        Err(BuildError::Budget { cap: cx.max_nodes->Some_0 })
    } else {
        placed(a, node)
    }
}

/// Node `i` receives its children.
pub open spec fn linked<N>(a: Arena<N>, i: u32, kids: Seq<u32>) -> Growth<N> {
    if a.children.len() + kids.len() > SENTINEL {
        Err(BuildError::IndexSpace)
    } else {
        let node = Node {
            num_children: kids.len() as u8,
            children_start: a.children.len() as u32,
            ..a.nodes[i as int]
        };
        Ok((Arena { nodes: a.nodes.update(i as int, node), children: a.children + kids, ..a }, i))
    }
}

/// The first state of a street.
pub open spec fn street_start<N: Num>(street: u8, put: [N; 2], aggressor: Option<u8>) -> BuildState<
    N,
> {
    BuildState {
        street,
        to_act: OOP,
        put,
        street_bet: [zero(), zero()],
        last_increment: zero(),
        num_raises: 0,
        last_aggressor: aggressor,
        checked: false,
    }
}

/// Contributions after the player to act has gone to `to` on this street.
pub open spec fn put_after<N: Num>(st: BuildState<N>, to: N) -> [N; 2] {
    let me = st.to_act as int;
    set_pair(st.put, st.to_act, st.put[me].plus_spec(to.minus_spec(st.street_bet[me])))
}

/// The state after a first check.
pub open spec fn after_check<N>(st: BuildState<N>) -> BuildState<N> {
    BuildState { to_act: other(st.to_act) as u8, checked: true, ..st }
}

/// The state after a bet or raise to `to`.
pub open spec fn after_bet<N: Num>(st: BuildState<N>, to: N, raised: bool) -> BuildState<N> {
    let increment = to.minus_spec(
        num::larger_of(st.street_bet[other(st.to_act)], st.street_bet[st.to_act as int]),
    );
    BuildState {
        to_act: other(st.to_act) as u8,
        put: put_after(st, to),
        street_bet: set_pair(st.street_bet, st.to_act, to),
        last_increment: num::larger_of(increment, st.last_increment),
        num_raises: (st.num_raises + if raised {
            1int
        } else {
            0int
        }) as u8,
        ..st
    }
}

/// Whether a player is out of chips once both have put in `put`.
pub open spec fn all_in<N: Num>(cfg: TreeConfig<N>, put: [N; 2]) -> bool {
    behind(cfg, put[0]).at_most_spec(slack()) || behind(cfg, put[1]).at_most_spec(slack())
}

/// The subtree of a decision.
pub open spec fn grow_action<N: Num>(
    cx: Setting<N>,
    a: Arena<N>,
    st: BuildState<N>,
    fuel: nat,
) -> Growth<N>
    decreases fuel, 4nat, 0nat,
{
    let acts = legal(cx.config, cx.root_street, st);
    if spent(cx, a) {
        Err(BuildError::Budget { cap: cx.max_nodes->Some_0 })
    } else if acts.len() == 0 || acts.len() > MAX_ACTIONS {
        Err(BuildError::ActionCount { count: acts.len() as usize })
    } else if a.actions.len() + acts.len() > SENTINEL {
        Err(BuildError::IndexSpace)
    } else {
        let me = st.to_act as int;
        let node = Node {
            num_children: acts.len() as u8,
            actions_start: a.actions.len() as u32,
            data_offset: a.data_size[me],
            ..plain_node(KIND_ACTION, st.to_act, st.street, st.put)
        };
        let opened = Arena {
            actions: a.actions + acts,
            data_size: set_pair(
                a.data_size,
                st.to_act,
                (a.data_size[me] + acts.len() * cx.num_hands[me]) as u64,
            ),
            ..a
        };
        match placed(opened, node) {
            Err(e) => Err(e),
            Ok((b, i)) => match grow_kids(cx, b, st, acts, acts.len(), fuel) {
                Err(e) => Err(e),
                Ok((c, kids)) => linked(c, i, kids),
            },
        }
    }
}

/// The subtrees of the first `k` actions, one after the other.
pub open spec fn grow_kids<N: Num>(
    cx: Setting<N>,
    a: Arena<N>,
    st: BuildState<N>,
    acts: Seq<Action<N>>,
    k: nat,
    fuel: nat,
) -> Result<(Arena<N>, Seq<u32>), BuildError<N>>
    decreases fuel, 3nat, k,
{
    if k == 0 {
        Ok((a, Seq::empty()))
    } else {
        match grow_kids(cx, a, st, acts, (k - 1) as nat, fuel) {
            Err(e) => Err(e),
            Ok((b, kids)) => match grow_after(cx, b, st, acts[k - 1], fuel) {
                Err(e) => Err(e),
                Ok((c, i)) => Ok((c, kids.push(i))),
            },
        }
    }
}

/// The subtree that an action leads to.
pub open spec fn grow_after<N: Num>(
    cx: Setting<N>,
    a: Arena<N>,
    st: BuildState<N>,
    act: Action<N>,
    fuel: nat,
) -> Growth<N>
    decreases fuel, 2nat, 0nat,
{
    match act {
        Action::Fold => afforded(cx, a, fold_node(cx.config, st)),
        Action::Check => if st.checked {
            grow_street_end(cx, a, st.street, st.put, st.last_aggressor, false, fuel)
        } else if fuel == 0 {
            Err(BuildError::IndexSpace)
        } else {
            grow_action(cx, a, after_check(st), (fuel - 1) as nat)
        },
        Action::Call(to) => {
            let put = put_after(st, to);
            let aggressor = Some(other(st.to_act) as u8);
            grow_street_end(cx, a, st.street, put, aggressor, all_in(cx.config, put), fuel)
        },
        Action::Bet(to) => if fuel == 0 {
            Err(BuildError::IndexSpace)
        } else {
            grow_action(cx, a, after_bet(st, to, false), (fuel - 1) as nat)
        },
        Action::Raise(to) => if fuel == 0 {
            Err(BuildError::IndexSpace)
        } else {
            grow_action(cx, a, after_bet(st, to, true), (fuel - 1) as nat)
        },
    }
}

/// The subtree after a street: the showdown, the runout without further
/// betting, or a chance node into the next street.
pub open spec fn grow_street_end<N: Num>(
    cx: Setting<N>,
    a: Arena<N>,
    street: u8,
    put: [N; 2],
    aggressor: Option<u8>,
    allin: bool,
    fuel: nat,
) -> Growth<N>
    decreases fuel, 1nat, 0nat,
{
    if street >= 2 {
        afforded(cx, a, showdown_node(cx.config, 2, put))
    } else if allin {
        grow_runout(cx, a, street, put)
    } else if spent(cx, a) {
        Err(BuildError::Budget { cap: cx.max_nodes->Some_0 })
    } else {
        let next = (street + 1) as u8;
        match placed(a, plain_node(KIND_CHANCE, 0, next, put)) {
            Err(e) => Err(e),
            Ok((b, i)) => match grow_deals(
                cx,
                b,
                street_start(next, put, aggressor),
                52,
                fuel,
            ) {
                Err(e) => Err(e),
                Ok((c, kids)) => linked(c, i, kids),
            },
        }
    }
}

/// The subtrees of the first `k` cards; a board card has none.
pub open spec fn grow_deals<N: Num>(
    cx: Setting<N>,
    a: Arena<N>,
    st: BuildState<N>,
    k: nat,
    fuel: nat,
) -> Result<(Arena<N>, Seq<u32>), BuildError<N>>
    decreases fuel, 0nat, k,
{
    if k == 0 {
        Ok((a, Seq::empty()))
    } else {
        match grow_deals(cx, a, st, (k - 1) as nat, fuel) {
            Err(e) => Err(e),
            Ok((b, kids)) => if cards::in_mask(cx.board_mask, k - 1) {
                Ok((b, kids.push(SENTINEL)))
            } else if fuel == 0 {
                Err(BuildError::IndexSpace)
            } else {
                match grow_action(cx, b, st, (fuel - 1) as nat) {
                    Err(e) => Err(e),
                    Ok((c, i)) => Ok((c, kids.push(i))),
                }
            },
        }
    }
}

/// The chance nodes from `street` to the showdown, with no betting between.
pub open spec fn grow_runout<N: Num>(cx: Setting<N>, a: Arena<N>, street: u8, put: [N; 2]) -> Growth<
    N,
>
    decreases 2 - street, 100nat,
{
    if spent(cx, a) {
        Err(BuildError::Budget { cap: cx.max_nodes->Some_0 })
    } else if street >= 2 {
        Err(BuildError::IndexSpace)
    } else {
        let next = (street + 1) as u8;
        match placed(a, plain_node(KIND_CHANCE, 0, next, put)) {
            Err(e) => Err(e),
            Ok((b, i)) => match grow_runout_deals(cx, b, street, put, 52) {
                Err(e) => Err(e),
                Ok((c, kids)) => linked(c, i, kids),
            },
        }
    }
}

/// The runouts of the first `k` cards dealt into the street after `street`.
pub open spec fn grow_runout_deals<N: Num>(
    cx: Setting<N>,
    a: Arena<N>,
    street: u8,
    put: [N; 2],
    k: nat,
) -> Result<(Arena<N>, Seq<u32>), BuildError<N>>
    decreases 2 - street, k,
{
    if k == 0 || street >= 2 || k > 52 {
        Ok((a, Seq::empty()))
    } else {
        match grow_runout_deals(cx, a, street, put, (k - 1) as nat) {
            Err(e) => Err(e),
            Ok((b, kids)) => if cards::in_mask(cx.board_mask, k - 1) {
                Ok((b, kids.push(SENTINEL)))
            } else {
                let child = if street + 1 == 2 {
                    afforded(cx, b, showdown_node(cx.config, 2, put))
                } else {
                    grow_runout(cx, b, (street + 1) as u8, put)
                };
                match child {
                    Err(e) => Err(e),
                    Ok((c, i)) => Ok((c, kids.push(i))),
                }
            },
        }
    }
}

proof fn lemma_kids_stop<N: Num>(
    cx: Setting<N>,
    a: Arena<N>,
    st: BuildState<N>,
    acts: Seq<Action<N>>,
    k: nat,
    n: nat,
    fuel: nat,
)
    requires
        k <= n,
        grow_kids(cx, a, st, acts, k, fuel) is Err,
    ensures
        grow_kids(cx, a, st, acts, n, fuel) == grow_kids(cx, a, st, acts, k, fuel),
    decreases n,
{
    if k < n {
        lemma_kids_stop(cx, a, st, acts, k, (n - 1) as nat, fuel);
    }
}

proof fn lemma_deals_stop<N: Num>(
    cx: Setting<N>,
    a: Arena<N>,
    st: BuildState<N>,
    k: nat,
    n: nat,
    fuel: nat,
)
    requires
        k <= n,
        grow_deals(cx, a, st, k, fuel) is Err,
    ensures
        grow_deals(cx, a, st, n, fuel) == grow_deals(cx, a, st, k, fuel),
    decreases n,
{
    if k < n {
        lemma_deals_stop(cx, a, st, k, (n - 1) as nat, fuel);
    }
}

proof fn lemma_runout_deals_stop<N: Num>(
    cx: Setting<N>,
    a: Arena<N>,
    street: u8,
    put: [N; 2],
    k: nat,
    n: nat,
)
    requires
        k <= n <= 52,
        street < 2,
        grow_runout_deals(cx, a, street, put, k) is Err,
    ensures
        grow_runout_deals(cx, a, street, put, n) == grow_runout_deals(cx, a, street, put, k),
    decreases n,
{
    if k < n {
        lemma_runout_deals_stop(cx, a, street, put, k, (n - 1) as nat);
    }
}

/// A raise is legal only while raises are left.
proof fn lemma_legal_raise<N: Num>(cfg: TreeConfig<N>, root_street: u8, st: BuildState<N>, k: int)
    requires
        0 <= k < legal(cfg, root_street, st).len(),
        legal(cfg, root_street, st)[k] is Raise,
    ensures
        st.num_raises < cfg.max_raises,
{
}

/// Builds trees.
pub struct TreeBuilder<'a, N> {
    config: &'a TreeConfig<N>,
    root_street: u8,
    /// Cards that can never appear as chance cards (the initial board).
    board_mask: u64,
    /// Abort the build once `nodes` grows past this budget (None = no cap).
    max_nodes: Option<usize>,
    nodes: Vec<Node<N>>,
    children: Vec<u32>,
    actions: Vec<Action<N>>,
    /// Number of hands per player; used to compute data offsets.
    num_hands: [u64; 2],
    data_size: [u64; 2],
}

fn pair_with<T: Copy>(pair: [T; 2], p: u8, v: T) -> (r: [T; 2])
    ensures
        r == set_pair(pair, p, v),
{
    if p == 0 {
        [v, pair[1]]
    } else {
        [pair[0], v]
    }
}

fn make_plain_node<N: Num>(kind: u8, player: u8, street: u8, put: [N; 2]) -> (r: Node<N>)
    ensures
        r == plain_node(kind, player, street, put),
{
    let zero = N::decimal(0, 0);
    Node {
        kind,
        player,
        street,
        num_children: 0,
        children_start: 0,
        actions_start: 0,
        data_offset: 0,
        put,
        t_win: zero,
        t_lose: zero,
        t_tie: zero,
    }
}

impl<'a, N: Num> TreeBuilder<'a, N> {
    pub closed spec fn setting(&self) -> Setting<N> {
        Setting {
            config: *self.config,
            root_street: self.root_street,
            board_mask: self.board_mask,
            max_nodes: self.max_nodes,
            num_hands: self.num_hands,
        }
    }

    pub closed spec fn arena(&self) -> Arena<N> {
        Arena {
            nodes: self.nodes@,
            children: self.children@,
            actions: self.actions@,
            data_size: self.data_size,
        }
    }

    /// No arena offset can pass 64 bits.
    pub closed spec fn wf(&self) -> bool {
        &&& self.num_hands[0] <= MAX_HANDS
        &&& self.num_hands[1] <= MAX_HANDS
        &&& self.data_size[0] <= self.nodes@.len() * 0xfa00_0000
        &&& self.data_size[1] <= self.nodes@.len() * 0xfa00_0000
        &&& self.nodes@.len() <= SENTINEL
    }

    fn push_node(&mut self, node: Node<N>) -> (r: Result<u32, BuildError<N>>)
        requires
            old(self).wf(),
        ensures
            final(self).wf(),
            final(self).setting() == old(self).setting(),
            final(self).nodes@.len() >= old(self).nodes@.len(),
            match r {
                Ok(i) => placed(old(self).arena(), node) == Growth::<N>::Ok((final(self).arena(), i)),
                Err(e) => placed(old(self).arena(), node) == Growth::<N>::Err(e),
            },
    {
        if self.nodes.len() >= SENTINEL as usize {
            return Err(BuildError::IndexSpace);
        }
        let i: u32 = self.nodes.len() as u32;
        self.nodes.push(node);
        Ok(i)
    }

    /// Gives node `i` its children.
    fn link(&mut self, i: u32, kids: &Vec<u32>) -> (r: Result<u32, BuildError<N>>)
        requires
            old(self).wf(),
            i < old(self).nodes@.len(),
            kids@.len() <= 255,
        ensures
            final(self).wf(),
            final(self).setting() == old(self).setting(),
            final(self).nodes@.len() >= old(self).nodes@.len(),
            match r {
                Ok(j) => linked(old(self).arena(), i, kids@) == Growth::<N>::Ok(
                    (final(self).arena(), j),
                ),
                Err(e) => linked(old(self).arena(), i, kids@) == Growth::<N>::Err(e),
            },
    {
        if self.children.len() > SENTINEL as usize || kids.len() > SENTINEL as usize
            - self.children.len() {
            return Err(BuildError::IndexSpace);
        }
        let start: u32 = self.children.len() as u32;
        let ghost before = self.children@;
        let mut k: usize = 0;
        while k < kids.len()
            invariant
                k <= kids.len(),
                self.children@ == before + kids@.take(k as int),
                self.setting() == old(self).setting(),
                self.nodes@ == old(self).nodes@,
                self.actions@ == old(self).actions@,
                self.data_size == old(self).data_size,
            decreases kids.len() - k,
        {
            self.children.push(kids[k]);
            assert(self.children@ =~= before + kids@.take(k + 1));
            k = k + 1;
        }
        assert(kids@.take(kids@.len() as int) =~= kids@);
        let mut node = self.nodes[i as usize];
        node.num_children = kids.len() as u8;
        node.children_start = start;
        self.nodes.set(i as usize, node);
        Ok(i)
    }

    /// Enforces the optional node budget.
    fn check_budget(&self) -> (r: Result<(), BuildError<N>>)
        ensures
            match r {
                Ok(_) => !spent(self.setting(), self.arena()),
                Err(e) => spent(self.setting(), self.arena()) && e == (BuildError::<N>::Budget {
                    cap: self.setting().max_nodes->Some_0,
                }),
            },
    {
        match self.max_nodes {
            Some(cap) => if self.nodes.len() >= cap {
                Err(BuildError::Budget { cap })
            } else {
                Ok(())
            },
            None => Ok(()),
        }
    }

    fn showdown(&mut self, put: [N; 2]) -> (r: Result<u32, BuildError<N>>)
        requires
            old(self).wf(),
        ensures
            final(self).wf(),
            final(self).setting() == old(self).setting(),
            final(self).nodes@.len() >= old(self).nodes@.len(),
            ({
                let g = afforded(
                    old(self).setting(),
                    old(self).arena(),
                    showdown_node(old(self).setting().config, 2, put),
                );
                match r {
                    Ok(i) => g == Growth::<N>::Ok((final(self).arena(), i)),
                    Err(e) => g == Growth::<N>::Err(e),
                }
            }),
    {
        match self.check_budget() {
            Ok(_) => {},
            Err(e) => return Err(e),
        }
        let rake_taken = rake(self.config, put[0].plus(put[1]));
        let mut node = make_plain_node(KIND_TERM_SHOWDOWN, 0, 2, put);
        node.t_win = put[0].minus(rake_taken);
        node.t_lose = put[0].negated();
        node.t_tie = rake_taken.negated().over(N::decimal(2, 0));
        self.push_node(node)
    }

    fn fold(&mut self, st: &BuildState<N>) -> (r: Result<u32, BuildError<N>>)
        requires
            old(self).wf(),
            st.to_act < 2,
        ensures
            final(self).wf(),
            final(self).setting() == old(self).setting(),
            final(self).nodes@.len() >= old(self).nodes@.len(),
            ({
                let g = afforded(
                    old(self).setting(),
                    old(self).arena(),
                    fold_node(old(self).setting().config, *st),
                );
                match r {
                    Ok(i) => g == Growth::<N>::Ok((final(self).arena(), i)),
                    Err(e) => g == Growth::<N>::Err(e),
                }
            }),
    {
        match self.check_budget() {
            Ok(_) => {},
            Err(e) => return Err(e),
        }
        let f = st.put[st.to_act as usize];
        let rake_taken = rake(self.config, N::decimal(2, 0).times(f));
        let mut node = make_plain_node(KIND_TERM_FOLD, st.to_act, st.street, st.put);
        node.t_win = f.minus(rake_taken);
        node.t_lose = f.negated();
        self.push_node(node)
    }

    fn runout_chance(&mut self, street: u8, put: [N; 2]) -> (r: Result<u32, BuildError<N>>)
        requires
            old(self).wf(),
            street < 2,
        ensures
            final(self).nodes@.len() >= old(self).nodes@.len(),
            final(self).setting() == old(self).setting(),
            ({
                let g = grow_runout(old(self).setting(), old(self).arena(), street, put);
                match r {
                    Ok(i) => final(self).wf() && g == Growth::<N>::Ok((final(self).arena(), i)),
                    Err(e) => g == Growth::<N>::Err(e),
                }
            }),
        decreases 2 - street,
    {
        let ghost cx = self.setting();
        match self.check_budget() {
            Ok(_) => {},
            Err(e) => return Err(e),
        }
        let next: u8 = street + 1;
        let node_idx: u32 = match self.push_node(make_plain_node(KIND_CHANCE, 0, next, put)) {
            Ok(i) => i,
            Err(e) => return Err(e),
        };
        let ghost b = self.arena();
        let mut kids: Vec<u32> = Vec::new();
        let mut card: u8 = 0;
        while card < 52
            invariant
                card <= 52,
                street < 2,
                next == street + 1,
                self.wf(),
                self.setting() == cx,
                self.nodes@.len() >= b.nodes.len(),
                b.nodes.len() >= old(self).nodes@.len(),
                node_idx < b.nodes.len(),
                kids@.len() == card,
                grow_runout_deals(cx, b, street, put, card as nat) == Ok::<_, BuildError<N>>(
                    (self.arena(), kids@),
                ),
                old(self).wf(),
                cx == old(self).setting(),
                !spent(cx, old(self).arena()),
                placed(old(self).arena(), plain_node(KIND_CHANCE, 0, next, put)) == Growth::<N>::Ok(
                    (b, node_idx),
                ),
            decreases 52 - card,
        {
            proof {
                reveal_with_fuel(grow_runout_deals, 2);
            }
            if self.board_mask & (1u64 << (card as u64)) != 0 {
                kids.push(SENTINEL);
            } else {
                let grown = if next == 2 {
                    self.showdown(put)
                } else {
                    self.runout_chance(next, put)
                };
                match grown {
                    Ok(i) => kids.push(i),
                    Err(e) => {
                        proof {
                            lemma_runout_deals_stop(cx, b, street, put, (card + 1) as nat, 52);
                        }
                        return Err(e);
                    },
                }
            }
            card = card + 1;
        }
        self.link(node_idx, &kids)
    }

    fn street_end(
        &mut self,
        street: u8,
        put: [N; 2],
        aggressor: Option<u8>,
        allin: bool,
        Ghost(fuel): Ghost<nat>,
    ) -> (r: Result<u32, BuildError<N>>)
        requires
            old(self).wf(),
            street < 3,
            fuel + old(self).arena().nodes.len() >= SENTINEL,
        ensures
            final(self).nodes@.len() >= old(self).nodes@.len(),
            final(self).setting() == old(self).setting(),
            ({
                let g = grow_street_end(
                    old(self).setting(),
                    old(self).arena(),
                    street,
                    put,
                    aggressor,
                    allin,
                    fuel,
                );
                match r {
                    Ok(i) => final(self).wf() && g == Growth::<N>::Ok((final(self).arena(), i)),
                    Err(e) => g == Growth::<N>::Err(e),
                }
            }),
        decreases fuel, 1nat,
    {
        if street == 2 {
            return self.showdown(put);
        }
        if allin {
            return self.runout_chance(street, put);
        }
        let ghost cx = self.setting();
        match self.check_budget() {
            Ok(_) => {},
            Err(e) => return Err(e),
        }
        let next: u8 = street + 1;
        let node_idx: u32 = match self.push_node(make_plain_node(KIND_CHANCE, 0, next, put)) {
            Ok(i) => i,
            Err(e) => return Err(e),
        };
        let ghost b = self.arena();
        let zero = N::decimal(0, 0);
        let child = BuildState {
            street: next,
            to_act: OOP,
            put,
            street_bet: [zero, zero],
            last_increment: zero,
            num_raises: 0,
            last_aggressor: aggressor,
            checked: false,
        };
        assert(child == street_start(next, put, aggressor));
        let mut kids: Vec<u32> = Vec::new();
        let mut card: u8 = 0;
        while card < 52
            invariant
                card <= 52,
                street < 2,
                next == street + 1,
                child == street_start(next, put, aggressor),
                self.wf(),
                self.setting() == cx,
                self.nodes@.len() >= b.nodes.len(),
                b.nodes.len() >= old(self).nodes@.len() + 1,
                fuel + old(self).arena().nodes.len() >= SENTINEL,
                old(self).arena().nodes.len() == old(self).nodes@.len(),
                node_idx < b.nodes.len() <= SENTINEL,
                kids@.len() == card,
                grow_deals(cx, b, child, card as nat, fuel) == Ok::<_, BuildError<N>>(
                    (self.arena(), kids@),
                ),
                old(self).wf(),
                cx == old(self).setting(),
                !spent(cx, old(self).arena()),
                !allin,
                placed(old(self).arena(), plain_node(KIND_CHANCE, 0, next, put)) == Growth::<N>::Ok(
                    (b, node_idx),
                ),
            decreases 52 - card,
        {
            proof {
                reveal_with_fuel(grow_deals, 2);
            }
            if self.board_mask & (1u64 << (card as u64)) != 0 {
                kids.push(SENTINEL);
            } else {
                assert(fuel >= 1);
                match self.action_node(child, Ghost((fuel - 1) as nat)) {
                    Ok(i) => kids.push(i),
                    Err(e) => {
                        proof {
                            lemma_deals_stop(cx, b, child, (card + 1) as nat, 52, fuel);
                        }
                        return Err(e);
                    },
                }
            }
            card = card + 1;
        }
        self.link(node_idx, &kids)
    }

    fn apply_action(&mut self, st: &BuildState<N>, action: Action<N>, Ghost(fuel): Ghost<nat>) -> (r:
        Result<u32, BuildError<N>>)
        requires
            old(self).wf(),
            st.to_act < 2,
            st.street < 3,
            action is Raise ==> st.num_raises < 255,
            fuel + old(self).arena().nodes.len() >= SENTINEL + 1,
        ensures
            final(self).nodes@.len() >= old(self).nodes@.len(),
            final(self).setting() == old(self).setting(),
            ({
                let g = grow_after(old(self).setting(), old(self).arena(), *st, action, fuel);
                match r {
                    Ok(i) => final(self).wf() && g == Growth::<N>::Ok((final(self).arena(), i)),
                    Err(e) => g == Growth::<N>::Err(e),
                }
            }),
        decreases fuel, 2nat,
    {
        let me: usize = st.to_act as usize;
        let opp: usize = 1 - me;
        let next_to_act: u8 = 1 - st.to_act;
        match action {
            Action::Fold => self.fold(st),
            Action::Check => {
                if st.checked {
                    self.street_end(st.street, st.put, st.last_aggressor, false, Ghost(fuel))
                } else {
                    let new_st = BuildState {
                        street: st.street,
                        to_act: next_to_act,
                        put: st.put,
                        street_bet: st.street_bet,
                        last_increment: st.last_increment,
                        num_raises: st.num_raises,
                        last_aggressor: st.last_aggressor,
                        checked: true,
                    };
                    assert(new_st == after_check(*st));
                    self.action_node(new_st, Ghost((fuel - 1) as nat))
                }
            },
            Action::Call(to) => {
                let put = pair_with(
                    st.put,
                    st.to_act,
                    st.put[me].plus(to.minus(st.street_bet[me])),
                );
                assert(put == put_after(*st, to));
                let eps = N::decimal(1, 9);
                let allin = chips_behind(self.config, put[0]).at_most(eps) || chips_behind(
                    self.config,
                    put[1],
                ).at_most(eps);
                self.street_end(st.street, put, Some(next_to_act), allin, Ghost(fuel))
            },
            Action::Bet(to) => {
                let new_st = self.bet_state(st, to, false);
                self.action_node(new_st, Ghost((fuel - 1) as nat))
            },
            Action::Raise(to) => {
                let new_st = self.bet_state(st, to, true);
                self.action_node(new_st, Ghost((fuel - 1) as nat))
            },
        }
    }

    /// The state after a bet or raise to `to`.
    fn bet_state(&self, st: &BuildState<N>, to: N, raised: bool) -> (r: BuildState<N>)
        requires
            st.to_act < 2,
            raised ==> st.num_raises < 255,
        ensures
            r == after_bet(*st, to, raised),
    {
        let me: usize = st.to_act as usize;
        let opp: usize = 1 - me;
        let put = pair_with(st.put, st.to_act, st.put[me].plus(to.minus(st.street_bet[me])));
        let increment = to.minus(larger(st.street_bet[opp], st.street_bet[me]));
        BuildState {
            street: st.street,
            to_act: 1 - st.to_act,
            put,
            street_bet: pair_with(st.street_bet, st.to_act, to),
            last_increment: larger(increment, st.last_increment),
            num_raises: if raised {
                st.num_raises + 1
            } else {
                st.num_raises
            },
            last_aggressor: st.last_aggressor,
            checked: st.checked,
        }
    }

    fn action_node(&mut self, st: BuildState<N>, Ghost(fuel): Ghost<nat>) -> (r: Result<
        u32,
        BuildError<N>,
    >)
        requires
            old(self).wf(),
            st.to_act < 2,
            st.street < 3,
            fuel + old(self).arena().nodes.len() >= SENTINEL,
        ensures
            final(self).nodes@.len() >= old(self).nodes@.len(),
            final(self).setting() == old(self).setting(),
            ({
                let g = grow_action(old(self).setting(), old(self).arena(), st, fuel);
                match r {
                    Ok(i) => final(self).wf() && g == Growth::<N>::Ok((final(self).arena(), i)),
                    Err(e) => g == Growth::<N>::Err(e),
                }
            }),
        decreases fuel, 4nat,
    {
        let ghost cx = self.setting();
        let ghost a = self.arena();
        match self.check_budget() {
            Ok(_) => {},
            Err(e) => return Err(e),
        }
        let acts = legal_actions(self.config, self.root_street, &st);
        let n: usize = acts.len();
        if n == 0 || n > MAX_ACTIONS {
            return Err(BuildError::ActionCount { count: n });
        }
        if self.actions.len() > SENTINEL as usize || n > SENTINEL as usize - self.actions.len() {
            return Err(BuildError::IndexSpace);
        }
        if self.nodes.len() >= SENTINEL as usize {
            return Err(BuildError::IndexSpace);
        }
        let actions_start: u32 = self.actions.len() as u32;
        let mut k: usize = 0;
        while k < n
            invariant
                k <= n == acts@.len(),
                self.actions@ == a.actions + acts@.take(k as int),
                self.setting() == cx,
                self.nodes@ == a.nodes,
                self.children@ == a.children,
                self.data_size == a.data_size,
                self.wf(),
                self.nodes@.len() < SENTINEL,
            decreases n - k,
        {
            self.actions.push(acts[k]);
            assert(self.actions@ =~= a.actions + acts@.take(k + 1));
            k = k + 1;
        }
        assert(acts@.take(n as int) =~= acts@);
        let me: usize = st.to_act as usize;
        let data_offset: u64 = self.data_size[me];
        let hands: u64 = self.num_hands[me];
        assert(n * hands <= 0xfa00_0000) by (nonlinear_arith)
            requires
                0 <= n <= 250,
                0 <= hands <= 0x100_0000,
        ;
        assert(self.data_size[0] + 0xfa00_0000 <= (self.nodes@.len() + 1) * 0xfa00_0000);
        assert(self.data_size[1] + 0xfa00_0000 <= (self.nodes@.len() + 1) * 0xfa00_0000);
        self.data_size = pair_with(self.data_size, st.to_act, data_offset + (n as u64) * hands);
        let mut node = make_plain_node(KIND_ACTION, st.to_act, st.street, st.put);
        node.num_children = n as u8;
        node.actions_start = actions_start;
        node.data_offset = data_offset;
        let ghost opened = self.arena();
        let node_idx: u32 = self.nodes.len() as u32;
        self.nodes.push(node);
        let ghost b = self.arena();
        assert(placed(opened, node) == Growth::<N>::Ok((b, node_idx)));
        let mut kids: Vec<u32> = Vec::new();
        let mut j: usize = 0;
        while j < n
            invariant
                j <= n == acts@.len(),
                n <= MAX_ACTIONS,
                acts@ == legal(cx.config, cx.root_street, st),
                st.to_act < 2,
                st.street < 3,
                self.wf(),
                self.setting() == cx,
                self.nodes@.len() >= b.nodes.len(),
                b.nodes.len() == a.nodes.len() + 1,
                fuel + a.nodes.len() >= SENTINEL,
                node_idx < b.nodes.len() <= SENTINEL,
                kids@.len() == j,
                grow_kids(cx, b, st, acts@, j as nat, fuel) == Ok::<_, BuildError<N>>(
                    (self.arena(), kids@),
                ),
                a.nodes.len() == old(self).nodes@.len(),
                grow_action(cx, a, st, fuel) == (match grow_kids(cx, b, st, acts@, n as nat, fuel) {
                    Err(e) => Err(e),
                    Ok((c, kids)) => linked(c, node_idx, kids),
                }),
                cx == old(self).setting(),
                a == old(self).arena(),
            decreases n - j,
        {
            proof {
                reveal_with_fuel(grow_kids, 2);
                if acts@[j as int] is Raise {
                    lemma_legal_raise(cx.config, cx.root_street, st, j as int);
                }
            }
            match self.apply_action(&st, acts[j], Ghost(fuel)) {
                Ok(i) => kids.push(i),
                Err(e) => {
                    proof {
                        lemma_kids_stop(cx, b, st, acts@, (j + 1) as nat, n as nat, fuel);
                    }
                    return Err(e);
                },
            }
            j = j + 1;
        }
        self.link(node_idx, &kids)
    }
}

// ---------------------------------------------------------------------------
// Building
// ---------------------------------------------------------------------------

/// The first raise-only size of a list.
pub open spec fn first_mult<N>(sizes: Seq<BetSize<N>>) -> Option<N>
    decreases sizes.len(),
{
    if sizes.len() == 0 {
        None
    } else if sizes[0] is PrevMult {
        Some(sizes[0]->PrevMult_0)
    } else {
        first_mult(sizes.drop_first())
    }
}

/// The bet and donk lists in the order in which they are checked: by player,
/// then street, then bet before donk. There are twelve of them.
pub open spec fn checked_list<N>(cfg: TreeConfig<N>, k: int) -> Seq<BetSize<N>> {
    let sizing = lists(cfg, (k / 6) as u8)[(k / 2) % 3];
    if k % 2 == 0 {
        sizing.bet@
    } else {
        sizing.donk@
    }
}

/// Whether the build can read a list: nothing below the root street is read,
/// and only OOP leads, on a later street.
pub open spec fn list_used(root_street: u8, k: int) -> bool {
    let street = (k / 2) % 3;
    &&& street >= root_street
    &&& k % 2 == 1 ==> k / 6 == 0 && street > root_street
}

/// The first raise-only size in a list that the build can read, looking from
/// list `k` on.
pub open spec fn first_offence<N>(cfg: TreeConfig<N>, root_street: u8, k: int) -> Option<
    BuildError<N>,
>
    decreases 12 - k,
{
    if k >= 12 {
        None
    } else if list_used(root_street, k) && first_mult(checked_list(cfg, k)) is Some {
        Some(
            BuildError::RaiseOnly {
                street: ((k / 2) % 3) as u8,
                player: (k / 6) as u8,
                donk: k % 2 == 1,
                mult: first_mult(checked_list(cfg, k))->Some_0,
            },
        )
    } else {
        first_offence(cfg, root_street, k + 1)
    }
}

/// The tree before anything has grown.
pub open spec fn bare<N>() -> Arena<N> {
    Arena { nodes: Seq::empty(), children: Seq::empty(), actions: Seq::empty(), data_size: [0, 0] }
}

/// What a build leads to.
pub open spec fn built<N: Num>(
    cfg: TreeConfig<N>,
    board: Seq<Card>,
    num_hands: [usize; 2],
    max_nodes: Option<usize>,
    strictness: Strictness,
) -> Growth<N> {
    if !(3 <= board.len() <= 5) {
        Err(BuildError::BoardLength)
    } else if cfg.starting_pot.at_most_spec(zero()) || cfg.effective_stack.at_most_spec(zero()) {
        Err(BuildError::Stakes)
    } else {
        let root_street = (board.len() - 3) as u8;
        let offence = first_offence(cfg, root_street, 0);
        if strictness == Strictness::Strict && offence is Some {
            Err(offence->Some_0)
        } else {
            let half = cfg.starting_pot.over_spec(N::decimal_spec(2, 0));
            let cx = Setting {
                config: cfg,
                root_street,
                board_mask: cards::mask_of(board),
                max_nodes,
                num_hands: [num_hands[0] as u64, num_hands[1] as u64],
            };
            grow_action(cx, bare(), street_start(root_street, [half, half], None), SENTINEL as nat)
        }
    }
}

/// Whether two sizings list the same sizes.
pub open spec fn same_sizing<N>(a: StreetSizing<N>, b: StreetSizing<N>) -> bool {
    &&& a.bet@ == b.bet@
    &&& a.raise@ == b.raise@
    &&& a.donk@ == b.donk@
}

/// Whether two configurations say the same.
pub open spec fn same_config<N>(a: TreeConfig<N>, b: TreeConfig<N>) -> bool {
    &&& a.starting_pot == b.starting_pot
    &&& a.effective_stack == b.effective_stack
    &&& a.rake_pct == b.rake_pct
    &&& a.rake_cap == b.rake_cap
    &&& forall|s: int| 0 <= s < 3 ==> same_sizing(#[trigger] a.oop[s], b.oop[s])
    &&& forall|s: int| 0 <= s < 3 ==> same_sizing(#[trigger] a.ip[s], b.ip[s])
    &&& a.allin_threshold == b.allin_threshold
    &&& a.add_allin == b.add_allin
    &&& a.max_raises == b.max_raises
}

fn find_mult<N: Num>(sizes: &Vec<BetSize<N>>) -> (r: Option<N>)
    ensures
        r == first_mult(sizes@),
{
    let mut i: usize = 0;
    assert(sizes@.skip(0) =~= sizes@);
    while i < sizes.len()
        invariant
            i <= sizes.len(),
            first_mult(sizes@) == first_mult(sizes@.skip(i as int)),
        decreases sizes.len() - i,
    {
        match sizes[i] {
            BetSize::PrevMult(m) => {
                assert(sizes@.skip(i as int)[0] == sizes@[i as int]);
                return Some(m);
            },
            _ => {},
        }
        assert(sizes@.skip(i as int).drop_first() =~= sizes@.skip(i + 1));
        i = i + 1;
    }
    None
}

/// The first raise-only size in a list that the build can read.
fn find_offence<N: Num>(cfg: &TreeConfig<N>, root_street: u8) -> (r: Option<BuildError<N>>)
    ensures
        r == first_offence(*cfg, root_street, 0),
{
    let mut k: u8 = 0;
    while k < 12
        invariant
            k <= 12,
            first_offence(*cfg, root_street, 0) == first_offence(*cfg, root_street, k as int),
        decreases 12 - k,
    {
        let player: u8 = k / 6;
        let street: u8 = (k / 2) % 3;
        let donk: bool = k % 2 == 1;
        if street >= root_street && (!donk || (player == 0 && street > root_street)) {
            let sizing = if player == OOP {
                &cfg.oop[street as usize]
            } else {
                &cfg.ip[street as usize]
            };
            let found = if donk {
                find_mult(&sizing.donk)
            } else {
                find_mult(&sizing.bet)
            };
            match found {
                Some(mult) => return Some(BuildError::RaiseOnly { street, player, donk, mult }),
                None => {},
            }
        }
        k = k + 1;
    }
    None
}

fn copy_sizes<N: Num>(sizes: &Vec<BetSize<N>>) -> (r: Vec<BetSize<N>>)
    ensures
        r@ == sizes@,
{
    let mut out: Vec<BetSize<N>> = Vec::new();
    let mut i: usize = 0;
    while i < sizes.len()
        invariant
            i <= sizes.len(),
            out@ == sizes@.take(i as int),
        decreases sizes.len() - i,
    {
        out.push(sizes[i]);
        assert(out@ =~= sizes@.take(i + 1));
        i = i + 1;
    }
    assert(sizes@.take(sizes@.len() as int) =~= sizes@);
    out
}

fn copy_sizing<N: Num>(s: &StreetSizing<N>) -> (r: StreetSizing<N>)
    ensures
        same_sizing(r, *s),
{
    StreetSizing {
        bet: copy_sizes(&s.bet),
        raise: copy_sizes(&s.raise),
        donk: copy_sizes(&s.donk),
    }
}

impl<N: Num> TreeConfig<N> {
    /// A configuration that says the same.
    pub fn duplicate(&self) -> (r: Self)
        ensures
            same_config(r, *self),
    {
        TreeConfig {
            starting_pot: self.starting_pot,
            effective_stack: self.effective_stack,
            rake_pct: self.rake_pct,
            rake_cap: self.rake_cap,
            oop: [copy_sizing(&self.oop[0]), copy_sizing(&self.oop[1]), copy_sizing(&self.oop[2])],
            ip: [copy_sizing(&self.ip[0]), copy_sizing(&self.ip[1]), copy_sizing(&self.ip[2])],
            allin_threshold: self.allin_threshold,
            add_allin: self.add_allin,
            max_raises: self.max_raises,
        }
    }
}

impl<N: Num> Tree<N> {
    pub open spec fn arena(&self) -> Arena<N> {
        Arena {
            nodes: self.nodes@,
            children: self.children@,
            actions: self.actions@,
            data_size: self.data_size,
        }
    }
}

impl<'a, N: Num> TreeBuilder<'a, N> {
    /// Builds the tree of a new spot, without a node budget.
    pub fn build(config: &'a TreeConfig<N>, board: &[Card], num_hands: [usize; 2]) -> (r: Result<
        Tree<N>,
        BuildError<N>,
    >)
        requires
            num_hands[0] <= MAX_HANDS,
            num_hands[1] <= MAX_HANDS,
            forall|i: int| 0 <= i < board@.len() ==> board@[i] < 64,
        ensures
            ({
                let g = built(*config, board@, num_hands, None, Strictness::Strict);
                match r {
                    Ok(t) => same_config(t.config, *config) && t.root_street == board@.len() - 3
                        && g == Growth::<N>::Ok((t.arena(), 0)),
                    Err(e) => g == Growth::<N>::Err(e),
                }
            }),
    {
        Self::build_with_limit(config, board, num_hands, None)
    }

    /// [`TreeBuilder::build`] with a node budget: the build stops with an
    /// error once the tree grows past `max_nodes` nodes (None = no cap).
    pub fn build_with_limit(
        config: &'a TreeConfig<N>,
        board: &[Card],
        num_hands: [usize; 2],
        max_nodes: Option<usize>,
    ) -> (r: Result<Tree<N>, BuildError<N>>)
        requires
            num_hands[0] <= MAX_HANDS,
            num_hands[1] <= MAX_HANDS,
            forall|i: int| 0 <= i < board@.len() ==> board@[i] < 64,
        ensures
            ({
                let g = built(*config, board@, num_hands, max_nodes, Strictness::Strict);
                match r {
                    Ok(t) => same_config(t.config, *config) && t.root_street == board@.len() - 3
                        && g == Growth::<N>::Ok((t.arena(), 0)),
                    Err(e) => g == Growth::<N>::Err(e),
                }
            }),
            r matches Ok(t) ==> (max_nodes matches Some(cap) ==> t.nodes@.len() <= cap),
    {
        Self::build_with_options(config, board, num_hands, max_nodes, Strictness::Strict)
    }

    /// [`TreeBuilder::build_with_limit`] with explicit [`Strictness`].
    pub fn build_with_options(
        config: &'a TreeConfig<N>,
        board: &[Card],
        num_hands: [usize; 2],
        max_nodes: Option<usize>,
        strictness: Strictness,
    ) -> (r: Result<Tree<N>, BuildError<N>>)
        requires
            num_hands[0] <= MAX_HANDS,
            num_hands[1] <= MAX_HANDS,
            forall|i: int| 0 <= i < board@.len() ==> board@[i] < 64,
        ensures
            ({
                let g = built(*config, board@, num_hands, max_nodes, strictness);
                match r {
                    Ok(t) => same_config(t.config, *config) && t.root_street == board@.len() - 3
                        && g == Growth::<N>::Ok((t.arena(), 0)),
                    Err(e) => g == Growth::<N>::Err(e),
                }
            }),
            r matches Ok(t) ==> (max_nodes matches Some(cap) ==> t.nodes@.len() <= cap),
    {
        if board.len() < 3 || board.len() > 5 {
            return Err(BuildError::BoardLength);
        }
        let zero = N::decimal(0, 0);
        if config.starting_pot.at_most(zero) || config.effective_stack.at_most(zero) {
            return Err(BuildError::Stakes);
        }
        let root_street: u8 = (board.len() - 3) as u8;
        if strictness == Strictness::Strict {
            match find_offence(config, root_street) {
                Some(e) => return Err(e),
                None => {},
            }
        }
        let mut builder = TreeBuilder {
            config,
            root_street,
            board_mask: cards_mask(board),
            max_nodes,
            nodes: Vec::new(),
            children: Vec::new(),
            actions: Vec::new(),
            num_hands: [num_hands[0] as u64, num_hands[1] as u64],
            data_size: [0, 0],
        };
        let half = config.starting_pot.over(N::decimal(2, 0));
        let state = BuildState {
            street: root_street,
            to_act: OOP,
            put: [half, half],
            street_bet: [zero, zero],
            last_increment: zero,
            num_raises: 0,
            last_aggressor: None,
            checked: false,
        };
        assert(builder.arena() =~= bare());
        match builder.action_node(state, Ghost(SENTINEL as nat)) {
            Err(e) => Err(e),
            Ok(i) => {
                proof {
                    if let Some(cap) = max_nodes {
                        growth_laws::law_budget_bounds(
                            *config,
                            board@,
                            num_hands,
                            strictness,
                            cap,
                        );
                    }
                }
                Ok(
                    Tree {
                        config: config.duplicate(),
                        root_street,
                        nodes: builder.nodes,
                        children: builder.children,
                        actions: builder.actions,
                        data_size: builder.data_size,
                    },
                )
            },
        }
    }
}

// ---------------------------------------------------------------------------
// Names and defaults
// ---------------------------------------------------------------------------

/// An amount without decimal places where it is whole, else with two.
pub open spec fn amount_text<N: Num>(x: N) -> Seq<char> {
    if num::magnitude_of(x.minus_spec(x.rounded_spec())).below_spec(N::decimal_spec(1, 6)) {
        messages::whole_text(num::integer_of(x.rounded_spec()) as int)
    } else {
        x.fixed_spec(2)
    }
}

/// What an action is called, given the pot before it and whether it is all-in.
pub open spec fn action_text<N: Num>(action: Action<N>, pot_before: N, all_in: bool) -> Seq<char> {
    match action {
        Action::Fold => "Fold"@,
        Action::Check => "Check"@,
        Action::Call(_) => "Call"@,
        Action::Bet(amt) => if all_in {
            "All-in "@ + amount_text(amt)
        } else {
            let pct = amt.over_spec(pot_before).times_spec(N::decimal_spec(100, 0)).rounded_spec();
            "Bet "@ + amount_text(amt) + " ("@ + pct.shown_spec() + "%)"@
        },
        Action::Raise(amt) => if all_in {
            "All-in "@ + amount_text(amt)
        } else {
            "Raise "@ + amount_text(amt)
        },
    }
}

fn trim_num<N: Num>(x: N) -> (r: Vec<char>)
    ensures
        r@ == amount_text(x),
{
    let whole = x.rounded();
    if magnitude(x.minus(whole)).below(N::decimal(1, 6)) {
        write_whole(integer(whole))
    } else {
        let text = x.fixed(2);
        chars_of(text.as_str())
    }
}

impl<N: Num> Action<N> {
    /// Whether the action is a bet or a raise.
    pub fn is_aggressive(&self) -> (r: bool)
        ensures
            r == (self is Bet || self is Raise),
    {
        match self {
            Action::Bet(_) => true,
            Action::Raise(_) => true,
            _ => false,
        }
    }

    /// What the action is called.
    pub fn label(&self, pot_before: N, all_in: bool) -> (r: String)
        ensures
            r@ == action_text(*self, pot_before, all_in),
    {
        let mut out: Vec<char> = Vec::new();
        match *self {
            Action::Fold => out = chars_of("Fold"),
            Action::Check => out = chars_of("Check"),
            Action::Call(_) => out = chars_of("Call"),
            Action::Bet(amt) => {
                if all_in {
                    out = chars_of("All-in ");
                    push_all(&mut out, &trim_num(amt));
                } else {
                    let pct = amt.over(pot_before).times(N::decimal(100, 0)).rounded();
                    let shown = pct.shown();
                    out = chars_of("Bet ");
                    push_all(&mut out, &trim_num(amt));
                    push_all(&mut out, &chars_of(" ("));
                    push_all(&mut out, &chars_of(shown.as_str()));
                    push_all(&mut out, &chars_of("%)"));
                }
            },
            Action::Raise(amt) => {
                if all_in {
                    out = chars_of("All-in ");
                } else {
                    out = chars_of("Raise ");
                }
                push_all(&mut out, &trim_num(amt));
            },
        }
        string_of(&out)
    }
}

impl<N: Num> Default for StreetSizing<N> {
    fn default() -> (r: Self)
        ensures
            r.bet@.len() == 0,
            r.raise@.len() == 0,
            r.donk@.len() == 0,
    {
        StreetSizing { bet: Vec::new(), raise: Vec::new(), donk: Vec::new() }
    }
}

/// The all-in threshold where none is given: 0.85.
pub fn default_allin_threshold<N: Num>() -> (r: N)
    ensures
        r == N::decimal_spec(85, 2),
{
    N::decimal(85, 2)
}

/// The most raises per street where no number is given.
pub fn default_max_raises() -> (r: u8)
    ensures
        r == 10,
{
    10
}

impl<N: Num> Default for TreeConfig<N> {
    /// A single-raised pot of 60 with 970 behind, no rake and no sizes.
    fn default() -> (r: Self)
        ensures
            r.starting_pot == N::decimal_spec(60, 0),
            r.effective_stack == N::decimal_spec(970, 0),
            r.rake_pct == zero::<N>(),
            r.rake_cap == zero::<N>(),
            forall|s: int|
                0 <= s < 3 ==> (#[trigger] r.oop[s]).bet@.len() == 0 && r.oop[s].raise@.len() == 0
                    && r.oop[s].donk@.len() == 0,
            forall|s: int|
                0 <= s < 3 ==> (#[trigger] r.ip[s]).bet@.len() == 0 && r.ip[s].raise@.len() == 0
                    && r.ip[s].donk@.len() == 0,
            r.allin_threshold == N::decimal_spec(85, 2),
            !r.add_allin,
            r.max_raises == 10,
    {
        TreeConfig {
            starting_pot: N::decimal(60, 0),
            effective_stack: N::decimal(970, 0),
            rake_pct: N::decimal(0, 0),
            rake_cap: N::decimal(0, 0),
            oop: [StreetSizing::default(), StreetSizing::default(), StreetSizing::default()],
            ip: [StreetSizing::default(), StreetSizing::default(), StreetSizing::default()],
            allin_threshold: default_allin_threshold(),
            add_allin: false,
            max_raises: default_max_raises(),
        }
    }
}

} // verus!
