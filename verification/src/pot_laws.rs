//! What players put in, in exact numbers: no one puts in more than the stack,
//! a fold leaves less in than the bet, and hands are shown down for equal
//! contributions.

use crate::cards;
use crate::chip_laws;
use crate::growth_laws;
use crate::nano;
use crate::nano::Nano;
use crate::num;
use crate::num::Num;
use crate::tree;
use crate::tree::{
    Action, Arena, BuildState, Node, Setting, Strictness, TreeConfig, KIND_CHANCE, KIND_TERM_FOLD,
    KIND_TERM_SHOWDOWN, SENTINEL,
};
use crate::tree_laws;
use vstd::prelude::*;

verus! {

/// What each player has put in before the first street, in billionths.
pub open spec fn half_pot(cfg: TreeConfig<Nano>) -> int {
    cfg.starting_pot.count as int / 2
}

/// What a player has put in who is all-in, in billionths.
pub open spec fn whole_stack(cfg: TreeConfig<Nano>) -> int {
    half_pot(cfg) + cfg.effective_stack.count
}

/// Whether the stakes are above zero and all they add up to is in range.
pub open spec fn roomy(cfg: TreeConfig<Nano>) -> bool {
    &&& 0 < cfg.starting_pot.count
    &&& 0 < cfg.effective_stack.count
    &&& whole_stack(cfg) <= i64::MAX
}

/// Whether contributions are between half the pot and the whole stack.
pub open spec fn affordable(cfg: TreeConfig<Nano>, put: [Nano; 2]) -> bool {
    &&& half_pot(cfg) <= put[0].count <= whole_stack(cfg)
    &&& half_pot(cfg) <= put[1].count <= whole_stack(cfg)
}

/// Whether contributions are affordable and equal.
pub open spec fn matched(cfg: TreeConfig<Nano>, put: [Nano; 2]) -> bool {
    affordable(cfg, put) && put[0] == put[1]
}

/// Whether a node's contributions are affordable: equal before a card and at a
/// showdown, and at a fold less for the player who folds.
pub open spec fn fair(cfg: TreeConfig<Nano>, node: Node<Nano>) -> bool {
    &&& affordable(cfg, node.put)
    &&& node.kind == KIND_CHANCE || node.kind == KIND_TERM_SHOWDOWN ==> node.put[0] == node.put[1]
    &&& node.kind == KIND_TERM_FOLD ==> node.player < 2 && node.put[node.player as int].count
        < node.put[1 - node.player].count
    &&& paid(cfg, node)
}

/// The pot that is raked at the end of a hand: all of it at a showdown, and
/// what both players have put in where one folds.
pub open spec fn raked_pot(node: Node<Nano>) -> Nano {
    if node.kind == KIND_TERM_FOLD {
        Nano::decimal_spec(2, 0).times_spec(node.put[node.player as int])
    } else {
        node.put[0].plus_spec(node.put[1])
    }
}

/// Whether the end of a hand pays out what was put in: the winner gains the
/// loser's contribution less the rake, and a tie costs half the rake.
pub open spec fn paid(cfg: TreeConfig<Nano>, node: Node<Nano>) -> bool {
    let rake = tree::rake_of(cfg, raked_pot(node));
    let stake = node.put[if node.kind == KIND_TERM_FOLD {
        node.player as int
    } else {
        0
    }];
    node.kind == KIND_TERM_FOLD || node.kind == KIND_TERM_SHOWDOWN ==> {
        &&& node.t_win == stake.minus_spec(rake)
        &&& node.t_lose == stake.negated_spec()
        &&& node.kind == KIND_TERM_SHOWDOWN ==> node.t_tie == rake.negated_spec().over_spec(
            Nano::decimal_spec(2, 0),
        )
    }
}

/// Whether all nodes so far are fair.
pub open spec fn fair_so_far(cx: Setting<Nano>, a: Arena<Nano>) -> bool {
    forall|i: int| 0 <= i < a.nodes.len() ==> fair(cx.config, #[trigger] a.nodes[i])
}

/// Whether a betting state is affordable, and level but for what has been put
/// in on the street: by no one, or more by the player who waits.
pub open spec fn even(cfg: TreeConfig<Nano>, st: BuildState<Nano>) -> bool {
    let me = st.to_act as int;
    let opp = tree::other(st.to_act);
    &&& affordable(cfg, st.put)
    &&& st.put[0].count - st.street_bet[0].count == st.put[1].count - st.street_bet[1].count
    &&& 0 <= st.street_bet[0].count <= st.put[0].count
    &&& 0 <= st.street_bet[1].count <= st.put[1].count
    &&& st.street_bet[me].count + 2 <= st.street_bet[opp].count || (st.street_bet[0].count == 0
        && st.street_bet[1].count == 0)
}

/// Whether an action fits a state: a player folds and calls facing a bet and
/// checks facing none, and goes past the bet but not past the stack.
pub open spec fn offered(cfg: TreeConfig<Nano>, st: BuildState<Nano>, act: Action<Nano>) -> bool {
    let me = st.to_act as int;
    let bet = st.street_bet[tree::other(st.to_act)].count;
    let own = st.street_bet[me].count;
    let most = own + whole_stack(cfg) - st.put[me].count;
    match act {
        Action::Fold => own < bet,
        Action::Call(to) => to.count == bet && own < bet,
        Action::Check => own == 0 && bet == 0,
        Action::Bet(to) => own == 0 && bet == 0 && 2 <= to.count <= most,
        Action::Raise(to) => bet + 2 <= to.count <= most,
    }
}

// ---------------------------------------------------------------------------
// Amounts
// ---------------------------------------------------------------------------

/// Whether all amounts lie between two bounds.
pub open spec fn between(s: Seq<Nano>, lo: int, hi: int) -> bool {
    forall|k: int| 0 <= k < s.len() ==> lo <= (#[trigger] s[k]).count <= hi
}

proof fn lemma_between_less(s: Seq<Nano>, lo: int, hi: int)
    requires
        between(s, lo, hi),
        s.len() > 0,
    ensures
        between(s.drop_last(), lo, hi),
        lo <= s.last().count <= hi,
{
    assert(s.last() == s[s.len() - 1]);
    assert forall|k: int| 0 <= k < s.len() - 1 implies lo <= (#[trigger] s.drop_last()[k]).count
        <= hi by {
        assert(s.drop_last()[k] == s[k]);
    }
}

proof fn lemma_inserted(s: Seq<Nano>, x: Nano, lo: int, hi: int)
    requires
        between(s, lo, hi),
        lo <= x.count <= hi,
    ensures
        between(tree::inserted(s, x), lo, hi),
    decreases s.len(),
{
    if s.len() > 0 && x.below_spec(s.last()) {
        lemma_between_less(s, lo, hi);
        lemma_inserted(s.drop_last(), x, lo, hi);
    }
}

pub(crate) proof fn lemma_ascending(s: Seq<Nano>, lo: int, hi: int)
    requires
        between(s, lo, hi),
    ensures
        between(tree::ascending(s), lo, hi),
    decreases s.len(),
{
    if s.len() > 0 {
        lemma_between_less(s, lo, hi);
        lemma_ascending(s.drop_last(), lo, hi);
        lemma_inserted(tree::ascending(s.drop_last()), s.last(), lo, hi);
    }
}

pub(crate) proof fn lemma_thinned(s: Seq<Nano>, lo: int, hi: int)
    requires
        between(s, lo, hi),
    ensures
        between(tree::thinned(s), lo, hi),
    decreases s.len(),
{
    if s.len() > 0 {
        lemma_between_less(s, lo, hi);
        lemma_thinned(s.drop_last(), lo, hi);
    }
}

pub(crate) proof fn lemma_slack()
    ensures
        tree::slack::<Nano>().count == 1,
{
    assert(nano::ten_to(9) == 1_000_000_000) by {
        reveal_with_fuel(nano::ten_to, 10);
    }
}

pub(crate) proof fn lemma_kept_raises(
    cands: Seq<Nano>,
    bet: Nano,
    min_to: Nano,
    max_to: Nano,
    threshold: Nano,
)
    requires
        0 <= bet.count,
        0 <= max_to.count,
    ensures
        between(
            tree::kept_raises(cands, bet, min_to, max_to, threshold),
            bet.count + 2,
            max_to.count as int,
        ),
    decreases cands.len(),
{
    lemma_slack();
    if cands.len() > 0 {
        lemma_kept_raises(cands.drop_last(), bet, min_to, max_to, threshold);
    }
}

pub(crate) proof fn lemma_kept_bets(cands: Seq<Nano>, max_to: Nano, threshold: Nano)
    requires
        2 <= max_to.count,
    ensures
        between(tree::kept_bets(cands, max_to, threshold), 2, max_to.count as int),
    decreases cands.len(),
{
    lemma_slack();
    if cands.len() > 0 {
        lemma_kept_bets(cands.drop_last(), max_to, threshold);
    }
}

pub(crate) proof fn lemma_half(cfg: TreeConfig<Nano>)
    requires
        roomy(cfg),
    ensures
        cfg.starting_pot.over_spec(Nano::decimal_spec(2, 0)).count == half_pot(cfg),
{
    assert(nano::ten_to(0) == 1);
    assert(Nano::decimal_spec(2, 0).count == 2_000_000_000);
    vstd::arithmetic::div_mod::lemma_truncate_middle(
        cfg.starting_pot.count as int,
        2,
        1_000_000_000,
    );
    assert((cfg.starting_pot.count * 1_000_000_000) / 2_000_000_000 == cfg.starting_pot.count / 2);
}

/// What a player has behind.
pub(crate) proof fn lemma_behind(cfg: TreeConfig<Nano>, put: Nano)
    requires
        roomy(cfg),
        half_pot(cfg) <= put.count <= whole_stack(cfg),
    ensures
        tree::behind(cfg, put).count == whole_stack(cfg) - put.count,
{
    lemma_half(cfg);
}

/// Every legal action fits the state.
pub(crate) proof fn lemma_offered(cfg: TreeConfig<Nano>, root_street: u8, st: BuildState<Nano>, k: int)
    requires
        roomy(cfg),
        even(cfg, st),
        st.to_act < 2,
        0 <= k < tree::legal(cfg, root_street, st).len(),
    ensures
        offered(cfg, st, tree::legal(cfg, root_street, st)[k]),
{
    lemma_slack();
    let me = st.to_act as int;
    let bet = st.street_bet[tree::other(st.to_act)];
    lemma_behind(cfg, st.put[me]);
    if tree::slack::<Nano>().below_spec(tree::facing(st)) {
        if k >= 2 {
            let stack = tree::behind(cfg, st.put[me]);
            let pot_after_call = st.put[0].plus_spec(st.put[1]).plus_spec(tree::facing(st));
            let max_to = st.street_bet[me].plus_spec(stack);
            assert(max_to.count == st.street_bet[me].count + stack.count);
            let min_to = bet.plus_spec(num::larger_of(st.last_increment, tree::slack()));
            let sizes = tree::lists(cfg, st.to_act)[st.street as int].raise@;
            let named = tree::raise_candidates(sizes, bet, pot_after_call, max_to);
            let cands = if cfg.add_allin {
                named.push(max_to)
            } else {
                named
            };
            let kept = tree::kept_raises(cands, bet, min_to, max_to, cfg.allin_threshold);
            lemma_kept_raises(cands, bet, min_to, max_to, cfg.allin_threshold);
            lemma_ascending(kept, bet.count + 2, max_to.count as int);
            lemma_thinned(tree::ascending(kept), bet.count + 2, max_to.count as int);
            let all = tree::raises(cfg, st);
            assert(all == tree::thinned(tree::ascending(kept)));
            assert(tree::legal(cfg, root_street, st)[k] == Action::Raise(all[k - 2]));
        }
    } else if k >= 1 {
        let max_to = tree::behind(cfg, st.put[me]);
        let pot = st.put[0].plus_spec(st.put[1]);
        let sizes = tree::bet_list(cfg, root_street, st);
        let named = tree::bet_candidates(sizes, pot, max_to);
        let cands = if cfg.add_allin && (sizes.len() > 0 || !tree::donking(root_street, st)) {
            named.push(max_to)
        } else {
            named
        };
        let kept = tree::kept_bets(cands, max_to, cfg.allin_threshold);
        lemma_kept_bets(cands, max_to, cfg.allin_threshold);
        lemma_ascending(kept, 2, max_to.count as int);
        lemma_thinned(tree::ascending(kept), 2, max_to.count as int);
        let all = tree::bets(cfg, root_street, st);
        assert(all == tree::thinned(tree::ascending(kept)));
        assert(tree::legal(cfg, root_street, st)[k] == Action::Bet(all[k - 1]));
    }
}

/// A bet or raise leaves the state even.
pub(crate) proof fn lemma_bet_even(cfg: TreeConfig<Nano>, st: BuildState<Nano>, to: Nano, raised: bool)
    requires
        roomy(cfg),
        even(cfg, st),
        st.to_act < 2,
        offered(cfg, st, Action::Bet(to)) || offered(cfg, st, Action::Raise(to)),
    ensures
        even(cfg, tree::after_bet(st, to, raised)),
{
    let me = st.to_act as int;
    let own = st.street_bet[me].count;
    let put = st.put[me].plus_spec(to.minus_spec(st.street_bet[me]));
    assert(own <= to.count);
    assert(put.count == st.put[me].count + (to.count - own));
    let next = tree::after_bet(st, to, raised);
    assert(next.put[me] == put && next.street_bet[me] == to);
    assert(next.put[1 - me] == st.put[1 - me] && next.street_bet[1 - me] == st.street_bet[1 - me]);
}

/// A call evens the contributions out.
pub(crate) proof fn lemma_call_matches(cfg: TreeConfig<Nano>, st: BuildState<Nano>, to: Nano)
    requires
        roomy(cfg),
        even(cfg, st),
        st.to_act < 2,
        offered(cfg, st, Action::Call(to)),
    ensures
        matched(cfg, tree::put_after(st, to)),
{
    let me = st.to_act as int;
    let own = st.street_bet[me].count;
    let put = st.put[me].plus_spec(to.minus_spec(st.street_bet[me]));
    assert(put.count == st.put[me].count + (to.count - own));
    let next = tree::put_after(st, to);
    assert(next[me] == put && next[1 - me] == st.put[1 - me]);
    assert(put == st.put[1 - me]);
}

/// A fold leaves less in than the bet.
proof fn lemma_fold_fair(cfg: TreeConfig<Nano>, st: BuildState<Nano>)
    requires
        even(cfg, st),
        st.to_act < 2,
        offered(cfg, st, Action::Fold),
    ensures
        fair(cfg, tree::fold_node(cfg, st)),
{
}

// ---------------------------------------------------------------------------
// The tree
// ---------------------------------------------------------------------------

proof fn lemma_action_fair(cx: Setting<Nano>, a: Arena<Nano>, st: BuildState<Nano>, fuel: nat)
    requires
        fair_so_far(cx, a),
        tree::grow_action(cx, a, st, fuel) is Ok,
        roomy(cx.config),
        even(cx.config, st),
        st.street < 3,
        st.to_act < 2,
    ensures
        fair_so_far(cx, (tree::grow_action(cx, a, st, fuel)->Ok_0).0),
    decreases fuel, 4nat, 0nat,
{
    let acts = tree::legal(cx.config, cx.root_street, st);
    let (opened, node) = growth_laws::opening(cx, a, st);
    if !tree::spent(cx, a) && acts.len() != 0 && acts.len() <= tree::MAX_ACTIONS
        && a.actions.len() + acts.len() <= SENTINEL && tree::placed(opened, node) is Ok {
        let (b, i) = tree::placed(opened, node)->Ok_0;
        lemma_kids_fair(cx, b, st, acts, acts.len(), fuel);
        tree_laws::lemma_kids_sound(cx, b, st, acts, acts.len(), fuel);
    }
}

proof fn lemma_kids_fair(
    cx: Setting<Nano>,
    a: Arena<Nano>,
    st: BuildState<Nano>,
    acts: Seq<Action<Nano>>,
    k: nat,
    fuel: nat,
)
    requires
        fair_so_far(cx, a),
        tree::grow_kids(cx, a, st, acts, k, fuel) is Ok,
        roomy(cx.config),
        even(cx.config, st),
        st.street < 3,
        st.to_act < 2,
        acts == tree::legal(cx.config, cx.root_street, st),
        k <= acts.len(),
    ensures
        fair_so_far(cx, (tree::grow_kids(cx, a, st, acts, k, fuel)->Ok_0).0),
    decreases fuel, 3nat, k,
{
    if k > 0 {
        lemma_kids_fair(cx, a, st, acts, (k - 1) as nat, fuel);
        let before = tree::grow_kids(cx, a, st, acts, (k - 1) as nat, fuel);
        if before is Ok {
            let (b, kids) = before->Ok_0;
            lemma_offered(cx.config, cx.root_street, st, k - 1);
            lemma_after_fair(cx, b, st, acts[k - 1], fuel);
        }
    }
}

proof fn lemma_after_fair(
    cx: Setting<Nano>,
    a: Arena<Nano>,
    st: BuildState<Nano>,
    act: Action<Nano>,
    fuel: nat,
)
    requires
        fair_so_far(cx, a),
        tree::grow_after(cx, a, st, act, fuel) is Ok,
        roomy(cx.config),
        even(cx.config, st),
        st.street < 3,
        st.to_act < 2,
        offered(cx.config, st, act),
    ensures
        fair_so_far(cx, (tree::grow_after(cx, a, st, act, fuel)->Ok_0).0),
    decreases fuel, 2nat, 0nat,
{
    match act {
        Action::Fold => {
            lemma_fold_fair(cx.config, st);
        },
        Action::Check => {
            if st.checked {
                lemma_street_end_fair(
                    cx,
                    a,
                    st.street,
                    st.put,
                    st.last_aggressor,
                    false,
                    fuel,
                );
            } else if fuel > 0 {
                lemma_action_fair(cx, a, tree::after_check(st), (fuel - 1) as nat);
            }
        },
        Action::Call(to) => {
            let put = tree::put_after(st, to);
            lemma_call_matches(cx.config, st, to);
            lemma_street_end_fair(
                cx,
                a,
                st.street,
                put,
                Some(tree::other(st.to_act) as u8),
                tree::all_in(cx.config, put),
                fuel,
            );
        },
        Action::Bet(to) => {
            if fuel > 0 {
                lemma_bet_even(cx.config, st, to, false);
                lemma_action_fair(cx, a, tree::after_bet(st, to, false), (fuel - 1) as nat);
            }
        },
        Action::Raise(to) => {
            if fuel > 0 {
                lemma_bet_even(cx.config, st, to, true);
                lemma_action_fair(cx, a, tree::after_bet(st, to, true), (fuel - 1) as nat);
            }
        },
    }
}

proof fn lemma_street_end_fair(
    cx: Setting<Nano>,
    a: Arena<Nano>,
    street: u8,
    put: [Nano; 2],
    aggressor: Option<u8>,
    allin: bool,
    fuel: nat,
)
    requires
        fair_so_far(cx, a),
        tree::grow_street_end(cx, a, street, put, aggressor, allin, fuel) is Ok,
        roomy(cx.config),
        matched(cx.config, put),
        street < 3,
    ensures
        fair_so_far(
            cx,
            (tree::grow_street_end(cx, a, street, put, aggressor, allin, fuel)->Ok_0).0,
        ),
    decreases fuel, 1nat, 0nat,
{
    if street >= 2 {
    } else if allin {
        lemma_runout_fair(cx, a, street, put);
    } else {
        let next = (street + 1) as u8;
        let node = tree::plain_node(KIND_CHANCE, 0, next, put);
        if !tree::spent(cx, a) && tree::placed(a, node) is Ok {
            let (b, i) = tree::placed(a, node)->Ok_0;
            let st = tree::street_start(next, put, aggressor);
            lemma_deals_fair(cx, b, st, 52, fuel);
            tree_laws::lemma_deals_sound(cx, b, st, 52, fuel);
        }
    }
}

proof fn lemma_deals_fair(
    cx: Setting<Nano>,
    a: Arena<Nano>,
    st: BuildState<Nano>,
    k: nat,
    fuel: nat,
)
    requires
        fair_so_far(cx, a),
        tree::grow_deals(cx, a, st, k, fuel) is Ok,
        roomy(cx.config),
        even(cx.config, st),
        st.street < 3,
        st.to_act < 2,
    ensures
        fair_so_far(cx, (tree::grow_deals(cx, a, st, k, fuel)->Ok_0).0),
    decreases fuel, 0nat, k,
{
    if k > 0 {
        lemma_deals_fair(cx, a, st, (k - 1) as nat, fuel);
        let before = tree::grow_deals(cx, a, st, (k - 1) as nat, fuel);
        if before is Ok && !cards::in_mask(cx.board_mask, k - 1) && fuel > 0 {
            let (b, kids) = before->Ok_0;
            lemma_action_fair(cx, b, st, (fuel - 1) as nat);
        }
    }
}

proof fn lemma_runout_fair(cx: Setting<Nano>, a: Arena<Nano>, street: u8, put: [Nano; 2])
    requires
        fair_so_far(cx, a),
        tree::grow_runout(cx, a, street, put) is Ok,
        roomy(cx.config),
        matched(cx.config, put),
        street < 2,
    ensures
        fair_so_far(cx, (tree::grow_runout(cx, a, street, put)->Ok_0).0),
    decreases 2 - street, 100nat,
{
    let node = tree::plain_node(KIND_CHANCE, 0, (street + 1) as u8, put);
    if !tree::spent(cx, a) && tree::placed(a, node) is Ok {
        let (b, i) = tree::placed(a, node)->Ok_0;
        lemma_runout_deals_fair(cx, b, street, put, 52);
        tree_laws::lemma_runout_deals_sound(cx, b, street, put, 52);
    }
}

proof fn lemma_runout_deals_fair(
    cx: Setting<Nano>,
    a: Arena<Nano>,
    street: u8,
    put: [Nano; 2],
    k: nat,
)
    requires
        fair_so_far(cx, a),
        tree::grow_runout_deals(cx, a, street, put, k) is Ok,
        roomy(cx.config),
        matched(cx.config, put),
        street < 2,
        k <= 52,
    ensures
        fair_so_far(cx, (tree::grow_runout_deals(cx, a, street, put, k)->Ok_0).0),
    decreases 2 - street, k,
{
    if k > 0 {
        lemma_runout_deals_fair(cx, a, street, put, (k - 1) as nat);
        let before = tree::grow_runout_deals(cx, a, street, put, (k - 1) as nat);
        if before is Ok && !cards::in_mask(cx.board_mask, k - 1) {
            let (b, kids) = before->Ok_0;
            if street + 1 < 2 {
                lemma_runout_fair(cx, b, (street + 1) as u8, put);
            } else {
            }
        }
    }
}

/// Law: in a built tree no one puts in more than the stack, hands are shown
/// down for equal contributions, and a player who folds has put in less than
/// the other.
pub proof fn law_contributions_are_fair(
    cfg: TreeConfig<Nano>,
    board: Seq<u8>,
    num_hands: [usize; 2],
    max_nodes: Option<usize>,
    strictness: Strictness,
    i: int,
)
    requires
        tree::built(cfg, board, num_hands, max_nodes, strictness) is Ok,
        whole_stack(cfg) <= i64::MAX,
        0 <= i < (tree::built(cfg, board, num_hands, max_nodes, strictness)->Ok_0).0.nodes.len(),
    ensures
        fair(cfg, (tree::built(cfg, board, num_hands, max_nodes, strictness)->Ok_0).0.nodes[i]),
{
    let half = cfg.starting_pot.over_spec(Nano::decimal_spec(2, 0));
    let root_street = (board.len() - 3) as u8;
    assert(nano::ten_to(0) == 1);
    lemma_half(cfg);
    lemma_action_fair(
        tree_laws::setting_of(cfg, board, num_hands, max_nodes),
        tree::bare(),
        tree::street_start(root_street, [half, half], None),
        SENTINEL as nat,
    );
}

/// A rake that is not negative.
proof fn lemma_rake(cfg: TreeConfig<Nano>, pot: Nano)
    requires
        0 <= cfg.rake_pct.count,
        0 <= pot.count,
    ensures
        0 <= tree::rake_of(cfg, pot).count,
{
    assert(nano::ten_to(0) == 1);
    let y = cfg.rake_pct.count * pot.count;
    assert(0 <= y) by (nonlinear_arith)
        requires
            y == cfg.rake_pct.count * pot.count,
            0 <= cfg.rake_pct.count,
            0 <= pot.count,
    ;
    vstd::arithmetic::div_mod::lemma_div_pos_is_pos(y, 1_000_000_000);
}

/// Law: in a built tree chips leave only as rake. At every fold and showdown
/// the two players together lose the rake, and where they tie each loses half
/// of it, down to a billionth.
pub proof fn law_chips_leave_only_as_rake(
    cfg: TreeConfig<Nano>,
    board: Seq<u8>,
    num_hands: [usize; 2],
    max_nodes: Option<usize>,
    strictness: Strictness,
    i: int,
)
    requires
        tree::built(cfg, board, num_hands, max_nodes, strictness) is Ok,
        whole_stack(cfg) <= i64::MAX,
        0 <= cfg.rake_pct.count,
        0 <= i < (tree::built(cfg, board, num_hands, max_nodes, strictness)->Ok_0).0.nodes.len(),
    ensures
        ({
            let node = (tree::built(cfg, board, num_hands, max_nodes, strictness)->Ok_0).0.nodes[i];
            let rake = tree::rake_of(cfg, raked_pot(node)).count;
            &&& node.kind == KIND_TERM_FOLD || node.kind == KIND_TERM_SHOWDOWN ==> 0 <= rake
                && node.t_win.count + node.t_lose.count == -rake
            &&& node.kind == KIND_TERM_SHOWDOWN ==> -rake <= 2 * node.t_tie.count <= -rake + 1
        }),
{
    let node = (tree::built(cfg, board, num_hands, max_nodes, strictness)->Ok_0).0.nodes[i];
    assert(nano::ten_to(0) == 1);
    law_contributions_are_fair(cfg, board, num_hands, max_nodes, strictness, i);
    if node.kind == KIND_TERM_FOLD {
        let f = node.put[node.player as int].count;
        assert(Nano::decimal_spec(2, 0).count == 2_000_000_000);
        vstd::arithmetic::div_mod::lemma_div_pos_is_pos(2_000_000_000 * f, 1_000_000_000);
        lemma_rake(cfg, raked_pot(node));
    } else if node.kind == KIND_TERM_SHOWDOWN {
        lemma_rake(cfg, raked_pot(node));
        chip_laws::law_a_showdown_costs_the_rake(cfg, 2, node.put);
    }
}

} // verus!
