//! How trees grow: within their budget, from nothing but what the
//! configuration says, and with one parent for every node but the root.

use crate::cards;
use crate::num::Num;
use crate::tree;
use crate::tree::{
    Action, Arena, BetSize, BuildState, Node, Setting, Strictness, TreeConfig, KIND_ACTION,
    KIND_CHANCE, SENTINEL,
};
use crate::tree_laws;
use vstd::prelude::*;

verus! {

/// The node that a decision opens, and the arena with its actions and cells
/// taken up.
pub open spec fn opening<N: Num>(cx: Setting<N>, a: Arena<N>, st: BuildState<N>) -> (
    Arena<N>,
    Node<N>,
) {
    let acts = tree::legal(cx.config, cx.root_street, st);
    let me = st.to_act as int;
    (
        Arena {
            actions: a.actions + acts,
            data_size: tree::set_pair(
                a.data_size,
                st.to_act,
                (a.data_size[me] + acts.len() * cx.num_hands[me]) as u64,
            ),
            ..a
        },
        Node {
            num_children: acts.len() as u8,
            actions_start: a.actions.len() as u32,
            data_offset: a.data_size[me],
            ..tree::plain_node(KIND_ACTION, st.to_act, st.street, st.put)
        },
    )
}

// ---------------------------------------------------------------------------
// The budget
// ---------------------------------------------------------------------------

/// Whether a tree is within the budget, where there is one.
pub open spec fn within<N>(cx: Setting<N>, a: Arena<N>) -> bool {
    cx.max_nodes matches Some(cap) ==> a.nodes.len() <= cap
}

proof fn lemma_action_within<N: Num>(cx: Setting<N>, a: Arena<N>, st: BuildState<N>, fuel: nat)
    requires
        within(cx, a),
        tree::grow_action(cx, a, st, fuel) is Ok,
        st.street < 3,
        st.to_act < 2,
    ensures
        within(cx, (tree::grow_action(cx, a, st, fuel)->Ok_0).0),
    decreases fuel, 4nat, 0nat,
{
    let acts = tree::legal(cx.config, cx.root_street, st);
    let (opened, node) = opening(cx, a, st);
    if !tree::spent(cx, a) && acts.len() != 0 && acts.len() <= tree::MAX_ACTIONS
        && a.actions.len() + acts.len() <= SENTINEL && tree::placed(opened, node) is Ok {
        let (b, i) = tree::placed(opened, node)->Ok_0;
        lemma_kids_within(cx, b, st, acts, acts.len(), fuel);
        tree_laws::lemma_kids_sound(cx, b, st, acts, acts.len(), fuel);
    }
}

proof fn lemma_kids_within<N: Num>(
    cx: Setting<N>,
    a: Arena<N>,
    st: BuildState<N>,
    acts: Seq<Action<N>>,
    k: nat,
    fuel: nat,
)
    requires
        within(cx, a),
        tree::grow_kids(cx, a, st, acts, k, fuel) is Ok,
        st.street < 3,
        st.to_act < 2,
        k <= acts.len(),
    ensures
        within(cx, (tree::grow_kids(cx, a, st, acts, k, fuel)->Ok_0).0),
    decreases fuel, 3nat, k,
{
    if k > 0 {
        lemma_kids_within(cx, a, st, acts, (k - 1) as nat, fuel);
        let before = tree::grow_kids(cx, a, st, acts, (k - 1) as nat, fuel);
        if before is Ok {
            let (b, kids) = before->Ok_0;
            lemma_after_within(cx, b, st, acts[k - 1], fuel);
        }
    }
}

proof fn lemma_after_within<N: Num>(
    cx: Setting<N>,
    a: Arena<N>,
    st: BuildState<N>,
    act: Action<N>,
    fuel: nat,
)
    requires
        within(cx, a),
        tree::grow_after(cx, a, st, act, fuel) is Ok,
        st.street < 3,
        st.to_act < 2,
    ensures
        within(cx, (tree::grow_after(cx, a, st, act, fuel)->Ok_0).0),
    decreases fuel, 2nat, 0nat,
{
    match act {
        Action::Fold => {
        },
        Action::Check => {
            if st.checked {
                lemma_street_end_within(
                    cx,
                    a,
                    st.street,
                    st.put,
                    st.last_aggressor,
                    false,
                    fuel,
                );
            } else if fuel > 0 {
                lemma_action_within(cx, a, tree::after_check(st), (fuel - 1) as nat);
            }
        },
        Action::Call(to) => {
            let put = tree::put_after(st, to);
            lemma_street_end_within(
                cx,
                a,
                st.street,
                put,
                Some(tree::other(st.to_act) as u8),
                tree::all_in(cx.config, put),
                fuel,
            );
        },
        Action::Bet(to) => {
            if fuel > 0 {
                lemma_action_within(cx, a, tree::after_bet(st, to, false), (fuel - 1) as nat);
            }
        },
        Action::Raise(to) => {
            if fuel > 0 {
                lemma_action_within(cx, a, tree::after_bet(st, to, true), (fuel - 1) as nat);
            }
        },
    }
}

proof fn lemma_street_end_within<N: Num>(
    cx: Setting<N>,
    a: Arena<N>,
    street: u8,
    put: [N; 2],
    aggressor: Option<u8>,
    allin: bool,
    fuel: nat,
)
    requires
        within(cx, a),
        tree::grow_street_end(cx, a, street, put, aggressor, allin, fuel) is Ok,
        street < 3,
    ensures
        within(cx, (tree::grow_street_end(cx, a, street, put, aggressor, allin, fuel)->Ok_0).0),
    decreases fuel, 1nat, 0nat,
{
    if street >= 2 {
    } else if allin {
        lemma_runout_within(cx, a, street, put);
    } else {
        let next = (street + 1) as u8;
        let node = tree::plain_node(KIND_CHANCE, 0, next, put);
        if !tree::spent(cx, a) && tree::placed(a, node) is Ok {
            let (b, i) = tree::placed(a, node)->Ok_0;
            let st = tree::street_start(next, put, aggressor);
            lemma_deals_within(cx, b, st, 52, fuel);
            tree_laws::lemma_deals_sound(cx, b, st, 52, fuel);
        }
    }
}

proof fn lemma_deals_within<N: Num>(
    cx: Setting<N>,
    a: Arena<N>,
    st: BuildState<N>,
    k: nat,
    fuel: nat,
)
    requires
        within(cx, a),
        tree::grow_deals(cx, a, st, k, fuel) is Ok,
        st.street < 3,
        st.to_act < 2,
    ensures
        within(cx, (tree::grow_deals(cx, a, st, k, fuel)->Ok_0).0),
    decreases fuel, 0nat, k,
{
    if k > 0 {
        lemma_deals_within(cx, a, st, (k - 1) as nat, fuel);
        let before = tree::grow_deals(cx, a, st, (k - 1) as nat, fuel);
        if before is Ok && !cards::in_mask(cx.board_mask, k - 1) && fuel > 0 {
            let (b, kids) = before->Ok_0;
            lemma_action_within(cx, b, st, (fuel - 1) as nat);
        }
    }
}

proof fn lemma_runout_within<N: Num>(cx: Setting<N>, a: Arena<N>, street: u8, put: [N; 2])
    requires
        within(cx, a),
        tree::grow_runout(cx, a, street, put) is Ok,
        street < 2,
    ensures
        within(cx, (tree::grow_runout(cx, a, street, put)->Ok_0).0),
    decreases 2 - street, 100nat,
{
    let node = tree::plain_node(KIND_CHANCE, 0, (street + 1) as u8, put);
    if !tree::spent(cx, a) && tree::placed(a, node) is Ok {
        let (b, i) = tree::placed(a, node)->Ok_0;
        lemma_runout_deals_within(cx, b, street, put, 52);
        tree_laws::lemma_runout_deals_sound(cx, b, street, put, 52);
    }
}

proof fn lemma_runout_deals_within<N: Num>(
    cx: Setting<N>,
    a: Arena<N>,
    street: u8,
    put: [N; 2],
    k: nat,
)
    requires
        within(cx, a),
        tree::grow_runout_deals(cx, a, street, put, k) is Ok,
        street < 2,
        k <= 52,
    ensures
        within(cx, (tree::grow_runout_deals(cx, a, street, put, k)->Ok_0).0),
    decreases 2 - street, k,
{
    if k > 0 {
        lemma_runout_deals_within(cx, a, street, put, (k - 1) as nat);
        let before = tree::grow_runout_deals(cx, a, street, put, (k - 1) as nat);
        if before is Ok && !cards::in_mask(cx.board_mask, k - 1) {
            let (b, kids) = before->Ok_0;
            if street + 1 < 2 {
                lemma_runout_within(cx, b, (street + 1) as u8, put);
            } else {
            }
        }
    }
}

/// Law: no tree passes its node budget.
pub proof fn law_budget_bounds<N: Num>(
    cfg: TreeConfig<N>,
    board: Seq<u8>,
    num_hands: [usize; 2],
    strictness: Strictness,
    cap: usize,
)
    requires
        tree::built(cfg, board, num_hands, Some(cap), strictness) is Ok,
    ensures
        (tree::built(cfg, board, num_hands, Some(cap), strictness)->Ok_0).0.nodes.len() <= cap,
{
    let half = cfg.starting_pot.over_spec(N::decimal_spec(2, 0));
    let root_street = (board.len() - 3) as u8;
    lemma_action_within(
        tree_laws::setting_of(cfg, board, num_hands, Some(cap)),
        tree::bare(),
        tree::street_start(root_street, [half, half], None),
        SENTINEL as nat,
    );
}

// ---------------------------------------------------------------------------
// The configuration
// ---------------------------------------------------------------------------

/// Two settings that say the same: everything but the sizes is equal, and the
/// sizes lead to the same legal actions.
pub open spec fn says_the_same<N: Num>(cx: Setting<N>, dx: Setting<N>) -> bool {
    &&& tree_laws::agree(cx, dx, 0)
    &&& cx.max_nodes == dx.max_nodes
}

proof fn lemma_action_same<N: Num>(
    cx: Setting<N>,
    dx: Setting<N>,
    a: Arena<N>,
    st: BuildState<N>,
    fuel: nat,
)
    requires
        says_the_same(cx, dx),
        st.street < 3,
        st.to_act < 2,
    ensures
        tree::grow_action(dx, a, st, fuel) == tree::grow_action(cx, a, st, fuel),
    decreases fuel, 4nat, 0nat,
{
    let acts = tree::legal(cx.config, cx.root_street, st);
    let (opened, node) = opening(cx, a, st);
    if !tree::spent(cx, a) && acts.len() != 0 && acts.len() <= tree::MAX_ACTIONS
        && a.actions.len() + acts.len() <= SENTINEL && tree::placed(opened, node) is Ok {
        let (b, i) = tree::placed(opened, node)->Ok_0;
        lemma_kids_same(cx, dx, b, st, acts, acts.len(), fuel);
    }
}

proof fn lemma_kids_same<N: Num>(
    cx: Setting<N>,
    dx: Setting<N>,
    a: Arena<N>,
    st: BuildState<N>,
    acts: Seq<Action<N>>,
    k: nat,
    fuel: nat,
)
    requires
        says_the_same(cx, dx),
        st.street < 3,
        st.to_act < 2,
        k <= acts.len(),
    ensures
        tree::grow_kids(dx, a, st, acts, k, fuel) == tree::grow_kids(cx, a, st, acts, k, fuel),
    decreases fuel, 3nat, k,
{
    if k > 0 {
        lemma_kids_same(cx, dx, a, st, acts, (k - 1) as nat, fuel);
        let before = tree::grow_kids(cx, a, st, acts, (k - 1) as nat, fuel);
        if before is Ok {
            let (b, kids) = before->Ok_0;
            lemma_after_same(cx, dx, b, st, acts[k - 1], fuel);
        }
    }
}

proof fn lemma_after_same<N: Num>(
    cx: Setting<N>,
    dx: Setting<N>,
    a: Arena<N>,
    st: BuildState<N>,
    act: Action<N>,
    fuel: nat,
)
    requires
        says_the_same(cx, dx),
        st.street < 3,
        st.to_act < 2,
    ensures
        tree::grow_after(dx, a, st, act, fuel) == tree::grow_after(cx, a, st, act, fuel),
    decreases fuel, 2nat, 0nat,
{
    match act {
        Action::Fold => {
        },
        Action::Check => {
            if st.checked {
                lemma_street_end_same(
                    cx,
                    dx, a,
                    st.street,
                    st.put,
                    st.last_aggressor,
                    false,
                    fuel,
                );
            } else if fuel > 0 {
                lemma_action_same(cx, dx, a, tree::after_check(st), (fuel - 1) as nat);
            }
        },
        Action::Call(to) => {
            let put = tree::put_after(st, to);
            lemma_street_end_same(
                cx,
                dx, a,
                st.street,
                put,
                Some(tree::other(st.to_act) as u8),
                tree::all_in(cx.config, put),
                fuel,
            );
        },
        Action::Bet(to) => {
            if fuel > 0 {
                lemma_action_same(cx, dx, a, tree::after_bet(st, to, false), (fuel - 1) as nat);
            }
        },
        Action::Raise(to) => {
            if fuel > 0 {
                lemma_action_same(cx, dx, a, tree::after_bet(st, to, true), (fuel - 1) as nat);
            }
        },
    }
}

proof fn lemma_street_end_same<N: Num>(
    cx: Setting<N>,
    dx: Setting<N>,
    a: Arena<N>,
    street: u8,
    put: [N; 2],
    aggressor: Option<u8>,
    allin: bool,
    fuel: nat,
)
    requires
        says_the_same(cx, dx),
        street < 3,
    ensures
        tree::grow_street_end(dx, a, street, put, aggressor, allin, fuel)
            == tree::grow_street_end(cx, a, street, put, aggressor, allin, fuel),
    decreases fuel, 1nat, 0nat,
{
    if street >= 2 {
    } else if allin {
        lemma_runout_same(cx, dx, a, street, put);
    } else {
        let next = (street + 1) as u8;
        let node = tree::plain_node(KIND_CHANCE, 0, next, put);
        if !tree::spent(cx, a) && tree::placed(a, node) is Ok {
            let (b, i) = tree::placed(a, node)->Ok_0;
            let st = tree::street_start(next, put, aggressor);
            lemma_deals_same(cx, dx, b, st, 52, fuel);
        }
    }
}

proof fn lemma_deals_same<N: Num>(
    cx: Setting<N>,
    dx: Setting<N>,
    a: Arena<N>,
    st: BuildState<N>,
    k: nat,
    fuel: nat,
)
    requires
        says_the_same(cx, dx),
        st.street < 3,
        st.to_act < 2,
    ensures
        tree::grow_deals(dx, a, st, k, fuel) == tree::grow_deals(cx, a, st, k, fuel),
    decreases fuel, 0nat, k,
{
    if k > 0 {
        lemma_deals_same(cx, dx, a, st, (k - 1) as nat, fuel);
        let before = tree::grow_deals(cx, a, st, (k - 1) as nat, fuel);
        if before is Ok && !cards::in_mask(cx.board_mask, k - 1) && fuel > 0 {
            let (b, kids) = before->Ok_0;
            lemma_action_same(cx, dx, b, st, (fuel - 1) as nat);
        }
    }
}

proof fn lemma_runout_same<N: Num>(
    cx: Setting<N>,
    dx: Setting<N>,
    a: Arena<N>,
    street: u8,
    put: [N; 2],
)
    requires
        says_the_same(cx, dx),
        street < 2,
    ensures
        tree::grow_runout(dx, a, street, put) == tree::grow_runout(cx, a, street, put),
    decreases 2 - street, 100nat,
{
    let node = tree::plain_node(KIND_CHANCE, 0, (street + 1) as u8, put);
    if !tree::spent(cx, a) && tree::placed(a, node) is Ok {
        let (b, i) = tree::placed(a, node)->Ok_0;
        lemma_runout_deals_same(cx, dx, b, street, put, 52);
    }
}

proof fn lemma_runout_deals_same<N: Num>(
    cx: Setting<N>,
    dx: Setting<N>,
    a: Arena<N>,
    street: u8,
    put: [N; 2],
    k: nat,
)
    requires
        says_the_same(cx, dx),
        street < 2,
        k <= 52,
    ensures
        tree::grow_runout_deals(dx, a, street, put, k)
            == tree::grow_runout_deals(cx, a, street, put, k),
    decreases 2 - street, k,
{
    if k > 0 {
        lemma_runout_deals_same(cx, dx, a, street, put, (k - 1) as nat);
        let before = tree::grow_runout_deals(cx, a, street, put, (k - 1) as nat);
        if before is Ok && !cards::in_mask(cx.board_mask, k - 1) {
            let (b, kids) = before->Ok_0;
            if street + 1 < 2 {
                lemma_runout_same(cx, dx, b, (street + 1) as u8, put);
            } else {
            }
        }
    }
}

/// Trees of settings that say the same grow alike, or are refused alike.
pub proof fn lemma_built_same<N: Num>(
    cfg: TreeConfig<N>,
    other: TreeConfig<N>,
    board: Seq<u8>,
    num_hands: [usize; 2],
    max_nodes: Option<usize>,
)
    requires
        says_the_same(
            tree_laws::setting_of(cfg, board, num_hands, max_nodes),
            tree_laws::setting_of(other, board, num_hands, max_nodes),
        ),
    ensures
        tree::built(other, board, num_hands, max_nodes, Strictness::LenientLoad) == tree::built(
            cfg,
            board,
            num_hands,
            max_nodes,
            Strictness::LenientLoad,
        ),
{
    let half = cfg.starting_pot.over_spec(N::decimal_spec(2, 0));
    let root_street = (board.len() - 3) as u8;
    if 3 <= board.len() <= 5 {
        lemma_action_same(
            tree_laws::setting_of(cfg, board, num_hands, max_nodes),
            tree_laws::setting_of(other, board, num_hands, max_nodes),
            tree::bare(),
            tree::street_start(root_street, [half, half], None),
            SENTINEL as nat,
        );
    }
}

/// Law: configurations that say the same build the same tree, or are refused
/// for the same reason.
pub proof fn law_same_config_same_tree<N: Num>(
    cfg: TreeConfig<N>,
    other: TreeConfig<N>,
    board: Seq<u8>,
    num_hands: [usize; 2],
    max_nodes: Option<usize>,
    strictness: Strictness,
)
    requires
        tree::same_config(cfg, other),
    ensures
        tree::built(other, board, num_hands, max_nodes, strictness) == tree::built(
            cfg,
            board,
            num_hands,
            max_nodes,
            strictness,
        ),
{
    let cx = tree_laws::setting_of(cfg, board, num_hands, max_nodes);
    let dx = tree_laws::setting_of(other, board, num_hands, max_nodes);
    assert forall|st: BuildState<N>| st.street < 3 && st.to_act < 2 implies #[trigger] tree::legal(
        cx.config,
        cx.root_street,
        st,
    ) == tree::legal(dx.config, dx.root_street, st) by {
        let street = st.street as int;
        assert(tree::same_sizing(cfg.oop[street], other.oop[street]));
        assert(tree::same_sizing(cfg.ip[street], other.ip[street]));
    }
    lemma_built_same(cfg, other, board, num_hands, max_nodes);
    lemma_same_offence(cfg, other, cx.root_street, 0);
}

proof fn lemma_same_offence<N: Num>(
    cfg: TreeConfig<N>,
    other: TreeConfig<N>,
    root_street: u8,
    k: int,
)
    requires
        tree::same_config(cfg, other),
        0 <= k,
    ensures
        tree::first_offence(other, root_street, k) == tree::first_offence(cfg, root_street, k),
    decreases 12 - k,
{
    if k < 12 {
        let street = (k / 2) % 3;
        assert(tree::same_sizing(cfg.oop[street], other.oop[street]));
        assert(tree::same_sizing(cfg.ip[street], other.ip[street]));
        lemma_same_offence(cfg, other, root_street, k + 1);
    }
}

proof fn lemma_no_mults<N>(sizes: Seq<BetSize<N>>)
    ensures
        forall|i: int|
            0 <= i < tree_laws::without_mults(sizes).len() ==> !(
            #[trigger] tree_laws::without_mults(sizes)[i] is PrevMult),
    decreases sizes.len(),
{
    if sizes.len() > 0 {
        lemma_no_mults(sizes.drop_last());
    }
}

proof fn lemma_no_first_mult<N>(sizes: Seq<BetSize<N>>)
    requires
        forall|i: int| 0 <= i < sizes.len() ==> !(#[trigger] sizes[i] is PrevMult),
    ensures
        tree::first_mult(sizes) is None,
    decreases sizes.len(),
{
    if sizes.len() > 0 {
        lemma_no_first_mult(sizes.drop_first());
    }
}

proof fn lemma_no_offence<N: Num>(
    cfg: TreeConfig<N>,
    dropped: TreeConfig<N>,
    root_street: u8,
    k: int,
)
    requires
        tree_laws::config_dropped(cfg, dropped),
        0 <= k,
    ensures
        tree::first_offence(dropped, root_street, k) is None,
    decreases 12 - k,
{
    if k < 12 {
        let street = (k / 2) % 3;
        assert(tree_laws::sizing_dropped(cfg.oop[street], dropped.oop[street], cfg.add_allin));
        assert(tree_laws::sizing_dropped(cfg.ip[street], dropped.ip[street], cfg.add_allin));
        lemma_no_mults(cfg.oop[street].bet@);
        lemma_no_mults(cfg.oop[street].donk@);
        lemma_no_mults(cfg.ip[street].bet@);
        lemma_no_mults(cfg.ip[street].donk@);
        lemma_no_first_mult(tree::checked_list(dropped, k));
        lemma_no_offence(cfg, dropped, root_street, k + 1);
    }
}

/// Law: a lenient build treats raise-only sizes in bet and donk lists as if
/// they were not there. It returns what a strict build of the configuration
/// without them returns: the very tree, or the same refusal.
pub proof fn law_lenient_drops_raise_only_sizes<N: Num>(
    cfg: TreeConfig<N>,
    dropped: TreeConfig<N>,
    board: Seq<u8>,
    num_hands: [usize; 2],
    max_nodes: Option<usize>,
)
    requires
        tree_laws::config_dropped(cfg, dropped),
    ensures
        tree::built(dropped, board, num_hands, max_nodes, Strictness::Strict) == tree::built(
            cfg,
            board,
            num_hands,
            max_nodes,
            Strictness::LenientLoad,
        ),
{
    let cx = tree_laws::setting_of(cfg, board, num_hands, max_nodes);
    let dx = tree_laws::setting_of(dropped, board, num_hands, max_nodes);
    assert forall|st: BuildState<N>| st.street < 3 && st.to_act < 2 implies #[trigger] tree::legal(
        cx.config,
        cx.root_street,
        st,
    ) == tree::legal(dx.config, dx.root_street, st) by {
        tree_laws::lemma_dropped_legal(cfg, dropped, cx.root_street, st);
    }
    lemma_built_same(cfg, dropped, board, num_hands, max_nodes);
    lemma_no_offence(cfg, dropped, cx.root_street, 0);
}

// ---------------------------------------------------------------------------
// Parents
// ---------------------------------------------------------------------------

/// The children that have been listed since.
pub open spec fn made<N>(a: Arena<N>, b: Arena<N>) -> Seq<u32> {
    b.children.skip(a.children.len() as int)
}

/// How often a list names a node.
pub open spec fn named(s: Seq<u32>, j: u32) -> nat {
    s.to_multiset().count(j)
}

/// Whether place `k` of the list of children is one of node `n`'s.
pub open spec fn owns<N>(b: Arena<N>, n: int, k: int) -> bool {
    b.nodes[n].children_start <= k < b.nodes[n].children_start + b.nodes[n].num_children
}

/// Whether place `k` belongs to one of the nodes from `n0` to `n1`.
pub open spec fn owned<N>(b: Arena<N>, n0: int, n1: int, k: int) -> bool {
    exists|n: int| n0 <= n < n1 && #[trigger] owns(b, n, k)
}

/// Whether the nodes from `n0` to `n1` share out the places from `k0` to `k1`
/// among them: each place is one node's, and they have no other places.
pub open spec fn shared_out<N>(b: Arena<N>, n0: int, n1: int, k0: int, k1: int) -> bool {
    &&& forall|k: int| k0 <= k < k1 ==> #[trigger] owned(b, n0, n1, k)
    &&& forall|n: int, k: int| n0 <= n < n1 && #[trigger] owns(b, n, k) ==> k0 <= k < k1
    &&& forall|n: int, m: int, k: int|
        n0 <= n < n1 && n0 <= m < n1 && #[trigger] owns(b, n, k) && #[trigger] owns(b, m, k) ==> n
            == m
}

/// Whether a subtree has grown: each of its nodes but its root is named once,
/// and nothing else is.
pub open spec fn tied<N>(a: Arena<N>, b: Arena<N>) -> bool {
    &&& forall|j: u32|
        j != SENTINEL ==> #[trigger] named(made(a, b), j) == if a.nodes.len() < j < b.nodes.len() {
            1nat
        } else {
            0nat
        }
    &&& shared_out(
        b,
        a.nodes.len() as int,
        b.nodes.len() as int,
        a.children.len() as int,
        b.children.len() as int,
    )
}

/// Whether subtrees have grown whose roots are `kids`: each of their nodes is
/// named once, or is one of the roots.
pub open spec fn tied_to<N>(a: Arena<N>, b: Arena<N>, kids: Seq<u32>) -> bool {
    &&& forall|j: u32|
        j != SENTINEL ==> #[trigger] named(made(a, b), j) + named(kids, j) == if a.nodes.len() <= j
            < b.nodes.len() {
            1nat
        } else {
            0nat
        }
    &&& shared_out(
        b,
        a.nodes.len() as int,
        b.nodes.len() as int,
        a.children.len() as int,
        b.children.len() as int,
    )
}

proof fn lemma_leaf_tied<N: Num>(a: Arena<N>, node: Node<N>)
    requires
        tree::placed(a, node) is Ok,
        node.num_children == 0,
    ensures
        tied(a, (tree::placed(a, node)->Ok_0).0),
{
    let b = (tree::placed(a, node)->Ok_0).0;
    assert(made(a, b) =~= Seq::empty());
    Seq::<u32>::empty().to_multiset_ensures();
}

proof fn lemma_none_tied<N: Num>(a: Arena<N>)
    ensures
        tied_to(a, a, Seq::empty()),
{
    assert(made(a, a) =~= Seq::empty());
    Seq::<u32>::empty().to_multiset_ensures();
}

proof fn lemma_no_child_tied<N: Num>(a: Arena<N>, b: Arena<N>, kids: Seq<u32>)
    requires
        tied_to(a, b, kids),
    ensures
        tied_to(a, b, kids.push(SENTINEL)),
{
    kids.to_multiset_ensures();
    assert(kids.push(SENTINEL).to_multiset() =~= kids.to_multiset().insert(SENTINEL));
    assert forall|j: u32| j != SENTINEL implies #[trigger] named(made(a, b), j) + named(
        kids.push(SENTINEL),
        j,
    ) == if a.nodes.len() <= j < b.nodes.len() {
        1nat
    } else {
        0nat
    } by {
        assert(named(kids.push(SENTINEL), j) == named(kids, j));
    }
}

proof fn lemma_one_more_tied<N: Num>(a: Arena<N>, b: Arena<N>, c: Arena<N>, kids: Seq<u32>)
    requires
        tied_to(a, b, kids),
        tied(b, c),
        tree_laws::extends(a, b),
        tree_laws::extends(b, c),
        b.nodes.len() < c.nodes.len() <= SENTINEL,
    ensures
        tied_to(a, c, kids.push(b.nodes.len() as u32)),
{
    let i = b.nodes.len() as u32;
    kids.to_multiset_ensures();
    assert(kids.push(i).to_multiset() =~= kids.to_multiset().insert(i));
    assert(made(a, c) =~= made(a, b) + made(b, c)) by {
        assert(forall|k: int|
            0 <= k < b.children.len() ==> #[trigger] c.children[k] == b.children[k]);
    }
    vstd::seq_lib::lemma_multiset_commutative(made(a, b), made(b, c));
    assert forall|j: u32| j != SENTINEL implies #[trigger] named(made(a, c), j) + named(
        kids.push(i),
        j,
    ) == if a.nodes.len() <= j < c.nodes.len() {
        1nat
    } else {
        0nat
    } by {
        assert(named(made(a, c), j) == named(made(a, b), j) + named(made(b, c), j));
    }
    assert(forall|n: int| 0 <= n < b.nodes.len() ==> #[trigger] c.nodes[n] == b.nodes[n]);
    let n0 = a.nodes.len() as int;
    let n1 = b.nodes.len() as int;
    let n2 = c.nodes.len() as int;
    assert forall|n: int, k: int| n0 <= n < n1 implies #[trigger] owns(c, n, k) == owns(
        b,
        n,
        k,
    ) by {}
    assert forall|k: int| a.children.len() <= k < c.children.len() implies #[trigger] owned(
        c,
        n0,
        n2,
        k,
    ) by {
        if k < b.children.len() {
            assert(owned(b, n0, n1, k));
            let n = choose|n: int| n0 <= n < n1 && #[trigger] owns(b, n, k);
            assert(owns(c, n, k));
        } else {
            assert(owned(c, n1, n2, k));
            let n = choose|n: int| n1 <= n < n2 && #[trigger] owns(c, n, k);
            assert(owns(c, n, k));
        }
    }
}

proof fn lemma_linked_tied<N: Num>(
    a: Arena<N>,
    b: Arena<N>,
    c: Arena<N>,
    i: u32,
    kids: Seq<u32>,
)
    requires
        i == a.nodes.len(),
        b.nodes.len() == i + 1,
        b.children == a.children,
        tree_laws::extends(b, c),
        c.nodes.len() <= SENTINEL,
        tied_to(b, c, kids),
        kids.len() <= 255,
        tree::linked(c, i, kids) is Ok,
    ensures
        tied(a, (tree::linked(c, i, kids)->Ok_0).0),
{
    let d = (tree::linked(c, i, kids)->Ok_0).0;
    assert(made(a, d) =~= made(b, c) + kids);
    vstd::seq_lib::lemma_multiset_commutative(made(b, c), kids);
    assert forall|j: u32| j != SENTINEL implies #[trigger] named(made(a, d), j) == if a.nodes.len()
        < j < d.nodes.len() {
        1nat
    } else {
        0nat
    } by {
        assert(named(made(a, d), j) == named(made(b, c), j) + named(kids, j));
    }
    let n0 = i as int;
    let n2 = d.nodes.len() as int;
    assert forall|n: int, k: int| n0 < n < n2 implies #[trigger] owns(d, n, k) == owns(
        c,
        n,
        k,
    ) by {
        assert(d.nodes[n] == c.nodes[n]);
    }
    assert(d.nodes[n0].children_start == c.children.len() && d.nodes[n0].num_children
        == kids.len());
    assert forall|k: int| a.children.len() <= k < d.children.len() implies #[trigger] owned(
        d,
        n0,
        n2,
        k,
    ) by {
        if k < c.children.len() {
            assert(owned(c, n0 + 1, n2, k));
            let n = choose|n: int| n0 + 1 <= n < n2 && #[trigger] owns(c, n, k);
            assert(owns(d, n, k));
        } else {
            assert(owns(d, n0, k));
        }
    }
    assert forall|n: int, m: int, k: int|
        n0 <= n < n2 && n0 <= m < n2 && #[trigger] owns(d, n, k) && #[trigger] owns(
            d,
            m,
            k,
        ) implies n == m by {
        if n > n0 && m > n0 {
            assert(owns(c, n, k) && owns(c, m, k));
        } else if n > n0 {
            assert(owns(c, n, k));
        } else if m > n0 {
            assert(owns(c, m, k));
        }
    }
}

proof fn lemma_action_tied<N: Num>(cx: Setting<N>, a: Arena<N>, st: BuildState<N>, fuel: nat)
    requires
        tree::grow_action(cx, a, st, fuel) is Ok,
        st.street < 3,
        st.to_act < 2,
    ensures
        tied(a, (tree::grow_action(cx, a, st, fuel)->Ok_0).0),
    decreases fuel, 4nat, 0nat,
{
    let acts = tree::legal(cx.config, cx.root_street, st);
    let (opened, node) = opening(cx, a, st);
    if !tree::spent(cx, a) && acts.len() != 0 && acts.len() <= tree::MAX_ACTIONS
        && a.actions.len() + acts.len() <= SENTINEL && tree::placed(opened, node) is Ok {
        let (b, i) = tree::placed(opened, node)->Ok_0;
        lemma_kids_tied(cx, b, st, acts, acts.len(), fuel);
        tree_laws::lemma_kids_sound(cx, b, st, acts, acts.len(), fuel);
        let (c, kids) = tree::grow_kids(cx, b, st, acts, acts.len(), fuel)->Ok_0;
        lemma_linked_tied(a, b, c, i, kids);
    }
}

proof fn lemma_kids_tied<N: Num>(
    cx: Setting<N>,
    a: Arena<N>,
    st: BuildState<N>,
    acts: Seq<Action<N>>,
    k: nat,
    fuel: nat,
)
    requires
        tree::grow_kids(cx, a, st, acts, k, fuel) is Ok,
        a.nodes.len() <= SENTINEL,
        st.street < 3,
        st.to_act < 2,
        k <= acts.len(),
    ensures
        tied_to(
            a,
            (tree::grow_kids(cx, a, st, acts, k, fuel)->Ok_0).0,
            (tree::grow_kids(cx, a, st, acts, k, fuel)->Ok_0).1,
        ),
    decreases fuel, 3nat, k,
{
    if k > 0 {
        lemma_kids_tied(cx, a, st, acts, (k - 1) as nat, fuel);
        let before = tree::grow_kids(cx, a, st, acts, (k - 1) as nat, fuel);
        if before is Ok {
            let (b, kids) = before->Ok_0;
            lemma_after_tied(cx, b, st, acts[k - 1], fuel);
            tree_laws::lemma_kids_sound(cx, a, st, acts, (k - 1) as nat, fuel);
            tree_laws::lemma_after_sound(cx, b, st, acts[k - 1], fuel);
            let c = (tree::grow_after(cx, b, st, acts[k - 1], fuel)->Ok_0).0;
            lemma_one_more_tied(a, b, c, kids);
        }
    } else {
        lemma_none_tied(a);
    }
}

proof fn lemma_after_tied<N: Num>(
    cx: Setting<N>,
    a: Arena<N>,
    st: BuildState<N>,
    act: Action<N>,
    fuel: nat,
)
    requires
        tree::grow_after(cx, a, st, act, fuel) is Ok,
        st.street < 3,
        st.to_act < 2,
    ensures
        tied(a, (tree::grow_after(cx, a, st, act, fuel)->Ok_0).0),
    decreases fuel, 2nat, 0nat,
{
    match act {
        Action::Fold => {
            lemma_leaf_tied(a, tree::fold_node(cx.config, st));
        },
        Action::Check => {
            if st.checked {
                lemma_street_end_tied(
                    cx,
                    a,
                    st.street,
                    st.put,
                    st.last_aggressor,
                    false,
                    fuel,
                );
            } else if fuel > 0 {
                lemma_action_tied(cx, a, tree::after_check(st), (fuel - 1) as nat);
            }
        },
        Action::Call(to) => {
            let put = tree::put_after(st, to);
            lemma_street_end_tied(
                cx,
                a,
                st.street,
                put,
                Some(tree::other(st.to_act) as u8),
                tree::all_in(cx.config, put),
                fuel,
            );
        },
        Action::Bet(to) => {
            if fuel > 0 {
                lemma_action_tied(cx, a, tree::after_bet(st, to, false), (fuel - 1) as nat);
            }
        },
        Action::Raise(to) => {
            if fuel > 0 {
                lemma_action_tied(cx, a, tree::after_bet(st, to, true), (fuel - 1) as nat);
            }
        },
    }
}

proof fn lemma_street_end_tied<N: Num>(
    cx: Setting<N>,
    a: Arena<N>,
    street: u8,
    put: [N; 2],
    aggressor: Option<u8>,
    allin: bool,
    fuel: nat,
)
    requires
        tree::grow_street_end(cx, a, street, put, aggressor, allin, fuel) is Ok,
        street < 3,
    ensures
        tied(a, (tree::grow_street_end(cx, a, street, put, aggressor, allin, fuel)->Ok_0).0),
    decreases fuel, 1nat, 0nat,
{
    if street >= 2 {
        lemma_leaf_tied(a, tree::showdown_node(cx.config, 2, put));
    } else if allin {
        lemma_runout_tied(cx, a, street, put);
    } else {
        let next = (street + 1) as u8;
        let node = tree::plain_node(KIND_CHANCE, 0, next, put);
        if !tree::spent(cx, a) && tree::placed(a, node) is Ok {
            let (b, i) = tree::placed(a, node)->Ok_0;
            let st = tree::street_start(next, put, aggressor);
            lemma_deals_tied(cx, b, st, 52, fuel);
            tree_laws::lemma_deals_sound(cx, b, st, 52, fuel);
            let (c, kids) = tree::grow_deals(cx, b, st, 52, fuel)->Ok_0;
            lemma_linked_tied(a, b, c, i, kids);
        }
    }
}

proof fn lemma_deals_tied<N: Num>(
    cx: Setting<N>,
    a: Arena<N>,
    st: BuildState<N>,
    k: nat,
    fuel: nat,
)
    requires
        tree::grow_deals(cx, a, st, k, fuel) is Ok,
        a.nodes.len() <= SENTINEL,
        st.street < 3,
        st.to_act < 2,
    ensures
        tied_to(
            a,
            (tree::grow_deals(cx, a, st, k, fuel)->Ok_0).0,
            (tree::grow_deals(cx, a, st, k, fuel)->Ok_0).1,
        ),
    decreases fuel, 0nat, k,
{
    if k > 0 {
        lemma_deals_tied(cx, a, st, (k - 1) as nat, fuel);
        let before = tree::grow_deals(cx, a, st, (k - 1) as nat, fuel);
        if before is Ok && !cards::in_mask(cx.board_mask, k - 1) && fuel > 0 {
            let (b, kids) = before->Ok_0;
            lemma_action_tied(cx, b, st, (fuel - 1) as nat);
            tree_laws::lemma_deals_sound(cx, a, st, (k - 1) as nat, fuel);
            tree_laws::lemma_action_sound(cx, b, st, (fuel - 1) as nat);
            let c = (tree::grow_action(cx, b, st, (fuel - 1) as nat)->Ok_0).0;
            lemma_one_more_tied(a, b, c, kids);
        } else {
            let (b, kids) = before->Ok_0;
            lemma_no_child_tied(a, b, kids);
        }
    } else {
        lemma_none_tied(a);
    }
}

proof fn lemma_runout_tied<N: Num>(cx: Setting<N>, a: Arena<N>, street: u8, put: [N; 2])
    requires
        tree::grow_runout(cx, a, street, put) is Ok,
        street < 2,
    ensures
        tied(a, (tree::grow_runout(cx, a, street, put)->Ok_0).0),
    decreases 2 - street, 100nat,
{
    let node = tree::plain_node(KIND_CHANCE, 0, (street + 1) as u8, put);
    if !tree::spent(cx, a) && tree::placed(a, node) is Ok {
        let (b, i) = tree::placed(a, node)->Ok_0;
        lemma_runout_deals_tied(cx, b, street, put, 52);
        tree_laws::lemma_runout_deals_sound(cx, b, street, put, 52);
        let (c, kids) = tree::grow_runout_deals(cx, b, street, put, 52)->Ok_0;
        lemma_linked_tied(a, b, c, i, kids);
    }
}

proof fn lemma_runout_deals_tied<N: Num>(
    cx: Setting<N>,
    a: Arena<N>,
    street: u8,
    put: [N; 2],
    k: nat,
)
    requires
        tree::grow_runout_deals(cx, a, street, put, k) is Ok,
        a.nodes.len() <= SENTINEL,
        street < 2,
        k <= 52,
    ensures
        tied_to(
            a,
            (tree::grow_runout_deals(cx, a, street, put, k)->Ok_0).0,
            (tree::grow_runout_deals(cx, a, street, put, k)->Ok_0).1,
        ),
    decreases 2 - street, k,
{
    if k > 0 {
        lemma_runout_deals_tied(cx, a, street, put, (k - 1) as nat);
        let before = tree::grow_runout_deals(cx, a, street, put, (k - 1) as nat);
        if before is Ok && !cards::in_mask(cx.board_mask, k - 1) {
            let (b, kids) = before->Ok_0;
            tree_laws::lemma_runout_deals_sound(cx, a, street, put, (k - 1) as nat);
            if street + 1 < 2 {
                lemma_runout_tied(cx, b, (street + 1) as u8, put);
                tree_laws::lemma_runout_sound(cx, b, (street + 1) as u8, put);
                let c = (tree::grow_runout(cx, b, (street + 1) as u8, put)->Ok_0).0;
                lemma_one_more_tied(a, b, c, kids);
            } else {
                let node = tree::showdown_node(cx.config, 2, put);
                lemma_leaf_tied(b, node);
                let c = (tree::placed(b, node)->Ok_0).0;
                lemma_one_more_tied(a, b, c, kids);
            }
        } else {
            let (b, kids) = before->Ok_0;
            lemma_no_child_tied(a, b, kids);
        }
    } else {
        lemma_none_tied(a);
    }
}

/// Whether node `j` is child `s` of node `n`.
pub open spec fn is_child<N>(t: Arena<N>, n: int, s: int, j: int) -> bool {
    &&& 0 <= n < t.nodes.len()
    &&& 0 <= s < t.nodes[n].num_children
    &&& tree_laws::slot(t, n, s) == j
}

/// Law: in a finished tree every node but the root is the child of exactly
/// one node, in exactly one place, and the root is nobody's.
pub proof fn law_one_parent<N: Num>(
    cfg: TreeConfig<N>,
    board: Seq<u8>,
    num_hands: [usize; 2],
    max_nodes: Option<usize>,
    strictness: Strictness,
    j: int,
)
    requires
        tree::built(cfg, board, num_hands, max_nodes, strictness) is Ok,
        0 <= j < (tree::built(cfg, board, num_hands, max_nodes, strictness)->Ok_0).0.nodes.len(),
    ensures
        ({
            let t = (tree::built(cfg, board, num_hands, max_nodes, strictness)->Ok_0).0;
            &&& j == 0 ==> forall|n: int, s: int| !is_child(t, n, s, j)
            &&& j > 0 ==> exists|n: int, s: int| is_child(t, n, s, j)
            &&& forall|n: int, s: int, m: int, r: int|
                is_child(t, n, s, j) && is_child(t, m, r, j) ==> n == m && s == r
        }),
{
    let half = cfg.starting_pot.over_spec(N::decimal_spec(2, 0));
    let root_street = (board.len() - 3) as u8;
    let t = (tree::built(cfg, board, num_hands, max_nodes, strictness)->Ok_0).0;
    let none = tree::bare::<N>();
    tree_laws::law_tree_is_sound(cfg, board, num_hands, max_nodes, strictness);
    lemma_action_tied(
        tree_laws::setting_of(cfg, board, num_hands, max_nodes),
        none,
        tree::street_start(root_street, [half, half], None),
        SENTINEL as nat,
    );
    let all = t.children;
    assert(made(none, t) =~= all);
    let x = j as u32;
    assert(named(made(none, t), x) == if 0 < j {
        1nat
    } else {
        0nat
    });
    all.to_multiset_ensures();
    assert forall|n: int, s: int| is_child(t, n, s, j) implies {
        let k = t.nodes[n].children_start + s;
        &&& owns(t, n, k)
        &&& 0 <= k < all.len()
        &&& all[k] == x
        &&& j > 0
    } by {
        let k = t.nodes[n].children_start + s;
        assert(owns(t, n, k));
        assert(all.contains(all[k]));
    }
    if j > 0 {
        assert(all.contains(x));
        let k = choose|k: int| 0 <= k < all.len() && all[k] == x;
        assert(owned(t, 0, t.nodes.len() as int, k));
        let n = choose|n: int| 0 <= n < t.nodes.len() && #[trigger] owns(t, n, k);
        assert(is_child(t, n, k - t.nodes[n].children_start, j));
    }
    assert forall|n: int, s: int, m: int, r: int|
        is_child(t, n, s, j) && is_child(t, m, r, j) implies n == m && s == r by {
        let k = t.nodes[n].children_start + s;
        let l = t.nodes[m].children_start + r;
        if k != l {
            lemma_named_twice(all, k, l);
        }
        assert(owns(t, n, k) && owns(t, m, k));
    }
}

proof fn lemma_named_twice(s: Seq<u32>, k: int, l: int)
    requires
        0 <= k < s.len(),
        0 <= l < s.len(),
        k != l,
        s[k] == s[l],
    ensures
        named(s, s[k]) >= 2,
{
    let (p, q) = if k < l {
        (k, l)
    } else {
        (l, k)
    };
    let a = s.take(q);
    let b = s.skip(q);
    assert(s =~= a + b);
    vstd::seq_lib::lemma_multiset_commutative(a, b);
    a.to_multiset_ensures();
    b.to_multiset_ensures();
    assert(a[p] == s[k] && b[0] == s[k]);
    assert(a.contains(s[k]) && b.contains(s[k]));
}

} // verus!
