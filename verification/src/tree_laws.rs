//! What holds of every tree the builder returns.

use crate::cards;
use crate::num::Num;
use crate::tree::{
    BetSize, StreetSizing, Action, Arena, BuildState, Node, Setting, Strictness, TreeConfig,
    KIND_ACTION, KIND_CHANCE, KIND_TERM_FOLD, KIND_TERM_SHOWDOWN, MAX_ACTIONS, MAX_HANDS,
    OOP, SENTINEL,
};
use crate::tree;
use vstd::prelude::*;

verus! {

/// `b` continues `a`: nothing that `a` holds has moved or changed.
pub open spec fn extends<N>(a: Arena<N>, b: Arena<N>) -> bool {
    &&& a.nodes.is_prefix_of(b.nodes)
    &&& a.children.is_prefix_of(b.children)
    &&& a.actions.is_prefix_of(b.actions)
}

/// What slot `s` of node `j` holds.
pub open spec fn slot<N>(a: Arena<N>, j: int, s: int) -> u32 {
    a.children[a.nodes[j].children_start + s]
}

/// The street that the cards dealt above a node make up.
pub open spec fn street_reached<N>(n: Node<N>) -> int {
    if n.kind == KIND_CHANCE {
        n.street - 1
    } else {
        n.street as int
    }
}

/// Child `c` of node `j` is a node behind `j`, on the street that `j` is on or
/// deals into.
pub open spec fn child_behind<N>(a: Arena<N>, j: int, c: u32) -> bool {
    j < c < a.nodes.len() && street_reached(a.nodes[c as int]) == a.nodes[j].street
}

/// Node `j` has the shape of its kind, and its children stand behind it.
pub open spec fn node_sound<N>(a: Arena<N>, mask: u64, j: int) -> bool {
    let n = a.nodes[j];
    &&& n.street < 3
    &&& n.player < 2
    &&& n.kind == KIND_ACTION ==> {
        &&& 1 <= n.num_children <= MAX_ACTIONS
        &&& n.actions_start + n.num_children <= a.actions.len()
        &&& n.children_start + n.num_children <= a.children.len()
        &&& forall|s: int|
            0 <= s < n.num_children ==> child_behind(a, j, #[trigger] slot(a, j, s))
    }
    &&& n.kind == KIND_CHANCE ==> {
        &&& n.num_children == 52
        &&& n.children_start + 52 <= a.children.len()
        &&& forall|s: int|
            #![trigger slot(a, j, s)]
            0 <= s < 52 ==> if cards::in_mask(mask, s) {
                slot(a, j, s) == SENTINEL
            } else {
                child_behind(a, j, slot(a, j, s))
            }
    }
    &&& n.kind == KIND_TERM_FOLD || n.kind == KIND_TERM_SHOWDOWN ==> n.num_children == 0
    &&& n.kind == KIND_CHANCE ==> n.street >= 1
    &&& n.kind == KIND_TERM_SHOWDOWN ==> n.street == 2
    &&& n.kind <= KIND_TERM_SHOWDOWN
}

/// All nodes from `from` on are sound.
pub open spec fn sound_from<N>(a: Arena<N>, mask: u64, from: int) -> bool {
    forall|j: int| from <= j < a.nodes.len() ==> #[trigger] node_sound(a, mask, j)
}

/// Nothing but the children of node `i` has changed, and only by adding them.
proof fn lemma_sound_extends<N>(a: Arena<N>, b: Arena<N>, mask: u64, from: int, to: int)
    requires
        extends(a, b),
        0 <= from,
        to <= a.nodes.len(),
        forall|j: int| from <= j < to ==> #[trigger] node_sound(a, mask, j),
    ensures
        forall|j: int| from <= j < to ==> #[trigger] node_sound(b, mask, j),
{
    assert forall|j: int| from <= j < to implies #[trigger] node_sound(b, mask, j) by {
        assert(node_sound(a, mask, j));
        assert(b.nodes[j] == a.nodes[j]);
        let n = a.nodes[j];
        assert forall|s: int| 0 <= s < n.num_children && n.children_start + n.num_children
            <= a.children.len() implies #[trigger] slot(b, j, s) == slot(a, j, s) by {}
        assert(forall|c: int| 0 <= c < a.nodes.len() ==> #[trigger] b.nodes[c] == a.nodes[c]);
    }
}

/// One more node keeps what was there.
pub(crate) proof fn lemma_placed<N: Num>(a: Arena<N>, node: Node<N>)
    requires
        tree::placed(a, node) is Ok,
    ensures
        ({
            let (b, i) = tree::placed(a, node)->Ok_0;
            &&& extends(a, b)
            &&& i == a.nodes.len()
            &&& b.nodes.len() == a.nodes.len() + 1 <= SENTINEL
            &&& b.nodes[i as int] == node
        }),
{
}

proof fn lemma_linked<N: Num>(a: Arena<N>, c: Arena<N>, i: u32, kids: Seq<u32>, mask: u64)
    requires
        a.nodes.len() == i,
        extends(a, c),
        c.nodes.len() > i,
        kids.len() <= 255,
        tree::linked(c, i, kids) is Ok,
        sound_from(c, mask, i + 1),
        c.nodes[i as int].street < 3,
        c.nodes[i as int].player < 2,
        c.nodes[i as int].kind == KIND_ACTION ==> {
            &&& 1 <= kids.len() <= MAX_ACTIONS
            &&& c.nodes[i as int].actions_start + kids.len() <= c.actions.len()
            &&& forall|s: int| 0 <= s < kids.len() ==> child_behind(c, i as int, #[trigger] kids[s])
        },
        c.nodes[i as int].kind == KIND_CHANCE ==> {
            &&& kids.len() == 52
            &&& forall|s: int| #![trigger kids[s]]
                0 <= s < 52 ==> if cards::in_mask(mask, s) {
                    kids[s] == SENTINEL
                } else {
                    child_behind(c, i as int, kids[s])
                }
        },
        c.nodes[i as int].kind == KIND_ACTION || c.nodes[i as int].kind == KIND_CHANCE,
        c.nodes[i as int].kind == KIND_CHANCE ==> c.nodes[i as int].street >= 1,
    ensures
        ({
            let (d, k) = tree::linked(c, i, kids)->Ok_0;
            &&& k == i
            &&& extends(a, d)
            &&& d.nodes.len() == c.nodes.len()
            &&& sound_from(d, mask, i as int)
            &&& d.nodes[i as int].kind == c.nodes[i as int].kind
            &&& d.nodes[i as int].street == c.nodes[i as int].street
        }),
{
    let (d, k) = tree::linked(c, i, kids)->Ok_0;
    assert(forall|m: int| i < m < c.nodes.len() ==> #[trigger] d.nodes[m] == c.nodes[m]);
    assert forall|j: int| i <= j < d.nodes.len() implies #[trigger] node_sound(d, mask, j) by {
        if j == i {
            assert forall|s: int| 0 <= s < kids.len() implies #[trigger] slot(d, j, s)
                == kids[s] by {}
        } else {
            assert(node_sound(c, mask, j));
            let n = c.nodes[j];
            assert forall|s: int| 0 <= s < n.num_children && n.children_start + n.num_children
                <= c.children.len() implies #[trigger] slot(d, j, s) == slot(c, j, s) by {}
        }
    }
}

pub(crate) proof fn lemma_action_sound<N: Num>(cx: Setting<N>, a: Arena<N>, st: BuildState<N>, fuel: nat)
    requires
        tree::grow_action(cx, a, st, fuel) is Ok,
        st.street < 3,
        st.to_act < 2,
    ensures
        ({
            let (b, i) = tree::grow_action(cx, a, st, fuel)->Ok_0;
            &&& extends(a, b)
            &&& i == a.nodes.len()
            &&& i < b.nodes.len() <= SENTINEL
            &&& sound_from(b, cx.board_mask, i as int)
            &&& b.nodes[i as int].kind == KIND_ACTION
            &&& b.nodes[i as int].player == st.to_act
            &&& b.nodes[i as int].street == st.street
        }),
    decreases fuel, 4nat, 0nat,
{
    let acts = tree::legal(cx.config, cx.root_street, st);
    let me = st.to_act as int;
    let node = Node {
        num_children: acts.len() as u8,
        actions_start: a.actions.len() as u32,
        data_offset: a.data_size[me],
        ..tree::plain_node(KIND_ACTION, st.to_act, st.street, st.put)
    };
    let opened = Arena {
        actions: a.actions + acts,
        data_size: tree::set_pair(
            a.data_size,
            st.to_act,
            (a.data_size[me] + acts.len() * cx.num_hands[me]) as u64,
        ),
        ..a
    };
    let (b, i) = tree::placed(opened, node)->Ok_0;
    lemma_placed(opened, node);
    lemma_kids_sound(cx, b, st, acts, acts.len(), fuel);
    let (c, kids) = tree::grow_kids(cx, b, st, acts, acts.len(), fuel)->Ok_0;
    assert(c.nodes[i as int] == node);
    assert forall|s: int| 0 <= s < kids.len() implies child_behind(c, i as int, #[trigger] kids[s]) by {
        assert(b.nodes.len() <= kids[s] < c.nodes.len());
        assert(street_reached(c.nodes[kids[s] as int]) == st.street);
    }
    assert(extends(a, c));
    lemma_linked(a, c, i, kids, cx.board_mask);
}

pub(crate) proof fn lemma_kids_sound<N: Num>(
    cx: Setting<N>,
    a: Arena<N>,
    st: BuildState<N>,
    acts: Seq<Action<N>>,
    k: nat,
    fuel: nat,
)
    requires
        tree::grow_kids(cx, a, st, acts, k, fuel) is Ok,
        st.street < 3,
        st.to_act < 2,
        k <= acts.len(),
        a.nodes.len() <= SENTINEL,
    ensures
        ({
            let (b, kids) = tree::grow_kids(cx, a, st, acts, k, fuel)->Ok_0;
            &&& extends(a, b)
            &&& kids.len() == k
            &&& b.nodes.len() <= SENTINEL
            &&& forall|s: int|
                0 <= s < k ==> a.nodes.len() <= #[trigger] kids[s] < b.nodes.len()
                    && street_reached(b.nodes[kids[s] as int]) == st.street
            &&& sound_from(b, cx.board_mask, a.nodes.len() as int)
        }),
    decreases fuel, 3nat, k,
{
    if k > 0 {
        lemma_kids_sound(cx, a, st, acts, (k - 1) as nat, fuel);
        let (b, kids) = tree::grow_kids(cx, a, st, acts, (k - 1) as nat, fuel)->Ok_0;
        lemma_after_sound(cx, b, st, acts[k - 1], fuel);
        let (c, i) = tree::grow_after(cx, b, st, acts[k - 1], fuel)->Ok_0;
        lemma_sound_extends(b, c, cx.board_mask, a.nodes.len() as int, b.nodes.len() as int);
        assert(forall|m: int| 0 <= m < b.nodes.len() ==> #[trigger] c.nodes[m] == b.nodes[m]);
    }
}

pub(crate) proof fn lemma_after_sound<N: Num>(
    cx: Setting<N>,
    a: Arena<N>,
    st: BuildState<N>,
    act: Action<N>,
    fuel: nat,
)
    requires
        tree::grow_after(cx, a, st, act, fuel) is Ok,
        st.street < 3,
        st.to_act < 2,
    ensures
        ({
            let (b, i) = tree::grow_after(cx, a, st, act, fuel)->Ok_0;
            &&& extends(a, b)
            &&& i == a.nodes.len()
            &&& i < b.nodes.len() <= SENTINEL
            &&& sound_from(b, cx.board_mask, i as int)
            &&& street_reached(b.nodes[i as int]) == st.street
        }),
    decreases fuel, 2nat, 0nat,
{
    match act {
        Action::Fold => {
            lemma_placed(a, tree::fold_node(cx.config, st));
        },
        Action::Check => {
            if st.checked {
                lemma_street_end_sound(cx, a, st.street, st.put, st.last_aggressor, false, fuel);
            } else {
                lemma_action_sound(cx, a, tree::after_check(st), (fuel - 1) as nat);
            }
        },
        Action::Call(to) => {
            let put = tree::put_after(st, to);
            lemma_street_end_sound(
                cx,
                a,
                st.street,
                put,
                Some(tree::other(st.to_act) as u8),
                tree::all_in(cx.config, put),
                fuel,
            );
        },
        Action::Bet(to) => {
            lemma_action_sound(cx, a, tree::after_bet(st, to, false), (fuel - 1) as nat);
        },
        Action::Raise(to) => {
            lemma_action_sound(cx, a, tree::after_bet(st, to, true), (fuel - 1) as nat);
        },
    }
}

pub(crate) proof fn lemma_street_end_sound<N: Num>(
    cx: Setting<N>,
    a: Arena<N>,
    street: u8,
    put: [N; 2],
    aggressor: Option<u8>,
    allin: bool,
    fuel: nat,
)
    requires
        tree::grow_street_end(cx, a, street, put, aggressor, allin, fuel) is Ok,
        street < 3,
    ensures
        ({
            let (b, i) = tree::grow_street_end(cx, a, street, put, aggressor, allin, fuel)->Ok_0;
            &&& extends(a, b)
            &&& i == a.nodes.len()
            &&& i < b.nodes.len() <= SENTINEL
            &&& sound_from(b, cx.board_mask, i as int)
            &&& street_reached(b.nodes[i as int]) == street
        }),
    decreases fuel, 1nat, 0nat,
{
    if street >= 2 {
        lemma_placed(a, tree::showdown_node(cx.config, 2, put));
    } else if allin {
        lemma_runout_sound(cx, a, street, put);
    } else {
        let next = (street + 1) as u8;
        let node = tree::plain_node(KIND_CHANCE, 0, next, put);
        lemma_placed(a, node);
        let (b, i) = tree::placed(a, node)->Ok_0;
        let st = tree::street_start(next, put, aggressor);
        lemma_deals_sound(cx, b, st, 52, fuel);
        let (c, kids) = tree::grow_deals(cx, b, st, 52, fuel)->Ok_0;
        assert(c.nodes[i as int] == node);
        lemma_linked(a, c, i, kids, cx.board_mask);
    }
}

pub(crate) proof fn lemma_deals_sound<N: Num>(
    cx: Setting<N>,
    a: Arena<N>,
    st: BuildState<N>,
    k: nat,
    fuel: nat,
)
    requires
        tree::grow_deals(cx, a, st, k, fuel) is Ok,
        st.street < 3,
        st.to_act < 2,
        a.nodes.len() <= SENTINEL,
    ensures
        ({
            let (b, kids) = tree::grow_deals(cx, a, st, k, fuel)->Ok_0;
            &&& extends(a, b)
            &&& kids.len() == k
            &&& b.nodes.len() <= SENTINEL
            &&& forall|s: int| #![trigger kids[s]]
                0 <= s < k ==> if cards::in_mask(cx.board_mask, s) {
                    kids[s] == SENTINEL
                } else {
                    a.nodes.len() <= kids[s] < b.nodes.len() && street_reached(
                        b.nodes[kids[s] as int],
                    ) == st.street
                }
            &&& sound_from(b, cx.board_mask, a.nodes.len() as int)
        }),
    decreases fuel, 0nat, k,
{
    if k > 0 {
        lemma_deals_sound(cx, a, st, (k - 1) as nat, fuel);
        let (b, kids) = tree::grow_deals(cx, a, st, (k - 1) as nat, fuel)->Ok_0;
        if !cards::in_mask(cx.board_mask, k - 1) {
            lemma_action_sound(cx, b, st, (fuel - 1) as nat);
            let (c, i) = tree::grow_action(cx, b, st, (fuel - 1) as nat)->Ok_0;
            lemma_sound_extends(b, c, cx.board_mask, a.nodes.len() as int, b.nodes.len() as int);
            assert(forall|m: int| 0 <= m < b.nodes.len() ==> #[trigger] c.nodes[m] == b.nodes[m]);
        }
    }
}

pub(crate) proof fn lemma_runout_sound<N: Num>(cx: Setting<N>, a: Arena<N>, street: u8, put: [N; 2])
    requires
        tree::grow_runout(cx, a, street, put) is Ok,
        street < 2,
    ensures
        ({
            let (b, i) = tree::grow_runout(cx, a, street, put)->Ok_0;
            &&& extends(a, b)
            &&& i == a.nodes.len()
            &&& i < b.nodes.len() <= SENTINEL
            &&& sound_from(b, cx.board_mask, i as int)
            &&& street_reached(b.nodes[i as int]) == street
        }),
    decreases 2 - street, 100nat,
{
    let next = (street + 1) as u8;
    let node = tree::plain_node(KIND_CHANCE, 0, next, put);
    lemma_placed(a, node);
    let (b, i) = tree::placed(a, node)->Ok_0;
    lemma_runout_deals_sound(cx, b, street, put, 52);
    let (c, kids) = tree::grow_runout_deals(cx, b, street, put, 52)->Ok_0;
    assert(c.nodes[i as int] == node);
    lemma_linked(a, c, i, kids, cx.board_mask);
}

pub(crate) proof fn lemma_runout_deals_sound<N: Num>(
    cx: Setting<N>,
    a: Arena<N>,
    street: u8,
    put: [N; 2],
    k: nat,
)
    requires
        tree::grow_runout_deals(cx, a, street, put, k) is Ok,
        street < 2,
        k <= 52,
        a.nodes.len() <= SENTINEL,
    ensures
        ({
            let (b, kids) = tree::grow_runout_deals(cx, a, street, put, k)->Ok_0;
            &&& extends(a, b)
            &&& kids.len() == k
            &&& b.nodes.len() <= SENTINEL
            &&& forall|s: int| #![trigger kids[s]]
                0 <= s < k ==> if cards::in_mask(cx.board_mask, s) {
                    kids[s] == SENTINEL
                } else {
                    a.nodes.len() <= kids[s] < b.nodes.len() && street_reached(
                        b.nodes[kids[s] as int],
                    ) == street + 1
                }
            &&& sound_from(b, cx.board_mask, a.nodes.len() as int)
        }),
    decreases 2 - street, k,
{
    if k > 0 {
        lemma_runout_deals_sound(cx, a, street, put, (k - 1) as nat);
        let (b, kids) = tree::grow_runout_deals(cx, a, street, put, (k - 1) as nat)->Ok_0;
        if !cards::in_mask(cx.board_mask, k - 1) {
            if street + 1 == 2 {
                let node = tree::showdown_node(cx.config, 2, put);
                lemma_placed(b, node);
                let (c, i) = tree::placed(b, node)->Ok_0;
                lemma_sound_extends(b, c, cx.board_mask, a.nodes.len() as int, b.nodes.len() as int);
                assert(forall|m: int|
                    0 <= m < b.nodes.len() ==> #[trigger] c.nodes[m] == b.nodes[m]);
            } else {
                lemma_runout_sound(cx, b, (street + 1) as u8, put);
                let (c, i) = tree::grow_runout(cx, b, (street + 1) as u8, put)->Ok_0;
                lemma_sound_extends(b, c, cx.board_mask, a.nodes.len() as int, b.nodes.len() as int);
                assert(forall|m: int|
                    0 <= m < b.nodes.len() ==> #[trigger] c.nodes[m] == b.nodes[m]);
            }
        }
    }
}

/// A finished tree is sound: its root is the first node and OOP's decision, every
/// child stands behind its parent, actions and children lie inside their
/// arenas, a chance node has a child for exactly the cards not on the board,
/// streets follow each other, and hands are shown down on the river.
pub proof fn law_tree_is_sound<N: Num>(
    cfg: TreeConfig<N>,
    board: Seq<u8>,
    num_hands: [usize; 2],
    max_nodes: Option<usize>,
    strictness: Strictness,
)
    requires
        tree::built(cfg, board, num_hands, max_nodes, strictness) is Ok,
    ensures
        ({
            let (t, root) = tree::built(cfg, board, num_hands, max_nodes, strictness)->Ok_0;
            &&& root == 0
            &&& 0 < t.nodes.len() <= SENTINEL
            &&& t.nodes[0].kind == KIND_ACTION
            &&& t.nodes[0].player == OOP
            &&& 3 <= board.len() <= 5 ==> t.nodes[0].street == board.len() - 3
            &&& sound_from(t, cards::mask_of(board), 0)
        }),
{
    let half = cfg.starting_pot.over_spec(N::decimal_spec(2, 0));
    let root_street = (board.len() - 3) as u8;
    let cx = Setting {
        config: cfg,
        root_street,
        board_mask: cards::mask_of(board),
        max_nodes,
        num_hands: [num_hands[0] as u64, num_hands[1] as u64],
    };
    lemma_action_sound(
        cx,
        tree::bare(),
        tree::street_start(root_street, [half, half], None),
        SENTINEL as nat,
    );
}

// ---------------------------------------------------------------------------
// Budget and sizing
// ---------------------------------------------------------------------------

/// Two settings under which the same tree of at most `limit` nodes grows: the
/// legal actions and the payoffs agree, and the second budget is the first one
/// or admits as much.
pub open spec fn agree<N: Num>(cx: Setting<N>, dx: Setting<N>, limit: nat) -> bool {
    &&& cx.root_street == dx.root_street
    &&& cx.board_mask == dx.board_mask
    &&& cx.num_hands == dx.num_hands
    &&& cx.config.starting_pot == dx.config.starting_pot
    &&& cx.config.effective_stack == dx.config.effective_stack
    &&& cx.config.rake_pct == dx.config.rake_pct
    &&& cx.config.rake_cap == dx.config.rake_cap
    &&& forall|st: BuildState<N>|
        st.street < 3 && st.to_act < 2 ==> #[trigger] tree::legal(cx.config, cx.root_street, st) == tree::legal(
            dx.config,
            dx.root_street,
            st,
        )
    &&& cx.max_nodes == dx.max_nodes || (dx.max_nodes matches Some(cap) ==> limit <= cap)
}

proof fn lemma_action_agrees<N: Num>(
    cx: Setting<N>,
    dx: Setting<N>,
    limit: nat,
    a: Arena<N>,
    st: BuildState<N>,
    fuel: nat,
)
    requires
        agree(cx, dx, limit),
        tree::grow_action(cx, a, st, fuel) is Ok,
        (tree::grow_action(cx, a, st, fuel)->Ok_0).0.nodes.len() <= limit,
        st.street < 3,
        st.to_act < 2,
    ensures
        tree::grow_action(dx, a, st, fuel) == tree::grow_action(cx, a, st, fuel),
    decreases fuel, 4nat, 0nat,
{
    lemma_action_sound(cx, a, st, fuel);
    let acts = tree::legal(cx.config, cx.root_street, st);
    let me = st.to_act as int;
    let node = Node {
        num_children: acts.len() as u8,
        actions_start: a.actions.len() as u32,
        data_offset: a.data_size[me],
        ..tree::plain_node(KIND_ACTION, st.to_act, st.street, st.put)
    };
    let opened = Arena {
        actions: a.actions + acts,
        data_size: tree::set_pair(
            a.data_size,
            st.to_act,
            (a.data_size[me] + acts.len() * cx.num_hands[me]) as u64,
        ),
        ..a
    };
    let (b, i) = tree::placed(opened, node)->Ok_0;
    lemma_kids_agree(cx, dx, limit, b, st, acts, acts.len(), fuel);
}

proof fn lemma_kids_agree<N: Num>(
    cx: Setting<N>,
    dx: Setting<N>,
    limit: nat,
    a: Arena<N>,
    st: BuildState<N>,
    acts: Seq<Action<N>>,
    k: nat,
    fuel: nat,
)
    requires
        agree(cx, dx, limit),
        tree::grow_kids(cx, a, st, acts, k, fuel) is Ok,
        (tree::grow_kids(cx, a, st, acts, k, fuel)->Ok_0).0.nodes.len() <= limit,
        st.street < 3,
        st.to_act < 2,
        k <= acts.len(),
        a.nodes.len() <= SENTINEL,
    ensures
        tree::grow_kids(dx, a, st, acts, k, fuel) == tree::grow_kids(cx, a, st, acts, k, fuel),
    decreases fuel, 3nat, k,
{
    if k > 0 {
        lemma_kids_sound(cx, a, st, acts, (k - 1) as nat, fuel);
        let (b, kids) = tree::grow_kids(cx, a, st, acts, (k - 1) as nat, fuel)->Ok_0;
        lemma_after_sound(cx, b, st, acts[k - 1], fuel);
        lemma_kids_agree(cx, dx, limit, a, st, acts, (k - 1) as nat, fuel);
        lemma_after_agrees(cx, dx, limit, b, st, acts[k - 1], fuel);
    }
}

proof fn lemma_after_agrees<N: Num>(
    cx: Setting<N>,
    dx: Setting<N>,
    limit: nat,
    a: Arena<N>,
    st: BuildState<N>,
    act: Action<N>,
    fuel: nat,
)
    requires
        agree(cx, dx, limit),
        tree::grow_after(cx, a, st, act, fuel) is Ok,
        (tree::grow_after(cx, a, st, act, fuel)->Ok_0).0.nodes.len() <= limit,
        st.street < 3,
        st.to_act < 2,
    ensures
        tree::grow_after(dx, a, st, act, fuel) == tree::grow_after(cx, a, st, act, fuel),
    decreases fuel, 2nat, 0nat,
{
    match act {
        Action::Fold => {},
        Action::Check => {
            if st.checked {
                lemma_street_end_agrees(
                    cx,
                    dx,
                    limit,
                    a,
                    st.street,
                    st.put,
                    st.last_aggressor,
                    false,
                    fuel,
                );
            } else {
                lemma_action_agrees(cx, dx, limit, a, tree::after_check(st), (fuel - 1) as nat);
            }
        },
        Action::Call(to) => {
            let put = tree::put_after(st, to);
            lemma_street_end_agrees(
                cx,
                dx,
                limit,
                a,
                st.street,
                put,
                Some(tree::other(st.to_act) as u8),
                tree::all_in(cx.config, put),
                fuel,
            );
        },
        Action::Bet(to) => {
            lemma_action_agrees(cx, dx, limit, a, tree::after_bet(st, to, false), (fuel - 1) as nat);
        },
        Action::Raise(to) => {
            lemma_action_agrees(cx, dx, limit, a, tree::after_bet(st, to, true), (fuel - 1) as nat);
        },
    }
}

proof fn lemma_street_end_agrees<N: Num>(
    cx: Setting<N>,
    dx: Setting<N>,
    limit: nat,
    a: Arena<N>,
    street: u8,
    put: [N; 2],
    aggressor: Option<u8>,
    allin: bool,
    fuel: nat,
)
    requires
        agree(cx, dx, limit),
        tree::grow_street_end(cx, a, street, put, aggressor, allin, fuel) is Ok,
        (tree::grow_street_end(cx, a, street, put, aggressor, allin, fuel)->Ok_0).0.nodes.len() <= limit,
        street < 3,
    ensures
        tree::grow_street_end(dx, a, street, put, aggressor, allin, fuel) == tree::grow_street_end(
            cx,
            a,
            street,
            put,
            aggressor,
            allin,
            fuel,
        ),
    decreases fuel, 1nat, 0nat,
{
    lemma_street_end_sound(cx, a, street, put, aggressor, allin, fuel);
    if street >= 2 {
    } else if allin {
        lemma_runout_agrees(cx, dx, limit, a, street, put);
    } else {
        let next = (street + 1) as u8;
        let (b, i) = tree::placed(a, tree::plain_node(KIND_CHANCE, 0, next, put))->Ok_0;
        lemma_deals_agree(cx, dx, limit, b, tree::street_start(next, put, aggressor), 52, fuel);
    }
}

proof fn lemma_deals_agree<N: Num>(
    cx: Setting<N>,
    dx: Setting<N>,
    limit: nat,
    a: Arena<N>,
    st: BuildState<N>,
    k: nat,
    fuel: nat,
)
    requires
        agree(cx, dx, limit),
        tree::grow_deals(cx, a, st, k, fuel) is Ok,
        (tree::grow_deals(cx, a, st, k, fuel)->Ok_0).0.nodes.len() <= limit,
        st.street < 3,
        st.to_act < 2,
        a.nodes.len() <= SENTINEL,
    ensures
        tree::grow_deals(dx, a, st, k, fuel) == tree::grow_deals(cx, a, st, k, fuel),
    decreases fuel, 0nat, k,
{
    if k > 0 {
        lemma_deals_sound(cx, a, st, (k - 1) as nat, fuel);
        let (b, kids) = tree::grow_deals(cx, a, st, (k - 1) as nat, fuel)->Ok_0;
        if !cards::in_mask(cx.board_mask, k - 1) {
            lemma_action_sound(cx, b, st, (fuel - 1) as nat);
            lemma_action_agrees(cx, dx, limit, b, st, (fuel - 1) as nat);
        }
        lemma_deals_agree(cx, dx, limit, a, st, (k - 1) as nat, fuel);
    }
}

proof fn lemma_runout_agrees<N: Num>(
    cx: Setting<N>,
    dx: Setting<N>,
    limit: nat,
    a: Arena<N>,
    street: u8,
    put: [N; 2],
)
    requires
        agree(cx, dx, limit),
        tree::grow_runout(cx, a, street, put) is Ok,
        (tree::grow_runout(cx, a, street, put)->Ok_0).0.nodes.len() <= limit,
        street < 2,
    ensures
        tree::grow_runout(dx, a, street, put) == tree::grow_runout(cx, a, street, put),
    decreases 2 - street, 100nat,
{
    lemma_runout_sound(cx, a, street, put);
    let (b, i) = tree::placed(a, tree::plain_node(KIND_CHANCE, 0, (street + 1) as u8, put))->Ok_0;
    lemma_runout_deals_agree(cx, dx, limit, b, street, put, 52);
}

proof fn lemma_runout_deals_agree<N: Num>(
    cx: Setting<N>,
    dx: Setting<N>,
    limit: nat,
    a: Arena<N>,
    street: u8,
    put: [N; 2],
    k: nat,
)
    requires
        agree(cx, dx, limit),
        tree::grow_runout_deals(cx, a, street, put, k) is Ok,
        (tree::grow_runout_deals(cx, a, street, put, k)->Ok_0).0.nodes.len() <= limit,
        street < 2,
        k <= 52,
        a.nodes.len() <= SENTINEL,
    ensures
        tree::grow_runout_deals(dx, a, street, put, k) == tree::grow_runout_deals(cx, a, street, put, k),
    decreases 2 - street, k,
{
    if k > 0 {
        lemma_runout_deals_sound(cx, a, street, put, (k - 1) as nat);
        let (b, kids) = tree::grow_runout_deals(cx, a, street, put, (k - 1) as nat)->Ok_0;
        if !cards::in_mask(cx.board_mask, k - 1) {
            if street + 1 == 2 {
                lemma_placed(b, tree::showdown_node(cx.config, 2, put));
            } else {
                lemma_runout_sound(cx, b, (street + 1) as u8, put);
                lemma_runout_agrees(cx, dx, limit, b, (street + 1) as u8, put);
            }
        }
        lemma_runout_deals_agree(cx, dx, limit, a, street, put, (k - 1) as nat);
    }
}

pub open spec fn setting_of<N: Num>(
    cfg: TreeConfig<N>,
    board: Seq<u8>,
    num_hands: [usize; 2],
    max_nodes: Option<usize>,
) -> Setting<N> {
    Setting {
        config: cfg,
        root_street: (board.len() - 3) as u8,
        board_mask: cards::mask_of(board),
        max_nodes,
        num_hands: [num_hands[0] as u64, num_hands[1] as u64],
    }
}

/// A node budget that the tree fits under does not change the tree.
pub proof fn law_budget_admits<N: Num>(
    cfg: TreeConfig<N>,
    board: Seq<u8>,
    num_hands: [usize; 2],
    strictness: Strictness,
    cap: usize,
)
    requires
        tree::built(cfg, board, num_hands, None, strictness) is Ok,
        (tree::built(cfg, board, num_hands, None, strictness)->Ok_0).0.nodes.len() <= cap,
    ensures
        tree::built(cfg, board, num_hands, Some(cap), strictness) == tree::built(
            cfg,
            board,
            num_hands,
            None,
            strictness,
        ),
{
    let half = cfg.starting_pot.over_spec(N::decimal_spec(2, 0));
    let root_street = (board.len() - 3) as u8;
    lemma_action_agrees(
        setting_of(cfg, board, num_hands, None),
        setting_of(cfg, board, num_hands, Some(cap)),
        cap as nat,
        tree::bare(),
        tree::street_start(root_street, [half, half], None),
        SENTINEL as nat,
    );
}

/// A node budget only ever refuses: a tree built under one is the tree built
/// without it.
pub proof fn law_budget_only_refuses<N: Num>(
    cfg: TreeConfig<N>,
    board: Seq<u8>,
    num_hands: [usize; 2],
    strictness: Strictness,
    cap: usize,
)
    requires
        tree::built(cfg, board, num_hands, Some(cap), strictness) is Ok,
    ensures
        tree::built(cfg, board, num_hands, None, strictness) == tree::built(
            cfg,
            board,
            num_hands,
            Some(cap),
            strictness,
        ),
{
    let half = cfg.starting_pot.over_spec(N::decimal_spec(2, 0));
    let root_street = (board.len() - 3) as u8;
    law_tree_is_sound(cfg, board, num_hands, Some(cap), strictness);
    lemma_action_agrees(
        setting_of(cfg, board, num_hands, Some(cap)),
        setting_of(cfg, board, num_hands, None),
        SENTINEL as nat,
        tree::bare(),
        tree::street_start(root_street, [half, half], None),
        SENTINEL as nat,
    );
}

/// A strict build either reports a raise-only size or returns what the
/// lenient build returns.
pub proof fn law_strict_only_refuses<N: Num>(
    cfg: TreeConfig<N>,
    board: Seq<u8>,
    num_hands: [usize; 2],
    max_nodes: Option<usize>,
)
    ensures
        ({
            let strict = tree::built(cfg, board, num_hands, max_nodes, Strictness::Strict);
            ||| strict == tree::built(cfg, board, num_hands, max_nodes, Strictness::LenientLoad)
            ||| strict is Err && strict->Err_0 is RaiseOnly
        }),
{
    let root_street = (board.len() - 3) as u8;
    lemma_offence_kind(cfg, root_street, 0);
}

proof fn lemma_offence_kind<N: Num>(cfg: TreeConfig<N>, root_street: u8, k: int)
    ensures
        tree::first_offence(cfg, root_street, k) matches Some(e) ==> e is RaiseOnly,
    decreases 12 - k,
{
    if k < 12 {
        lemma_offence_kind(cfg, root_street, k + 1);
    }
}

/// A list without its raise-only sizes.
pub open spec fn without_mults<N>(sizes: Seq<BetSize<N>>) -> Seq<BetSize<N>>
    decreases sizes.len(),
{
    if sizes.len() == 0 {
        sizes
    } else if sizes.last() is PrevMult {
        without_mults(sizes.drop_last())
    } else {
        without_mults(sizes.drop_last()).push(sizes.last())
    }
}

/// `dropped` is `s` without the raise-only sizes of its bet and donk lists.
/// Where all-ins are always offered, a donk list must not become empty by it.
pub open spec fn sizing_dropped<N>(
    s: StreetSizing<N>,
    dropped: StreetSizing<N>,
    add_allin: bool,
) -> bool {
    &&& dropped.bet@ == without_mults(s.bet@)
    &&& dropped.raise@ == s.raise@
    &&& dropped.donk@ == without_mults(s.donk@)
    &&& add_allin && s.donk@.len() > 0 ==> dropped.donk@.len() > 0
}

/// `dropped` is `cfg` without the raise-only sizes of its bet and donk lists.
pub open spec fn config_dropped<N>(cfg: TreeConfig<N>, dropped: TreeConfig<N>) -> bool {
    &&& cfg.starting_pot == dropped.starting_pot
    &&& cfg.effective_stack == dropped.effective_stack
    &&& cfg.rake_pct == dropped.rake_pct
    &&& cfg.rake_cap == dropped.rake_cap
    &&& cfg.allin_threshold == dropped.allin_threshold
    &&& cfg.add_allin == dropped.add_allin
    &&& cfg.max_raises == dropped.max_raises
    &&& forall|s: int|
        0 <= s < 3 ==> sizing_dropped(#[trigger] cfg.oop[s], dropped.oop[s], cfg.add_allin)
    &&& forall|s: int|
        0 <= s < 3 ==> sizing_dropped(#[trigger] cfg.ip[s], dropped.ip[s], cfg.add_allin)
}

proof fn lemma_candidates_ignore_mults<N: Num>(sizes: Seq<BetSize<N>>, pot: N, max_to: N)
    ensures
        tree::bet_candidates(without_mults(sizes), pot, max_to) == tree::bet_candidates(sizes, pot, max_to),
    decreases sizes.len(),
{
    if sizes.len() > 0 {
        lemma_candidates_ignore_mults(sizes.drop_last(), pot, max_to);
        if !(sizes.last() is PrevMult) {
            let w = without_mults(sizes.drop_last()).push(sizes.last());
            assert(w.drop_last() =~= without_mults(sizes.drop_last()));
        }
    }
}

pub(crate) proof fn lemma_dropped_legal<N: Num>(
    cfg: TreeConfig<N>,
    dropped: TreeConfig<N>,
    root_street: u8,
    st: BuildState<N>,
)
    requires
        config_dropped(cfg, dropped),
        st.street < 3,
        st.to_act < 2,
    ensures
        tree::legal(dropped, root_street, st) == tree::legal(cfg, root_street, st),
{
    let max_to = tree::behind(cfg, st.put[st.to_act as int]);
    let pot = st.put[0].plus_spec(st.put[1]);
    let sizes = tree::bet_list(cfg, root_street, st);
    let street = st.street as int;
    assert(sizing_dropped(cfg.oop[street], dropped.oop[street], cfg.add_allin));
    assert(sizing_dropped(cfg.ip[street], dropped.ip[street], cfg.add_allin));
    lemma_candidates_ignore_mults(sizes, pot, max_to);
    assert(tree::bet_list(dropped, root_street, st) == without_mults(sizes));
    lemma_without_empty(sizes);
    assert(tree::bets(dropped, root_street, st) == tree::bets(cfg, root_street, st));
}

proof fn lemma_without_empty<N>(sizes: Seq<BetSize<N>>)
    ensures
        without_mults(sizes).len() <= sizes.len(),
    decreases sizes.len(),
{
    if sizes.len() > 0 {
        lemma_without_empty(sizes.drop_last());
    }
}

// ---------------------------------------------------------------------------
// Arena blocks
// ---------------------------------------------------------------------------

/// How many arena elements a node takes of player `p`'s arena.
pub open spec fn block<N>(n: Node<N>, p: int, hands: int) -> int {
    if n.kind == KIND_ACTION && n.player == p {
        n.num_children * hands
    } else {
        0
    }
}

/// How many arena elements the given nodes take of player `p`'s arena.
pub open spec fn blocks<N>(nodes: Seq<Node<N>>, p: int, hands: int) -> int
    decreases nodes.len(),
{
    if nodes.len() == 0 {
        0
    } else {
        blocks(nodes.drop_last(), p, hands) + block(nodes.last(), p, hands)
    }
}

/// The blocks of a player's decisions lie one behind the other in the order
/// of the nodes, from offset 0 to the player's data size.
pub open spec fn measured<N>(a: Arena<N>, num_hands: [u64; 2]) -> bool {
    &&& a.data_size[0] == blocks(a.nodes, 0, num_hands[0] as int)
    &&& a.data_size[1] == blocks(a.nodes, 1, num_hands[1] as int)
    &&& forall|j: int|
        0 <= j < a.nodes.len() && (#[trigger] a.nodes[j]).kind == KIND_ACTION ==> a.nodes[j].player
            < 2 && a.nodes[j].data_offset == blocks(
            a.nodes.take(j),
            a.nodes[j].player as int,
            num_hands[a.nodes[j].player as int] as int,
        )
}

proof fn lemma_blocks_same<N>(s: Seq<Node<N>>, t: Seq<Node<N>>, p: int, hands: int)
    requires
        s.len() == t.len(),
        forall|j: int|
            0 <= j < s.len() ==> block(#[trigger] s[j], p, hands) == block(t[j], p, hands),
    ensures
        blocks(s, p, hands) == blocks(t, p, hands),
    decreases s.len(),
{
    if s.len() > 0 {
        assert forall|j: int| 0 <= j < s.len() - 1 implies block(
            #[trigger] s.drop_last()[j],
            p,
            hands,
        ) == block(t.drop_last()[j], p, hands) by {
            assert(block(s[j], p, hands) == block(t[j], p, hands));
        }
        lemma_blocks_same(s.drop_last(), t.drop_last(), p, hands);
        assert(block(s[s.len() - 1], p, hands) == block(t[s.len() - 1], p, hands));
    }
}

proof fn lemma_blocks_bound<N>(s: Seq<Node<N>>, p: int, hands: int)
    requires
        0 <= hands <= MAX_HANDS,
    ensures
        0 <= blocks(s, p, hands) <= s.len() * 0xff00_0000,
    decreases s.len(),
{
    if s.len() > 0 {
        lemma_blocks_bound(s.drop_last(), p, hands);
        let k = s.last().num_children;
        assert(0 <= k * hands <= 0xff00_0000) by (nonlinear_arith)
            requires
                0 <= k <= 255,
                0 <= hands <= 0x100_0000,
        ;
        assert(s.len() * 0xff00_0000 == (s.len() - 1) * 0xff00_0000 + 0xff00_0000);
    }
}

/// A node that is no decision takes nothing.
proof fn lemma_placed_measured<N: Num>(a: Arena<N>, node: Node<N>, num_hands: [u64; 2])
    requires
        measured(a, num_hands),
        node.kind != KIND_ACTION,
        tree::placed(a, node) is Ok,
    ensures
        measured((tree::placed(a, node)->Ok_0).0, num_hands),
{
    let (b, i) = tree::placed(a, node)->Ok_0;
    assert(b.nodes.drop_last() =~= a.nodes);
    assert forall|j: int| 0 <= j < a.nodes.len() implies #[trigger] b.nodes.take(j)
        =~= a.nodes.take(j) by {}
}

/// Children change no block.
proof fn lemma_linked_measured<N: Num>(c: Arena<N>, i: u32, kids: Seq<u32>, num_hands: [u64; 2])
    requires
        measured(c, num_hands),
        i < c.nodes.len(),
        kids.len() <= 255,
        c.nodes[i as int].kind == KIND_ACTION ==> c.nodes[i as int].num_children == kids.len(),
        tree::linked(c, i, kids) is Ok,
    ensures
        measured((tree::linked(c, i, kids)->Ok_0).0, num_hands),
{
    let (d, k) = tree::linked(c, i, kids)->Ok_0;
    assert forall|j: int, p: int, h: int| 0 <= j < c.nodes.len() implies block(
        #[trigger] d.nodes[j],
        p,
        h,
    ) == #[trigger] block(c.nodes[j], p, h) by {}
    lemma_blocks_same(d.nodes, c.nodes, 0, num_hands[0] as int);
    lemma_blocks_same(d.nodes, c.nodes, 1, num_hands[1] as int);
    assert forall|j: int|
        0 <= j < d.nodes.len() && (#[trigger] d.nodes[j]).kind == KIND_ACTION implies d.nodes[j].player
        < 2 && d.nodes[j].data_offset == blocks(
        d.nodes.take(j),
        d.nodes[j].player as int,
        num_hands[d.nodes[j].player as int] as int,
    ) by {
        let p = c.nodes[j].player as int;
        let h = num_hands[p] as int;
        assert(c.nodes[j].kind == KIND_ACTION);
        assert forall|m: int| 0 <= m < j implies block(#[trigger] d.nodes.take(j)[m], p, h)
            == block(c.nodes.take(j)[m], p, h) by {
            assert(block(d.nodes[m], p, h) == block(c.nodes[m], p, h));
        }
        lemma_blocks_same(d.nodes.take(j), c.nodes.take(j), p, h);
    }
}

proof fn lemma_action_measured<N: Num>(cx: Setting<N>, a: Arena<N>, st: BuildState<N>, fuel: nat)
    requires
        measured(a, cx.num_hands),
        cx.num_hands[0] <= MAX_HANDS,
        cx.num_hands[1] <= MAX_HANDS,
        tree::grow_action(cx, a, st, fuel) is Ok,
        st.street < 3,
        st.to_act < 2,
    ensures
        measured((tree::grow_action(cx, a, st, fuel)->Ok_0).0, cx.num_hands),
    decreases fuel, 4nat, 0nat,
{
    let acts = tree::legal(cx.config, cx.root_street, st);
    let me = st.to_act as int;
    let node = Node {
        num_children: acts.len() as u8,
        actions_start: a.actions.len() as u32,
        data_offset: a.data_size[me],
        ..tree::plain_node(KIND_ACTION, st.to_act, st.street, st.put)
    };
    let opened = Arena {
        actions: a.actions + acts,
        data_size: tree::set_pair(
            a.data_size,
            st.to_act,
            (a.data_size[me] + acts.len() * cx.num_hands[me]) as u64,
        ),
        ..a
    };
    let (b, i) = tree::placed(opened, node)->Ok_0;
    lemma_placed(opened, node);
    let n = acts.len();
    let h = cx.num_hands[me];
    assert(0 <= n * h <= 0xff00_0000) by (nonlinear_arith)
        requires
            0 <= n <= 255,
            0 <= h <= 0x100_0000,
    ;
    lemma_blocks_bound(a.nodes, me, h as int);
    assert(b.data_size[me] == a.data_size[me] + n * h);
    assert(b.nodes.drop_last() =~= a.nodes);
    assert forall|j: int| 0 <= j <= a.nodes.len() implies #[trigger] b.nodes.take(j)
        =~= a.nodes.take(j) by {}
    assert(a.nodes.take(a.nodes.len() as int) =~= a.nodes);
    assert(measured(b, cx.num_hands));
    lemma_kids_measured(cx, b, st, acts, acts.len(), fuel);
    lemma_kids_sound(cx, b, st, acts, acts.len(), fuel);
    let (c, kids) = tree::grow_kids(cx, b, st, acts, acts.len(), fuel)->Ok_0;
    assert(c.nodes[i as int] == node);
    lemma_linked_measured(c, i, kids, cx.num_hands);
}

proof fn lemma_kids_measured<N: Num>(
    cx: Setting<N>,
    a: Arena<N>,
    st: BuildState<N>,
    acts: Seq<Action<N>>,
    k: nat,
    fuel: nat,
)
    requires
        measured(a, cx.num_hands),
        cx.num_hands[0] <= MAX_HANDS,
        cx.num_hands[1] <= MAX_HANDS,
        tree::grow_kids(cx, a, st, acts, k, fuel) is Ok,
        st.street < 3,
        st.to_act < 2,
        k <= acts.len(),
    ensures
        measured((tree::grow_kids(cx, a, st, acts, k, fuel)->Ok_0).0, cx.num_hands),
    decreases fuel, 3nat, k,
{
    if k > 0 {
        lemma_kids_measured(cx, a, st, acts, (k - 1) as nat, fuel);
        let (b, kids) = tree::grow_kids(cx, a, st, acts, (k - 1) as nat, fuel)->Ok_0;
        lemma_after_measured(cx, b, st, acts[k - 1], fuel);
    }
}

proof fn lemma_after_measured<N: Num>(
    cx: Setting<N>,
    a: Arena<N>,
    st: BuildState<N>,
    act: Action<N>,
    fuel: nat,
)
    requires
        measured(a, cx.num_hands),
        cx.num_hands[0] <= MAX_HANDS,
        cx.num_hands[1] <= MAX_HANDS,
        tree::grow_after(cx, a, st, act, fuel) is Ok,
        st.street < 3,
        st.to_act < 2,
    ensures
        measured((tree::grow_after(cx, a, st, act, fuel)->Ok_0).0, cx.num_hands),
    decreases fuel, 2nat, 0nat,
{
    match act {
        Action::Fold => {
            lemma_placed_measured(a, tree::fold_node(cx.config, st), cx.num_hands);
        },
        Action::Check => {
            if st.checked {
                lemma_street_end_measured(cx, a, st.street, st.put, st.last_aggressor, false, fuel);
            } else {
                lemma_action_measured(cx, a, tree::after_check(st), (fuel - 1) as nat);
            }
        },
        Action::Call(to) => {
            let put = tree::put_after(st, to);
            lemma_street_end_measured(
                cx,
                a,
                st.street,
                put,
                Some(tree::other(st.to_act) as u8),
                tree::all_in(cx.config, put),
                fuel,
            );
        },
        Action::Bet(to) => {
            lemma_action_measured(cx, a, tree::after_bet(st, to, false), (fuel - 1) as nat);
        },
        Action::Raise(to) => {
            lemma_action_measured(cx, a, tree::after_bet(st, to, true), (fuel - 1) as nat);
        },
    }
}

proof fn lemma_street_end_measured<N: Num>(
    cx: Setting<N>,
    a: Arena<N>,
    street: u8,
    put: [N; 2],
    aggressor: Option<u8>,
    allin: bool,
    fuel: nat,
)
    requires
        measured(a, cx.num_hands),
        cx.num_hands[0] <= MAX_HANDS,
        cx.num_hands[1] <= MAX_HANDS,
        tree::grow_street_end(cx, a, street, put, aggressor, allin, fuel) is Ok,
        street < 3,
    ensures
        measured(
            (tree::grow_street_end(cx, a, street, put, aggressor, allin, fuel)->Ok_0).0,
            cx.num_hands,
        ),
    decreases fuel, 1nat, 0nat,
{
    if street >= 2 {
        lemma_placed_measured(a, tree::showdown_node(cx.config, 2, put), cx.num_hands);
    } else if allin {
        lemma_runout_measured(cx, a, street, put);
    } else {
        let next = (street + 1) as u8;
        let node = tree::plain_node(KIND_CHANCE, 0, next, put);
        lemma_placed(a, node);
        lemma_placed_measured(a, node, cx.num_hands);
        let (b, i) = tree::placed(a, node)->Ok_0;
        let st = tree::street_start(next, put, aggressor);
        lemma_deals_measured(cx, b, st, 52, fuel);
        lemma_deals_sound(cx, b, st, 52, fuel);
        let (c, kids) = tree::grow_deals(cx, b, st, 52, fuel)->Ok_0;
        assert(c.nodes[i as int] == node);
        lemma_linked_measured(c, i, kids, cx.num_hands);
    }
}

proof fn lemma_deals_measured<N: Num>(
    cx: Setting<N>,
    a: Arena<N>,
    st: BuildState<N>,
    k: nat,
    fuel: nat,
)
    requires
        measured(a, cx.num_hands),
        cx.num_hands[0] <= MAX_HANDS,
        cx.num_hands[1] <= MAX_HANDS,
        tree::grow_deals(cx, a, st, k, fuel) is Ok,
        st.street < 3,
        st.to_act < 2,
    ensures
        measured((tree::grow_deals(cx, a, st, k, fuel)->Ok_0).0, cx.num_hands),
    decreases fuel, 0nat, k,
{
    if k > 0 {
        lemma_deals_measured(cx, a, st, (k - 1) as nat, fuel);
        let (b, kids) = tree::grow_deals(cx, a, st, (k - 1) as nat, fuel)->Ok_0;
        if !cards::in_mask(cx.board_mask, k - 1) {
            lemma_action_measured(cx, b, st, (fuel - 1) as nat);
        }
    }
}

proof fn lemma_runout_measured<N: Num>(cx: Setting<N>, a: Arena<N>, street: u8, put: [N; 2])
    requires
        measured(a, cx.num_hands),
        tree::grow_runout(cx, a, street, put) is Ok,
        street < 2,
    ensures
        measured((tree::grow_runout(cx, a, street, put)->Ok_0).0, cx.num_hands),
    decreases 2 - street, 100nat,
{
    let node = tree::plain_node(KIND_CHANCE, 0, (street + 1) as u8, put);
    lemma_placed(a, node);
    lemma_placed_measured(a, node, cx.num_hands);
    let (b, i) = tree::placed(a, node)->Ok_0;
    lemma_runout_deals_measured(cx, b, street, put, 52);
    lemma_runout_deals_sound(cx, b, street, put, 52);
    let (c, kids) = tree::grow_runout_deals(cx, b, street, put, 52)->Ok_0;
    assert(c.nodes[i as int] == node);
    lemma_linked_measured(c, i, kids, cx.num_hands);
}

proof fn lemma_runout_deals_measured<N: Num>(
    cx: Setting<N>,
    a: Arena<N>,
    street: u8,
    put: [N; 2],
    k: nat,
)
    requires
        measured(a, cx.num_hands),
        tree::grow_runout_deals(cx, a, street, put, k) is Ok,
        street < 2,
        k <= 52,
    ensures
        measured((tree::grow_runout_deals(cx, a, street, put, k)->Ok_0).0, cx.num_hands),
    decreases 2 - street, k,
{
    if k > 0 {
        lemma_runout_deals_measured(cx, a, street, put, (k - 1) as nat);
        let (b, kids) = tree::grow_runout_deals(cx, a, street, put, (k - 1) as nat)->Ok_0;
        if !cards::in_mask(cx.board_mask, k - 1) {
            if street + 1 == 2 {
                lemma_placed_measured(b, tree::showdown_node(cx.config, 2, put), cx.num_hands);
            } else {
                lemma_runout_measured(cx, b, (street + 1) as u8, put);
            }
        }
    }
}

/// Each player's decisions own consecutive, disjoint blocks of the player's
/// arena, in the order of the nodes, and the data size is their total: no two
/// nodes share an element.
pub proof fn law_arena_blocks<N: Num>(
    cfg: TreeConfig<N>,
    board: Seq<u8>,
    num_hands: [usize; 2],
    max_nodes: Option<usize>,
    strictness: Strictness,
)
    requires
        num_hands[0] <= MAX_HANDS,
        num_hands[1] <= MAX_HANDS,
        tree::built(cfg, board, num_hands, max_nodes, strictness) is Ok,
    ensures
        measured(
            (tree::built(cfg, board, num_hands, max_nodes, strictness)->Ok_0).0,
            [num_hands[0] as u64, num_hands[1] as u64],
        ),
{
    let half = cfg.starting_pot.over_spec(N::decimal_spec(2, 0));
    let root_street = (board.len() - 3) as u8;
    lemma_action_measured(
        setting_of(cfg, board, num_hands, max_nodes),
        tree::bare(),
        tree::street_start(root_street, [half, half], None),
        SENTINEL as nat,
    );
}

/// A decision's block lies inside the player's arena.
pub proof fn law_block_inside<N: Num>(a: Arena<N>, num_hands: [u64; 2], j: int)
    requires
        measured(a, num_hands),
        num_hands[0] <= MAX_HANDS,
        num_hands[1] <= MAX_HANDS,
        0 <= j < a.nodes.len(),
        a.nodes[j].kind == KIND_ACTION,
    ensures
        a.nodes[j].player < 2,
        a.nodes[j].data_offset + a.nodes[j].num_children * num_hands[a.nodes[j].player as int]
            <= a.data_size[a.nodes[j].player as int],
{
    let p = a.nodes[j].player as int;
    let h = num_hands[p] as int;
    lemma_blocks_monotone(a.nodes, p, h, j + 1, a.nodes.len() as int);
    assert(a.nodes.take(j + 1).drop_last() =~= a.nodes.take(j));
    assert(a.nodes.take(a.nodes.len() as int) =~= a.nodes);
}

/// Two decisions of one player own disjoint blocks, each inside the arena.
#[verifier::rlimit(60)]
#[verifier::spinoff_prover]
pub proof fn law_blocks_disjoint<N: Num>(a: Arena<N>, num_hands: [u64; 2], i: int, j: int)
    requires
        measured(a, num_hands),
        num_hands[0] <= MAX_HANDS,
        num_hands[1] <= MAX_HANDS,
        0 <= i < j < a.nodes.len(),
        a.nodes[i].kind == KIND_ACTION,
        a.nodes[j].kind == KIND_ACTION,
        a.nodes[i].player == a.nodes[j].player,
    ensures
        ({
            let p = a.nodes[i].player as int;
            &&& a.nodes[i].data_offset + a.nodes[i].num_children * num_hands[p]
                <= a.nodes[j].data_offset
            &&& a.nodes[j].data_offset + a.nodes[j].num_children * num_hands[p] <= a.data_size[p]
        }),
{
    let p = a.nodes[i].player as int;
    let h = num_hands[p] as int;
    lemma_blocks_monotone(a.nodes, p, h, i + 1, j);
    lemma_blocks_monotone(a.nodes, p, h, j + 1, a.nodes.len() as int);
    assert(a.nodes.take(i + 1).drop_last() =~= a.nodes.take(i));
    assert(a.nodes.take(j + 1).drop_last() =~= a.nodes.take(j));
    assert(a.nodes.take(a.nodes.len() as int) =~= a.nodes);
}

proof fn lemma_blocks_monotone<N>(s: Seq<Node<N>>, p: int, hands: int, i: int, j: int)
    requires
        0 <= hands,
        0 <= i <= j <= s.len(),
    ensures
        blocks(s.take(i), p, hands) <= blocks(s.take(j), p, hands),
    decreases j,
{
    if i < j {
        lemma_blocks_monotone(s, p, hands, i, j - 1);
        assert(s.take(j).drop_last() =~= s.take(j - 1));
        let k = s[j - 1].num_children;
        assert(0 <= k * hands) by (nonlinear_arith)
            requires
                0 <= k,
                0 <= hands,
        ;
    }
}

} // verus!
