//! The course of play after the flop, in exact numbers: what every action of a
//! built tree leads to, and what comes after every card.

use crate::cards;
use crate::growth_laws;
use crate::nano;
use crate::nano::Nano;
use crate::num::Num;
use crate::pot_laws;
use crate::tree;
use crate::tree::{
    Action, Arena, BuildState, Node, Setting, Strictness, TreeConfig, KIND_ACTION, KIND_CHANCE,
    KIND_TERM_FOLD, KIND_TERM_SHOWDOWN, SENTINEL,
};
use crate::tree_laws;
use vstd::prelude::*;

verus! {

/// Whether a player is all-in.
pub open spec fn done(cfg: TreeConfig<Nano>, put: [Nano; 2]) -> bool {
    ||| pot_laws::whole_stack(cfg) - put[0].count <= 1
    ||| pot_laws::whole_stack(cfg) - put[1].count <= 1
}

/// Whether a node comes once a street is over: the showdown after the river,
/// else a card.
pub open spec fn closes(street: int, c: Node<Nano>, put: Nano) -> bool {
    &&& c.put[0] == put
    &&& c.put[1] == put
    &&& if street >= 2 {
        c.kind == KIND_TERM_SHOWDOWN
    } else {
        c.kind == KIND_CHANCE && c.street == street + 1
    }
}

/// Whether an action of a decision leads to a node, where the opponent has bet
/// to `bet` on the street. A fold ends the hand as it stands. A check hands the
/// action on, or closes the street behind the second player. A call evens the
/// contributions out and closes the street. A bet puts in its amount and a raise
/// goes past the bet by as much as it names, and the opponent is to act.
pub open spec fn leads(n: Node<Nano>, act: Action<Nano>, c: Node<Nano>, bet: int) -> bool {
    let me = n.player as int;
    let opp = 1 - me;
    match act {
        Action::Fold => {
            &&& c.kind == KIND_TERM_FOLD
            &&& c.player == n.player
            &&& c.put == n.put
        },
        Action::Check => if me == 0 {
            &&& c.kind == KIND_ACTION
            &&& c.player == 1
            &&& c.street == n.street
            &&& c.put == n.put
        } else {
            closes(n.street as int, c, n.put[0])
        },
        Action::Call(to) => to.count == bet && closes(n.street as int, c, n.put[opp]),
        Action::Bet(to) => {
            &&& bet == 0
            &&& c.kind == KIND_ACTION
            &&& c.player == opp
            &&& c.street == n.street
            &&& c.put[opp] == n.put[opp]
            &&& c.put[me].count == n.put[me].count + to.count
        },
        Action::Raise(to) => {
            &&& c.kind == KIND_ACTION
            &&& c.player == opp
            &&& c.street == n.street
            &&& c.put[opp] == n.put[opp]
            &&& c.put[me].count - n.put[opp].count == to.count - bet
            &&& to.count > bet
        },
    }
}

/// Whether a node comes once a card is dealt: the first player acts, unless a
/// player is all-in; then the next card comes, or the showdown.
pub open spec fn dealt_on(cfg: TreeConfig<Nano>, n: Node<Nano>, c: Node<Nano>) -> bool {
    &&& c.put == n.put
    &&& if !done(cfg, n.put) {
        c.kind == KIND_ACTION && c.player == 0 && c.street == n.street
    } else if n.street >= 2 {
        c.kind == KIND_TERM_SHOWDOWN
    } else {
        c.kind == KIND_CHANCE && c.street == n.street + 1
    }
}

/// Whether every action of decision `j` leads where it should, facing `bet`.
pub open spec fn led(a: Arena<Nano>, j: int, bet: int) -> bool {
    let n = a.nodes[j];
    forall|s: int|
        0 <= s < n.num_children ==> leads(
            n,
            a.actions[n.actions_start + s],
            a.nodes[#[trigger] tree_laws::slot(a, j, s) as int],
            bet,
        )
}

/// Whether play goes on from node `j` as it should.
pub open spec fn goes_on(cfg: TreeConfig<Nano>, mask: u64, a: Arena<Nano>, j: int) -> bool {
    let n = a.nodes[j];
    &&& n.kind == KIND_ACTION ==> exists|bet: int| #[trigger] led(a, j, bet)
    &&& n.kind == KIND_CHANCE ==> forall|s: int|
        0 <= s < 52 && !cards::in_mask(mask, s) ==> dealt_on(
            cfg,
            n,
            a.nodes[#[trigger] tree_laws::slot(a, j, s) as int],
        )
}

pub open spec fn goes_on_from(cx: Setting<Nano>, a: Arena<Nano>, from: int) -> bool {
    forall|j: int|
        from <= j < a.nodes.len() ==> #[trigger] goes_on(cx.config, cx.board_mask, a, j)
}

/// Whether a state is one that betting can be in: where no one has bet on the
/// street both players have chips left, and the second player is to act once the
/// first has checked.
spec fn ready(cfg: TreeConfig<Nano>, st: BuildState<Nano>) -> bool {
    &&& pot_laws::even(cfg, st)
    &&& st.street < 3
    &&& st.to_act < 2
    &&& st.street_bet[0].count == 0 && st.street_bet[1].count == 0 ==> {
        &&& !done(cfg, st.put)
        &&& st.checked <==> st.to_act == 1
        &&& st.put[0] == st.put[1]
    }
}

/// The decision of a state, as far as its actions depend on it.
spec fn here(st: BuildState<Nano>) -> Node<Nano> {
    tree::plain_node(KIND_ACTION, st.to_act, st.street, st.put)
}

spec fn facing(st: BuildState<Nano>) -> int {
    st.street_bet[1 - st.to_act].count as int
}

proof fn lemma_done(cfg: TreeConfig<Nano>, put: [Nano; 2])
    requires
        pot_laws::roomy(cfg),
        pot_laws::affordable(cfg, put),
    ensures
        tree::all_in(cfg, put) == done(cfg, put),
{
    pot_laws::lemma_slack();
    pot_laws::lemma_behind(cfg, put[0]);
    pot_laws::lemma_behind(cfg, put[1]);
}

/// What goes on does so in a tree that continues.
proof fn lemma_extends(cx: Setting<Nano>, a: Arena<Nano>, b: Arena<Nano>, from: int)
    requires
        tree_laws::extends(a, b),
        0 <= from,
        goes_on_from(cx, a, from),
        tree_laws::sound_from(a, cx.board_mask, from),
    ensures
        forall|j: int|
            from <= j < a.nodes.len() ==> #[trigger] goes_on(cx.config, cx.board_mask, b, j),
{
    assert forall|j: int| from <= j < a.nodes.len() implies #[trigger] goes_on(
        cx.config,
        cx.board_mask,
        b,
        j,
    ) by {
        assert(goes_on(cx.config, cx.board_mask, a, j));
        assert(tree_laws::node_sound(a, cx.board_mask, j));
        lemma_goes_on_alike(cx, a, b, j);
    }
}

proof fn lemma_goes_on_alike(cx: Setting<Nano>, a: Arena<Nano>, b: Arena<Nano>, j: int)
    requires
        0 <= j < a.nodes.len(),
        a.nodes.len() <= b.nodes.len(),
        a.children.is_prefix_of(b.children),
        a.actions.is_prefix_of(b.actions),
        forall|m: int| j <= m < a.nodes.len() ==> #[trigger] b.nodes[m] == a.nodes[m],
        goes_on(cx.config, cx.board_mask, a, j),
        tree_laws::node_sound(a, cx.board_mask, j),
    ensures
        goes_on(cx.config, cx.board_mask, b, j),
{
    let n = a.nodes[j];
    assert(b.nodes[j] == n);
    if n.kind == KIND_ACTION {
        let bet = choose|bet: int| #[trigger] led(a, j, bet);
        assert forall|s: int| 0 <= s < n.num_children implies leads(
            n,
            b.actions[n.actions_start + s],
            b.nodes[#[trigger] tree_laws::slot(b, j, s) as int],
            bet,
        ) by {
            assert(tree_laws::slot(b, j, s) == tree_laws::slot(a, j, s));
            let c = tree_laws::slot(a, j, s);
            assert(tree_laws::child_behind(a, j, c));
            assert(b.nodes[c as int] == a.nodes[c as int]);
        }
        assert(led(b, j, bet));
    } else if n.kind == KIND_CHANCE {
        assert forall|s: int| 0 <= s < 52 && !cards::in_mask(cx.board_mask, s) implies dealt_on(
            cx.config,
            n,
            b.nodes[#[trigger] tree_laws::slot(b, j, s) as int],
        ) by {
            assert(tree_laws::slot(b, j, s) == tree_laws::slot(a, j, s));
            let c = tree_laws::slot(a, j, s);
            assert(tree_laws::child_behind(a, j, c));
            assert(b.nodes[c as int] == a.nodes[c as int]);
        }
    }
}

/// A node that receives its children goes on where they follow it.
proof fn lemma_linked(cx: Setting<Nano>, c: Arena<Nano>, i: u32, kids: Seq<u32>, bet: int)
    requires
        i < c.nodes.len(),
        tree::linked(c, i, kids) is Ok,
        kids.len() <= 255,
        goes_on_from(cx, c, i + 1),
        tree_laws::sound_from(c, cx.board_mask, i + 1),
        c.nodes[i as int].kind == KIND_ACTION ==> forall|s: int|
            0 <= s < kids.len() ==> i < #[trigger] kids[s] < c.nodes.len() && leads(
                c.nodes[i as int],
                c.actions[c.nodes[i as int].actions_start + s],
                c.nodes[kids[s] as int],
                bet,
            ),
        c.nodes[i as int].kind == KIND_CHANCE ==> kids.len() == 52 && forall|s: int|
            0 <= s < 52 && !cards::in_mask(cx.board_mask, s) ==> i < #[trigger] kids[s]
                < c.nodes.len() && dealt_on(cx.config, c.nodes[i as int], c.nodes[kids[s] as int]),
    ensures
        ({
            let d = (tree::linked(c, i, kids)->Ok_0).0;
            let (m, n) = (c.nodes[i as int], d.nodes[i as int]);
            &&& goes_on_from(cx, d, i as int)
            &&& n.kind == m.kind && n.player == m.player && n.street == m.street && n.put == m.put
        }),
{
    let d = (tree::linked(c, i, kids)->Ok_0).0;
    let n = d.nodes[i as int];
    assert forall|j: int| i <= j < d.nodes.len() implies #[trigger] goes_on(
        cx.config,
        cx.board_mask,
        d,
        j,
    ) by {
        if j == i {
            assert forall|s: int| 0 <= s < kids.len() implies #[trigger] tree_laws::slot(d, j, s)
                == kids[s] by {}
            if n.kind == KIND_ACTION {
                assert forall|s: int| 0 <= s < n.num_children implies leads(
                    n,
                    d.actions[n.actions_start + s],
                    d.nodes[#[trigger] tree_laws::slot(d, j, s) as int],
                    bet,
                ) by {
                    let k = kids[s];
                    assert(d.nodes[k as int] == c.nodes[k as int]);
                }
                assert(led(d, j, bet));
            } else if n.kind == KIND_CHANCE {
                assert forall|s: int|
                    0 <= s < 52 && !cards::in_mask(cx.board_mask, s) implies dealt_on(
                    cx.config,
                    n,
                    d.nodes[#[trigger] tree_laws::slot(d, j, s) as int],
                ) by {
                    let k = kids[s];
                    assert(d.nodes[k as int] == c.nodes[k as int]);
                }
            }
        } else {
            assert(goes_on(cx.config, cx.board_mask, c, j));
            assert(tree_laws::node_sound(c, cx.board_mask, j));
            assert forall|m: int| j <= m < c.nodes.len() implies #[trigger] d.nodes[m]
                == c.nodes[m] by {}
            lemma_goes_on_alike(cx, c, d, j);
        }
    }
}

proof fn lemma_action(cx: Setting<Nano>, a: Arena<Nano>, st: BuildState<Nano>, fuel: nat)
    requires
        tree::grow_action(cx, a, st, fuel) is Ok,
        pot_laws::roomy(cx.config),
        ready(cx.config, st),
    ensures
        ({
            let (b, i) = tree::grow_action(cx, a, st, fuel)->Ok_0;
            let n = b.nodes[i as int];
            &&& goes_on_from(cx, b, a.nodes.len() as int)
            &&& n.kind == KIND_ACTION && n.player == st.to_act && n.street == st.street && n.put
                == st.put
        }),
    decreases fuel, 4nat, 0nat,
{
    let acts = tree::legal(cx.config, cx.root_street, st);
    let (opened, node) = growth_laws::opening(cx, a, st);
    let (b, i) = tree::placed(opened, node)->Ok_0;
    lemma_kids(cx, b, st, acts, acts.len(), fuel);
    tree_laws::lemma_kids_sound(cx, b, st, acts, acts.len(), fuel);
    let (c, kids) = tree::grow_kids(cx, b, st, acts, acts.len(), fuel)->Ok_0;
    assert(c.nodes[i as int] == node) by {
        assert(b.nodes[i as int] == node);
    }
    assert forall|s: int| 0 <= s < kids.len() implies i < #[trigger] kids[s] < c.nodes.len()
        && leads(
        node,
        c.actions[node.actions_start + s],
        c.nodes[kids[s] as int],
        facing(st),
    ) by {
        assert(b.actions.is_prefix_of(c.actions));
        assert(b.actions[node.actions_start + s] == acts[s]);
        assert(leads(here(st), acts[s], c.nodes[kids[s] as int], facing(st)));
    }
    lemma_linked(cx, c, i, kids, facing(st));
}

proof fn lemma_kids(
    cx: Setting<Nano>,
    a: Arena<Nano>,
    st: BuildState<Nano>,
    acts: Seq<Action<Nano>>,
    k: nat,
    fuel: nat,
)
    requires
        tree::grow_kids(cx, a, st, acts, k, fuel) is Ok,
        pot_laws::roomy(cx.config),
        ready(cx.config, st),
        acts == tree::legal(cx.config, cx.root_street, st),
        k <= acts.len(),
        a.nodes.len() <= SENTINEL,
    ensures
        ({
            let (b, kids) = tree::grow_kids(cx, a, st, acts, k, fuel)->Ok_0;
            &&& goes_on_from(cx, b, a.nodes.len() as int)
            &&& kids.len() == k
            &&& forall|s: int|
                0 <= s < k ==> leads(
                    here(st),
                    acts[s],
                    b.nodes[#[trigger] kids[s] as int],
                    facing(st),
                )
        }),
    decreases fuel, 3nat, k,
{
    if k > 0 {
        lemma_kids(cx, a, st, acts, (k - 1) as nat, fuel);
        tree_laws::lemma_kids_sound(cx, a, st, acts, (k - 1) as nat, fuel);
        let (b, kids) = tree::grow_kids(cx, a, st, acts, (k - 1) as nat, fuel)->Ok_0;
        pot_laws::lemma_offered(cx.config, cx.root_street, st, k - 1);
        lemma_after(cx, b, st, acts[k - 1], fuel);
        tree_laws::lemma_after_sound(cx, b, st, acts[k - 1], fuel);
        let (c, i) = tree::grow_after(cx, b, st, acts[k - 1], fuel)->Ok_0;
        lemma_extends(cx, b, c, a.nodes.len() as int);
        let more = kids.push(i);
        assert forall|s: int| 0 <= s < k implies leads(
            here(st),
            acts[s],
            c.nodes[#[trigger] more[s] as int],
            facing(st),
        ) by {
            if s < k - 1 {
                assert(more[s] == kids[s]);
                assert(a.nodes.len() <= kids[s] < b.nodes.len());
                assert(c.nodes[kids[s] as int] == b.nodes[kids[s] as int]);
            }
        }
    }
}

proof fn lemma_after(
    cx: Setting<Nano>,
    a: Arena<Nano>,
    st: BuildState<Nano>,
    act: Action<Nano>,
    fuel: nat,
)
    requires
        tree::grow_after(cx, a, st, act, fuel) is Ok,
        pot_laws::roomy(cx.config),
        ready(cx.config, st),
        pot_laws::offered(cx.config, st, act),
    ensures
        ({
            let (b, i) = tree::grow_after(cx, a, st, act, fuel)->Ok_0;
            &&& goes_on_from(cx, b, a.nodes.len() as int)
            &&& leads(here(st), act, b.nodes[i as int], facing(st))
        }),
    decreases fuel, 2nat, 0nat,
{
    let me = st.to_act as int;
    match act {
        Action::Fold => {
            tree_laws::lemma_placed(a, tree::fold_node(cx.config, st));
        },
        Action::Check => {
            if st.checked {
                lemma_street_end(cx, a, st.street, st.put, st.last_aggressor, false, fuel);
            } else {
                let next = tree::after_check(st);
                lemma_action(cx, a, next, (fuel - 1) as nat);
            }
        },
        Action::Call(to) => {
            let put = tree::put_after(st, to);
            pot_laws::lemma_call_matches(cx.config, st, to);
            lemma_done(cx.config, put);
            assert(put[1 - me] == st.put[1 - me]);
            lemma_street_end(
                cx,
                a,
                st.street,
                put,
                Some(tree::other(st.to_act) as u8),
                tree::all_in(cx.config, put),
                fuel,
            );
        },
        Action::Bet(to) => {
            pot_laws::lemma_bet_even(cx.config, st, to, false);
            lemma_bet(cx.config, st, to, false);
            lemma_action(cx, a, tree::after_bet(st, to, false), (fuel - 1) as nat);
        },
        Action::Raise(to) => {
            pot_laws::lemma_bet_even(cx.config, st, to, true);
            lemma_bet(cx.config, st, to, true);
            lemma_action(cx, a, tree::after_bet(st, to, true), (fuel - 1) as nat);
        },
    }
}

/// A bet or raise adds what it goes to beyond what was bet on the street.
proof fn lemma_bet(cfg: TreeConfig<Nano>, st: BuildState<Nano>, to: Nano, raised: bool)
    requires
        pot_laws::roomy(cfg),
        ready(cfg, st),
        pot_laws::offered(cfg, st, Action::Bet(to)) || pot_laws::offered(
            cfg,
            st,
            Action::Raise(to),
        ),
        pot_laws::even(cfg, tree::after_bet(st, to, raised)),
    ensures
        ({
            let next = tree::after_bet(st, to, raised);
            let me = st.to_act as int;
            &&& ready(cfg, next)
            &&& next.to_act == 1 - st.to_act
            &&& next.street == st.street
            &&& next.put[1 - me] == st.put[1 - me]
            &&& next.put[me].count == st.put[me].count + to.count - st.street_bet[me].count
        }),
{
    let me = st.to_act as int;
    let own = st.street_bet[me].count;
    let put = st.put[me].plus_spec(to.minus_spec(st.street_bet[me]));
    assert(own <= to.count);
    assert(put.count == st.put[me].count + (to.count - own));
    let next = tree::after_bet(st, to, raised);
    assert(next.put[me] == put && next.street_bet[me] == to);
    assert(next.put[1 - me] == st.put[1 - me]);
    assert(to.count >= 2);
}

proof fn lemma_street_end(
    cx: Setting<Nano>,
    a: Arena<Nano>,
    street: u8,
    put: [Nano; 2],
    aggressor: Option<u8>,
    allin: bool,
    fuel: nat,
)
    requires
        tree::grow_street_end(cx, a, street, put, aggressor, allin, fuel) is Ok,
        pot_laws::roomy(cx.config),
        pot_laws::matched(cx.config, put),
        street < 3,
        allin == done(cx.config, put),
    ensures
        ({
            let (b, i) = tree::grow_street_end(cx, a, street, put, aggressor, allin, fuel)->Ok_0;
            &&& goes_on_from(cx, b, a.nodes.len() as int)
            &&& closes(street as int, b.nodes[i as int], put[0])
        }),
    decreases fuel, 1nat, 0nat,
{
    if street >= 2 {
        tree_laws::lemma_placed(a, tree::showdown_node(cx.config, 2, put));
    } else if allin {
        lemma_runout(cx, a, street, put);
    } else {
        let next = (street + 1) as u8;
        let node = tree::plain_node(KIND_CHANCE, 0, next, put);
        let (b, i) = tree::placed(a, node)->Ok_0;
        let st = tree::street_start(next, put, aggressor);
        assert(nano::ten_to(0) == 1);
        assert(tree::zero::<Nano>().count == 0);
        lemma_deals(cx, b, st, 52, fuel);
        tree_laws::lemma_deals_sound(cx, b, st, 52, fuel);
        let (c, kids) = tree::grow_deals(cx, b, st, 52, fuel)->Ok_0;
        assert(c.nodes[i as int] == node) by {
            assert(b.nodes[i as int] == node);
        }
        lemma_linked(cx, c, i, kids, 0);
    }
}

proof fn lemma_deals(
    cx: Setting<Nano>,
    a: Arena<Nano>,
    st: BuildState<Nano>,
    k: nat,
    fuel: nat,
)
    requires
        tree::grow_deals(cx, a, st, k, fuel) is Ok,
        pot_laws::roomy(cx.config),
        ready(cx.config, st),
        st.to_act == 0,
        a.nodes.len() <= SENTINEL,
    ensures
        ({
            let (b, kids) = tree::grow_deals(cx, a, st, k, fuel)->Ok_0;
            &&& goes_on_from(cx, b, a.nodes.len() as int)
            &&& kids.len() == k
            &&& forall|s: int|
                0 <= s < k && !cards::in_mask(cx.board_mask, s) ==> ({
                    let c = b.nodes[#[trigger] kids[s] as int];
                    c.kind == KIND_ACTION && c.player == 0 && c.street == st.street && c.put
                        == st.put
                })
        }),
    decreases fuel, 0nat, k,
{
    if k > 0 {
        lemma_deals(cx, a, st, (k - 1) as nat, fuel);
        tree_laws::lemma_deals_sound(cx, a, st, (k - 1) as nat, fuel);
        let (b, kids) = tree::grow_deals(cx, a, st, (k - 1) as nat, fuel)->Ok_0;
        if !cards::in_mask(cx.board_mask, k - 1) {
            lemma_action(cx, b, st, (fuel - 1) as nat);
            tree_laws::lemma_action_sound(cx, b, st, (fuel - 1) as nat);
            let (c, i) = tree::grow_action(cx, b, st, (fuel - 1) as nat)->Ok_0;
            lemma_extends(cx, b, c, a.nodes.len() as int);
            let more = kids.push(i);
            assert forall|s: int| 0 <= s < k && !cards::in_mask(cx.board_mask, s) implies ({
                let d = c.nodes[#[trigger] more[s] as int];
                d.kind == KIND_ACTION && d.player == 0 && d.street == st.street && d.put == st.put
            }) by {
                if s < k - 1 {
                    assert(more[s] == kids[s]);
                    assert(a.nodes.len() <= kids[s] < b.nodes.len());
                    assert(c.nodes[kids[s] as int] == b.nodes[kids[s] as int]);
                }
            }
        }
    }
}

proof fn lemma_runout(cx: Setting<Nano>, a: Arena<Nano>, street: u8, put: [Nano; 2])
    requires
        tree::grow_runout(cx, a, street, put) is Ok,
        done(cx.config, put),
        street < 2,
    ensures
        ({
            let (b, i) = tree::grow_runout(cx, a, street, put)->Ok_0;
            let n = b.nodes[i as int];
            &&& goes_on_from(cx, b, a.nodes.len() as int)
            &&& n.kind == KIND_CHANCE && n.street == street + 1 && n.put == put
        }),
    decreases 2 - street, 100nat,
{
    let node = tree::plain_node(KIND_CHANCE, 0, (street + 1) as u8, put);
    let (b, i) = tree::placed(a, node)->Ok_0;
    lemma_runout_deals(cx, b, street, put, 52);
    tree_laws::lemma_runout_deals_sound(cx, b, street, put, 52);
    let (c, kids) = tree::grow_runout_deals(cx, b, street, put, 52)->Ok_0;
    assert(c.nodes[i as int] == node) by {
        assert(b.nodes[i as int] == node);
    }
    lemma_linked(cx, c, i, kids, 0);
}

proof fn lemma_runout_deals(
    cx: Setting<Nano>,
    a: Arena<Nano>,
    street: u8,
    put: [Nano; 2],
    k: nat,
)
    requires
        tree::grow_runout_deals(cx, a, street, put, k) is Ok,
        done(cx.config, put),
        street < 2,
        k <= 52,
        a.nodes.len() <= SENTINEL,
    ensures
        ({
            let (b, kids) = tree::grow_runout_deals(cx, a, street, put, k)->Ok_0;
            &&& goes_on_from(cx, b, a.nodes.len() as int)
            &&& kids.len() == k
            &&& forall|s: int|
                0 <= s < k && !cards::in_mask(cx.board_mask, s) ==> ({
                    let c = b.nodes[#[trigger] kids[s] as int];
                    c.put == put && if street + 1 == 2 {
                        c.kind == KIND_TERM_SHOWDOWN
                    } else {
                        c.kind == KIND_CHANCE && c.street == street + 2
                    }
                })
        }),
    decreases 2 - street, k,
{
    if k > 0 {
        lemma_runout_deals(cx, a, street, put, (k - 1) as nat);
        tree_laws::lemma_runout_deals_sound(cx, a, street, put, (k - 1) as nat);
        let (b, kids) = tree::grow_runout_deals(cx, a, street, put, (k - 1) as nat)->Ok_0;
        if !cards::in_mask(cx.board_mask, k - 1) {
            let (c, i) = tree::grow_runout_deals(cx, a, street, put, k)->Ok_0;
            let grown = if street + 1 == 2 {
                tree::afforded(cx, b, tree::showdown_node(cx.config, 2, put))
            } else {
                tree::grow_runout(cx, b, (street + 1) as u8, put)
            };
            if street + 1 == 2 {
                tree_laws::lemma_placed(b, tree::showdown_node(cx.config, 2, put));
            } else {
                lemma_runout(cx, b, (street + 1) as u8, put);
                tree_laws::lemma_runout_sound(cx, b, (street + 1) as u8, put);
            }
            let (d, m) = grown->Ok_0;
            lemma_extends(cx, b, d, a.nodes.len() as int);
            let more = kids.push(m);
            assert forall|s: int| 0 <= s < k && !cards::in_mask(cx.board_mask, s) implies ({
                let e = d.nodes[#[trigger] more[s] as int];
                e.put == put && if street + 1 == 2 {
                    e.kind == KIND_TERM_SHOWDOWN
                } else {
                    e.kind == KIND_CHANCE && e.street == street + 2
                }
            }) by {
                if s < k - 1 {
                    assert(more[s] == kids[s]);
                    assert(a.nodes.len() <= kids[s] < b.nodes.len());
                    assert(d.nodes[kids[s] as int] == b.nodes[kids[s] as int]);
                }
            }
        }
    }
}

/// Law: in a built tree the first player acts first, with half the pot put in by
/// each, and play takes its course from every node: every action leads where
/// the rules of the game say, and after a card the first player acts unless a
/// player is all-in.
pub proof fn law_play_takes_its_course(
    cfg: TreeConfig<Nano>,
    board: Seq<u8>,
    num_hands: [usize; 2],
    max_nodes: Option<usize>,
    strictness: Strictness,
    i: int,
)
    requires
        tree::built(cfg, board, num_hands, max_nodes, strictness) is Ok,
        pot_laws::whole_stack(cfg) <= i64::MAX,
        cfg.effective_stack.count > 1,
        0 <= i < (tree::built(cfg, board, num_hands, max_nodes, strictness)->Ok_0).0.nodes.len(),
    ensures
        ({
            let a = (tree::built(cfg, board, num_hands, max_nodes, strictness)->Ok_0).0;
            let root = a.nodes[0];
            &&& goes_on(cfg, cards::mask_of(board), a, i)
            &&& root.kind == KIND_ACTION && root.player == 0 && root.street == board.len() - 3
            &&& root.put[0].count == pot_laws::half_pot(cfg)
            &&& root.put[1].count == pot_laws::half_pot(cfg)
        }),
{
    let half = cfg.starting_pot.over_spec(Nano::decimal_spec(2, 0));
    let root_street = (board.len() - 3) as u8;
    assert(nano::ten_to(0) == 1);
    assert(tree::zero::<Nano>().count == 0);
    pot_laws::lemma_half(cfg);
    let cx = tree_laws::setting_of(cfg, board, num_hands, max_nodes);
    let st = tree::street_start(root_street, [half, half], None);
    lemma_action(cx, tree::bare(), st, SENTINEL as nat);
    let (b, r) = tree::grow_action(cx, tree::bare(), st, SENTINEL as nat)->Ok_0;
    tree_laws::lemma_action_sound(cx, tree::bare(), st, SENTINEL as nat);
    assert(goes_on(cx.config, cx.board_mask, b, i));
}

} // verus!
