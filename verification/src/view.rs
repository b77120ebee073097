//! Node inspection for the strategy browser: what a node offers, who stands
//! where, and what every hand plays and earns there.

use crate::cards;
use crate::cards::{card_from_str, card_to_string, Card};
use crate::cfr::Solver;
use crate::num;
use crate::num::{magnitude, Num, Single};
use crate::path;
use crate::path::{PathStep, Step};
use crate::terminal;
use crate::terminal::compatible_reach;
use crate::tree;
use crate::tree::{Action, Node, KIND_ACTION, KIND_CHANCE, KIND_TERM_FOLD, KIND_TERM_SHOWDOWN};
use vstd::prelude::*;

verus! {

#[derive(Debug, Clone)]
pub struct ActionView<W> {
    pub label: String,
    pub kind: String,
    pub amount: W,
}

/// One stop along the walked line, for the action-history bar.
#[derive(Debug, Clone)]
pub struct HistoryStep<W> {
    /// "action" | "card" | "terminal"
    pub kind: String,
    pub player: Option<u8>,
    /// Actor's remaining stack when this node is reached.
    pub stack: W,
    pub pot: W,
    pub street: u8,
    pub actions: Vec<ActionView<W>>,
    /// Index of the action taken from here (None for the current node).
    pub chosen: Option<usize>,
    /// Card dealt at this step (card steps only; None = not yet picked).
    pub card: Option<String>,
}

/// What kind of action this is.
pub open spec fn kind_text<W>(action: Action<W>) -> Seq<char> {
    match action {
        Action::Fold => "fold"@,
        Action::Check => "check"@,
        Action::Call(_) => "call"@,
        Action::Bet(_) => "bet"@,
        Action::Raise(_) => "raise"@,
    }
}

/// The amount that an action names.
pub open spec fn amount_of<W: Num>(action: Action<W>) -> W {
    match action {
        Action::Call(x) => x,
        Action::Bet(x) => x,
        Action::Raise(x) => x,
        _ => W::decimal_spec(0, 0),
    }
}

/// What kind of node this is.
pub open spec fn node_text(kind: u8) -> Seq<char> {
    if kind == KIND_ACTION {
        "action"@
    } else if kind == KIND_CHANCE {
        "chance"@
    } else if kind == KIND_TERM_FOLD {
        "terminal_fold"@
    } else if kind == KIND_TERM_SHOWDOWN {
        "terminal_showdown"@
    } else {
        "?"@
    }
}

/// What kind of stop a node is on the way.
pub open spec fn stop_text(kind: u8) -> Seq<char> {
    if kind == KIND_ACTION {
        "action"@
    } else if kind == KIND_CHANCE {
        "card"@
    } else {
        "terminal"@
    }
}

pub(crate) fn node_type_name(kind: u8) -> (r: String)
    ensures
        r@ == node_text(kind),
{
    if kind == KIND_ACTION {
        "action".to_owned()
    } else if kind == KIND_CHANCE {
        "chance".to_owned()
    } else if kind == KIND_TERM_FOLD {
        "terminal_fold".to_owned()
    } else if kind == KIND_TERM_SHOWDOWN {
        "terminal_showdown".to_owned()
    } else {
        "?".to_owned()
    }
}

/// The texts of a list of strings.
pub open spec fn says(v: Seq<String>, texts: Seq<Seq<char>>) -> bool {
    v.len() == texts.len() && forall|i: int| 0 <= i < v.len() ==> (#[trigger] v[i])@ == texts[i]
}

/// The names of cards.
pub open spec fn card_texts(cs: Seq<Card>) -> Seq<Seq<char>> {
    Seq::new(cs.len(), |i: int| cards::card_text(cs[i] as int))
}

impl<S: Single> Solver<S> {
    /// The chips in the middle at a node.
    pub open spec fn pot_at(&self, idx: int) -> S::Wide {
        self.node(idx).put[0].plus_spec(self.node(idx).put[1])
    }

    /// What a player has behind at a node.
    pub open spec fn stack_at(&self, idx: int, p: int) -> S::Wide {
        tree::behind(self.spot.tree.config, self.node(idx).put[p])
    }

    /// Action `a` of a decision.
    pub open spec fn action_at(&self, idx: int, a: int) -> Action<S::Wide> {
        self.spot.tree.actions@[self.node(idx).actions_start + a]
    }

    /// An aggressive action is all-in iff it leaves the actor with no stack
    /// behind.
    pub open spec fn goes_all_in(&self, idx: int, a: int) -> bool {
        let action = self.action_at(idx, a);
        (action is Bet || action is Raise) && num::magnitude_of(
            self.stack_at(self.child(idx, a), self.node(idx).player as int),
        ).below_spec(S::Wide::decimal_spec(1, 6))
    }

    /// The view of action `a` of a decision.
    pub open spec fn action_shown(&self, idx: int, a: int, v: ActionView<S::Wide>) -> bool {
        &&& v.label@ == tree::action_text(
            self.action_at(idx, a),
            self.pot_at(idx),
            self.goes_all_in(idx, a),
        )
        &&& v.kind@ == kind_text(self.action_at(idx, a))
        &&& v.amount == amount_of(self.action_at(idx, a))
    }

    /// The views of a node's actions: none, where the node is no decision.
    pub open spec fn actions_shown(&self, idx: int, v: Seq<ActionView<S::Wide>>) -> bool {
        if self.node(idx).kind == KIND_ACTION {
            &&& v.len() == self.node(idx).num_children
            &&& forall|a: int| 0 <= a < v.len() ==> self.action_shown(idx, a, #[trigger] v[a])
        } else {
            v.len() == 0
        }
    }

    /// Labeled views of an action node's actions (empty for other node kinds).
    pub fn action_views(&self, node_idx: u32) -> (r: Vec<ActionView<S::Wide>>)
        requires
            self.wf(),
            node_idx < self.spot.tree.nodes@.len(),
        ensures
            self.actions_shown(node_idx as int, r@),
    {
        let n = &self.spot.tree.nodes[node_idx as usize];
        let mut out: Vec<ActionView<S::Wide>> = Vec::new();
        if n.kind != KIND_ACTION {
            return out;
        }
        proof {
            self.lemma_decision(node_idx as int);
        }
        let pot = n.put[0].plus(n.put[1]);
        let me: usize = n.player as usize;
        let na: usize = n.num_children as usize;
        let listed: usize = self.spot.tree.actions.len();
        let slots: usize = self.spot.tree.children.len();
        let mut a: usize = 0;
        while a < na
            invariant
                a <= na,
                self.wf(),
                self.decides(node_idx as int),
                *n == self.node(node_idx as int),
                na == n.num_children,
                me == n.player,
                me < 2,
                pot == self.pot_at(node_idx as int),
                n.actions_start + na <= self.spot.tree.actions@.len() == listed,
                n.children_start + na <= self.spot.tree.children@.len() == slots,
                out@.len() == a,
                forall|x: int|
                    0 <= x < a ==> self.action_shown(node_idx as int, x, #[trigger] out@[x]),
            decreases na - a,
        {
            proof {
                self.lemma_decision(node_idx as int);
            }
            let action = self.spot.tree.actions[n.actions_start as usize + a];
            let child_idx: u32 = self.spot.tree.children[n.children_start as usize + a];
            assert(child_idx == self.child(node_idx as int, a as int));
            let child = &self.spot.tree.nodes[child_idx as usize];
            let config = &self.spot.tree.config;
            let stack_after = config.effective_stack.minus(
                child.put[me].minus(config.starting_pot.over(S::Wide::decimal(2, 0))),
            );
            let all_in: bool = action.is_aggressive() && magnitude(stack_after).below(
                S::Wide::decimal(1, 6),
            );
            let label = action.label(pot, all_in);
            let (kind, amount) = match action {
                Action::Fold => ("fold".to_owned(), S::Wide::decimal(0, 0)),
                Action::Check => ("check".to_owned(), S::Wide::decimal(0, 0)),
                Action::Call(x) => ("call".to_owned(), x),
                Action::Bet(x) => ("bet".to_owned(), x),
                Action::Raise(x) => ("raise".to_owned(), x),
            };
            out.push(ActionView { label, kind, amount });
            a = a + 1;
        }
        out
    }

    /// The stop where a step was taken.
    pub open spec fn passed_shown(&self, idx: int, step: Step, h: HistoryStep<S::Wide>) -> bool {
        let n = self.node(idx);
        &&& h.pot == self.pot_at(idx)
        &&& h.street == n.street
        &&& match step {
            Step::Action { index } => {
                &&& h.kind@ == "action"@
                &&& h.player == Some(n.player)
                &&& h.stack == self.stack_at(idx, n.player as int)
                &&& self.actions_shown(idx, h.actions@)
                &&& h.chosen == Some(index)
                &&& h.card is None
            },
            Step::Card { text } => {
                &&& h.kind@ == "card"@
                &&& h.player is None
                &&& h.stack == S::Wide::decimal_spec(0, 0)
                &&& h.actions@.len() == 0
                &&& h.chosen is None
                &&& h.card is Some
                &&& h.card->Some_0@ == cards::card_text(cards::text_card(text)->Ok_0 as int)
            },
        }
    }

    /// The stop where the walk ends.
    pub open spec fn arrival_shown(&self, idx: int, h: HistoryStep<S::Wide>) -> bool {
        let n = self.node(idx);
        &&& h.kind@ == stop_text(n.kind)
        &&& h.pot == self.pot_at(idx)
        &&& h.street == n.street
        &&& self.actions_shown(idx, h.actions@)
        &&& h.chosen is None
        &&& h.card is None
        &&& if n.kind == KIND_ACTION {
            h.player == Some(n.player) && h.stack == self.stack_at(idx, n.player as int)
        } else {
            h.player is None && h.stack == S::Wide::decimal_spec(0, 0)
        }
    }

    /// The node that the first `i` steps of a path lead to.
    pub open spec fn node_after(&self, way: Seq<Step>, i: int) -> int {
        self.walked(way.take(i))->Ok_0.idx
    }

    /// One stop per step of the path, and the node it leads to.
    pub open spec fn history_shown(&self, way: Seq<Step>, h: Seq<HistoryStep<S::Wide>>) -> bool {
        &&& h.len() == way.len() + 1
        &&& forall|i: int|
            0 <= i < way.len() ==> self.passed_shown(
                self.node_after(way, i),
                way[i],
                #[trigger] h[i],
            )
        &&& self.arrival_shown(self.node_after(way, way.len() as int), h.last())
    }

    /// A walk that arrives has passed every node on the way.
    pub proof fn lemma_walk_passes(&self, way: Seq<Step>, i: int)
        requires
            self.walked(way) is Ok,
            0 <= i <= way.len(),
        ensures
            self.walked(way.take(i)) is Ok,
        decreases way.len(),
    {
        if i == way.len() {
            assert(way.take(i) =~= way);
        } else {
            self.lemma_walk_passes(way.drop_last(), i);
            assert(way.drop_last().take(i) =~= way.take(i));
        }
    }

    /// One [`HistoryStep`] per node along the path, plus the current node.
    pub(crate) fn build_history(&self, path: &[PathStep]) -> (r: Vec<HistoryStep<S::Wide>>)
        requires
            self.wf(),
            self.walked(path::steps(path@)) is Ok,
        ensures
            self.history_shown(path::steps(path@), r@),
    {
        let ghost way = path::steps(path@);
        let mut history: Vec<HistoryStep<S::Wide>> = Vec::new();
        let mut idx: u32 = 0;
        let mut i: usize = 0;
        assert(way.take(0) =~= Seq::<Step>::empty());
        while i < path.len()
            invariant
                i <= path@.len(),
                way == path::steps(path@),
                self.wf(),
                self.walked(way) is Ok,
                idx == self.node_after(way, i as int),
                history@.len() == i,
                forall|x: int|
                    0 <= x < i ==> self.passed_shown(
                        self.node_after(way, x),
                        way[x],
                        #[trigger] history@[x],
                    ),
            decreases path@.len() - i,
        {
            proof {
                self.lemma_walk_passes(way, i as int);
                self.lemma_walk_passes(way, i + 1);
                self.lemma_walked(way.take(i as int));
                assert(way.take(i + 1).drop_last() =~= way.take(i as int));
                assert(way.take(i + 1).last() == way[i as int]);
            }
            let n = &self.spot.tree.nodes[idx as usize];
            let pot = n.put[0].plus(n.put[1]);
            match &path[i] {
                PathStep::Action { index } => {
                    proof {
                        self.lemma_decision(idx as int);
                    }
                    let stack = self.stack_of(n, n.player as usize);
                    let actions = self.action_views(idx);
                    history.push(
                        HistoryStep {
                            kind: "action".to_owned(),
                            player: Some(n.player),
                            stack,
                            pot,
                            street: n.street,
                            actions,
                            chosen: Some(*index),
                            card: None,
                        },
                    );
                    let slots: usize = self.spot.tree.children.len();
                    idx = self.spot.tree.children[n.children_start as usize + *index];
                },
                PathStep::Card { card } => {
                    proof {
                        self.lemma_chance(idx as int);
                    }
                    match card_from_str(card.as_str()) {
                        Ok(c) => {
                            history.push(
                                HistoryStep {
                                    kind: "card".to_owned(),
                                    player: None,
                                    stack: S::Wide::decimal(0, 0),
                                    pot,
                                    street: n.street,
                                    actions: Vec::new(),
                                    chosen: None,
                                    card: Some(card_to_string(c)),
                                },
                            );
                            let slots: usize = self.spot.tree.children.len();
                            idx = self.spot.tree.children[n.children_start as usize + c as usize];
                        },
                        Err(_) => {
                            assert(false);
                        },
                    }
                },
            }
            i = i + 1;
        }
        proof {
            assert(way.take(i as int) =~= way);
            self.lemma_walked(way);
        }
        let n = &self.spot.tree.nodes[idx as usize];
        let acts: bool = n.kind == KIND_ACTION;
        proof {
            if acts {
                self.lemma_decision(idx as int);
            }
        }
        let kind = if n.kind == KIND_ACTION {
            "action".to_owned()
        } else if n.kind == KIND_CHANCE {
            "card".to_owned()
        } else {
            "terminal".to_owned()
        };
        let player = if acts {
            Some(n.player)
        } else {
            None
        };
        let stack = if acts {
            self.stack_of(n, n.player as usize)
        } else {
            S::Wide::decimal(0, 0)
        };
        let actions = self.action_views(idx);
        history.push(
            HistoryStep {
                kind,
                player,
                stack,
                pot: n.put[0].plus(n.put[1]),
                street: n.street,
                actions,
                chosen: None,
                card: None,
            },
        );
        history
    }

    fn stack_of(&self, n: &Node<S::Wide>, p: usize) -> (r: S::Wide)
        requires
            p < 2,
        ensures
            r == tree::behind(self.spot.tree.config, n.put[p as int]),
    {
        let config = &self.spot.tree.config;
        config.effective_stack.minus(
            n.put[p].minus(config.starting_pot.over(S::Wide::decimal(2, 0))),
        )
    }

    /// The opponent reach that player `p`'s hands can meet.
    pub open spec fn met(&self, p: int, reach_o: Seq<S>) -> Seq<S::Wide> {
        terminal::met_reach(
            self.spot.hands[p]@,
            self.spot.hands[1 - p]@,
            reach_o,
            self.spot.same_combo[p]@,
        )
    }

    /// Compatible opponent reach sum for each of p's hands (normalizer for EVs).
    pub fn valid_opp_sum(&self, p: usize, reach_o: &Vec<S>) -> (r: Vec<S::Wide>)
        requires
            self.wf(),
            p < 2,
            reach_o@.len() == self.nh(1 - p),
        ensures
            r@ == self.met(p as int, reach_o@),
            r@.len() == self.nh(p as int),
    {
        proof {
            self.lemma_hands(p as int);
            self.lemma_hands(1 - p as int);
        }
        compatible_reach(
            self.spot.hands[p].as_slice(),
            self.spot.hands[1 - p].as_slice(),
            reach_o.as_slice(),
            self.spot.same_combo[p].as_slice(),
        )
    }
}

} // verus!
