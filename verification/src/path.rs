//! Paths through a solver's tree: walking them with the strategies played on
//! the way, and moving them onto the branch that stands for its symmetric
//! siblings.

use crate::cards;
use crate::cards::{card_from_str, Card, CardError};
use crate::cfr;
use crate::cfr::{pass_card, Solver};
use crate::game::Dealt;
use crate::num::{Num, Single};
use crate::rake::FreqError;
use crate::strategy;
use crate::strategy::{copied, pass_action};
use crate::tree::{KIND_ACTION, KIND_CHANCE, SENTINEL};
use crate::tree_laws;
use vstd::prelude::*;

verus! {

/// One step of a path: an action taken, or a card dealt.
#[derive(Debug, Clone)]
pub enum PathStep {
    Action { index: usize },
    Card { card: String },
}

/// A [`PathStep`], with its text as a sequence.
pub enum Step {
    Action { index: usize },
    Card { text: Seq<char> },
}

impl View for PathStep {
    type V = Step;

    open spec fn view(&self) -> Step {
        match self {
            PathStep::Action { index } => Step::Action { index: *index },
            PathStep::Card { card } => Step::Card { text: card@ },
        }
    }
}

impl PathStep {
    /// A copy of the step.
    pub fn duplicate(&self) -> (r: Self)
        ensures
            r@ == self@,
    {
        match self {
            PathStep::Action { index } => PathStep::Action { index: *index },
            PathStep::Card { card } => PathStep::Card { card: card.clone() },
        }
    }
}

/// The steps of a path.
pub open spec fn steps(path: Seq<PathStep>) -> Seq<Step> {
    Seq::new(path.len(), |i: int| path[i]@)
}

/// Why a query is refused.
#[allow(inconsistent_fields)]
#[derive(Debug)]
pub enum QueryError {
    /// A path takes an action that the node does not have.
    ActionIndex { index: usize },
    /// A text does not name cards.
    Card { error: CardError },
    /// A card cannot come at this point of the path.
    CardUnavailable { card: String },
    /// A path deals a card at a decision, or acts where a card comes.
    StepMismatch,
    /// Frequencies cannot be used.
    Freqs { error: FreqError },
    /// Only decisions can be locked.
    NotADecision,
    /// A combo does not have two cards.
    NotACombo { combo: String },
    /// A combo is not in the acting player's range.
    NotInRange { combo: String, player: u8 },
    /// The exploiter is neither player.
    Exploiter,
    /// Runouts are reported at chance nodes.
    NotAChance,
    /// The villain is neither player.
    Villain,
    /// The spot has not been solved yet.
    Unsolved,
    /// The villain has no range.
    EmptyRange,
}

/// A [`QueryError`], with its texts as sequences.
#[allow(inconsistent_fields)]
pub enum QueryFault {
    ActionIndex { index: usize },
    Card { error: CardError },
    CardUnavailable { card: Seq<char> },
    StepMismatch,
    Freqs { error: FreqError },
    NotADecision,
    NotACombo { combo: Seq<char> },
    NotInRange { combo: Seq<char>, player: u8 },
    Exploiter,
    NotAChance,
    Villain,
    Unsolved,
    EmptyRange,
}

impl QueryError {
    pub open spec fn fault(&self) -> QueryFault {
        match *self {
            QueryError::ActionIndex { index } => QueryFault::ActionIndex { index },
            QueryError::Card { error } => QueryFault::Card { error },
            QueryError::CardUnavailable { card } => QueryFault::CardUnavailable { card: card@ },
            QueryError::StepMismatch => QueryFault::StepMismatch,
            QueryError::Freqs { error } => QueryFault::Freqs { error },
            QueryError::NotADecision => QueryFault::NotADecision,
            QueryError::NotACombo { combo } => QueryFault::NotACombo { combo: combo@ },
            QueryError::NotInRange { combo, player } => QueryFault::NotInRange {
                combo: combo@,
                player,
            },
            QueryError::Exploiter => QueryFault::Exploiter,
            QueryError::NotAChance => QueryFault::NotAChance,
            QueryError::Villain => QueryFault::Villain,
            QueryError::Unsolved => QueryFault::Unsolved,
            QueryError::EmptyRange => QueryFault::EmptyRange,
        }
    }
}

/// Where a path leads: the node, both players' reach, and the cards dealt.
pub struct Walk<S> {
    pub node_idx: u32,
    pub reach: [Vec<S>; 2],
    pub dealt: Dealt,
}

/// A [`Walk`], with its lists as sequences.
pub struct Place<S> {
    pub idx: int,
    pub oop: Seq<S>,
    pub ip: Seq<S>,
    pub dealt: Seq<Card>,
}

impl<S> Place<S> {
    pub open spec fn reach(&self, p: int) -> Seq<S> {
        if p == 0 {
            self.oop
        } else {
            self.ip
        }
    }

    /// The place with one player's reach changed.
    pub open spec fn with_reach(self, p: int, reach: Seq<S>) -> Place<S> {
        if p == 0 {
            Place { oop: reach, ..self }
        } else {
            Place { ip: reach, ..self }
        }
    }
}

impl<S> Walk<S> {
    pub open spec fn place(&self) -> Place<S> {
        Place {
            idx: self.node_idx as int,
            oop: self.reach[0]@,
            ip: self.reach[1]@,
            dealt: self.dealt.list(),
        }
    }
}

impl<S: Single> Solver<S> {
    /// Where one step leads.
    pub open spec fn stepped(&self, at: Place<S>, step: Step) -> Result<Place<S>, QueryFault> {
        let n = self.node(at.idx);
        match step {
            Step::Action { index } => if n.kind != KIND_ACTION {
                Err(QueryFault::StepMismatch)
            } else if index >= n.num_children {
                Err(QueryFault::ActionIndex { index })
            } else {
                let p = n.player as int;
                let moved = at.with_reach(
                    p,
                    strategy::reach_through(at.reach(p), self.played(at.idx), index as int),
                );
                Ok(Place { idx: self.child(at.idx, index as int), ..moved })
            },
            Step::Card { text } => if n.kind != KIND_CHANCE {
                Err(QueryFault::StepMismatch)
            } else {
                match cards::text_card(text) {
                    Err(error) => Err(QueryFault::Card { error }),
                    Ok(c) => if self.comes(at.idx, at.dealt, c as int) {
                        Ok(self.dealt_place(at, c))
                    } else {
                        Err(QueryFault::CardUnavailable { card: text })
                    },
                }
            },
        }
    }

    /// Where dealing a card leads.
    pub open spec fn dealt_place(&self, at: Place<S>, c: Card) -> Place<S> {
        Place {
            idx: self.child(at.idx, c as int),
            oop: cfr::reach_past(self.spot.hands[0]@, at.oop, c as int),
            ip: cfr::reach_past(self.spot.hands[1]@, at.ip, c as int),
            dealt: at.dealt.push(c),
        }
    }

    /// Where both players stand at the root.
    pub open spec fn root_place(&self) -> Place<S> {
        Place {
            idx: 0,
            oop: self.spot.weights[0]@,
            ip: self.spot.weights[1]@,
            dealt: Seq::empty(),
        }
    }

    /// Where a path leads, or the first reason why it leads nowhere.
    pub open spec fn walked(&self, path: Seq<Step>) -> Result<Place<S>, QueryFault>
        decreases path.len(),
    {
        if path.len() == 0 {
            Ok(self.root_place())
        } else {
            match self.walked(path.drop_last()) {
                Err(e) => Err(e),
                Ok(at) => self.stepped(at, path.last()),
            }
        }
    }

    /// A place that a path can lead to.
    pub open spec fn standing(&self, at: Place<S>) -> bool {
        &&& self.dealt_to(at.idx, at.dealt)
        &&& at.oop.len() == self.nh(0)
        &&& at.ip.len() == self.nh(1)
    }

    /// A path leads to a place of the tree.
    pub proof fn lemma_walked(&self, path: Seq<Step>)
        requires
            self.wf(),
            self.walked(path) is Ok,
        ensures
            self.standing(self.walked(path)->Ok_0),
        decreases path.len(),
    {
        if path.len() == 0 {
            self.lemma_root();
        } else {
            self.lemma_walked(path.drop_last());
            self.lemma_stepped(self.walked(path.drop_last())->Ok_0, path.last());
        }
    }

    /// A step leads from a place of the tree to another.
    pub proof fn lemma_stepped(&self, at: Place<S>, step: Step)
        requires
            self.wf(),
            self.standing(at),
            self.stepped(at, step) is Ok,
        ensures
            self.standing(self.stepped(at, step)->Ok_0),
    {
        match step {
            Step::Action { index } => {
                self.lemma_decision(at.idx);
                let c = self.child(at.idx, index as int);
                assert(tree_laws::street_reached(self.node(c)) == self.node(at.idx).street);
            },
            Step::Card { text } => {
                let c = cards::text_card(text)->Ok_0;
                self.lemma_deal(at.idx, at.dealt, c as int);
            },
        }
    }

    /// A path that fails on the way fails.
    proof fn lemma_walk_stops(&self, path: Seq<Step>, n: int)
        requires
            0 <= n <= path.len(),
            self.walked(path.take(n)) is Err,
        ensures
            self.walked(path) == self.walked(path.take(n)),
        decreases path.len(),
    {
        if n == path.len() {
            assert(path.take(n) =~= path);
        } else {
            let rest = path.drop_last();
            assert(rest.take(n) =~= path.take(n));
            self.lemma_walk_stops(rest, n);
        }
    }

    /// Walk a path from the root, multiplying strategy reach along the way.
    pub fn walk_path(&self, path: &[PathStep]) -> (r: Result<Walk<S>, QueryError>)
        requires
            self.wf(),
        ensures
            match r {
                Ok(w) => {
                    &&& self.walked(steps(path@)) == Ok::<Place<S>, QueryFault>(w.place())
                    &&& self.standing(w.place())
                    &&& w.dealt.wf()
                },
                Err(e) => self.walked(steps(path@)) == Err::<Place<S>, QueryFault>(e.fault()),
            },
    {
        let mut node_idx: u32 = 0;
        let mut oop = copied(self.spot.weights[0].as_slice());
        let mut ip = copied(self.spot.weights[1].as_slice());
        let mut dealt: Dealt = Dealt::default();
        let ghost way = steps(path@);
        let mut i: usize = 0;
        proof {
            self.lemma_root();
            assert(way.take(0) =~= Seq::<Step>::empty());
        }
        while i < path.len()
            invariant
                i <= path@.len(),
                way == steps(path@),
                self.wf(),
                dealt.wf(),
                self.walked(way.take(i as int)) == Ok::<Place<S>, QueryFault>(
                    Place {
                        idx: node_idx as int,
                        oop: oop@,
                        ip: ip@,
                        dealt: dealt.list(),
                    },
                ),
                self.standing(
                    Place {
                        idx: node_idx as int,
                        oop: oop@,
                        ip: ip@,
                        dealt: dealt.list(),
                    },
                ),
            decreases path@.len() - i,
        {
            let ghost at = Place {
                idx: node_idx as int,
                oop: oop@,
                ip: ip@,
                dealt: dealt.list(),
            };
            let n = &self.spot.tree.nodes[node_idx as usize];
            let kind: u8 = n.kind;
            let ghost step = way[i as int];
            proof {
                assert(way.take(i + 1).drop_last() =~= way.take(i as int));
                assert(way.take(i + 1).last() == step);
                assert(self.walked(way.take(i + 1)) == self.stepped(at, step));
                if self.stepped(at, step) is Err {
                    self.lemma_walk_stops(way, i + 1);
                } else {
                    self.lemma_stepped(at, step);
                }
            }
            match &path[i] {
                PathStep::Action { index } => {
                    if kind != KIND_ACTION {
                        return Err(QueryError::StepMismatch);
                    }
                    let na: usize = n.num_children as usize;
                    if *index >= na {
                        return Err(QueryError::ActionIndex { index: *index });
                    }
                    proof {
                        self.lemma_decision(node_idx as int);
                    }
                    let sigma = self.average_strategy(node_idx);
                    if n.player == 0 {
                        oop = pass_action(oop.as_slice(), sigma.as_slice(), na, *index);
                    } else {
                        ip = pass_action(ip.as_slice(), sigma.as_slice(), na, *index);
                    }
                    let slots: usize = self.spot.tree.children.len();
                    node_idx = self.spot.tree.children[n.children_start as usize + *index];
                },
                PathStep::Card { card } => {
                    if kind != KIND_CHANCE {
                        return Err(QueryError::StepMismatch);
                    }
                    let c: Card = match card_from_str(card.as_str()) {
                        Ok(c) => c,
                        Err(error) => return Err(QueryError::Card { error }),
                    };
                    proof {
                        self.lemma_chance(node_idx as int);
                    }
                    let slots: usize = self.spot.tree.children.len();
                    let child: u32 = self.spot.tree.children[n.children_start as usize
                        + c as usize];
                    assert(child == self.child(node_idx as int, c as int));
                    if child == SENTINEL || dealt.contains(c) {
                        return Err(QueryError::CardUnavailable { card: card.clone() });
                    }
                    proof {
                        self.lemma_deal(node_idx as int, dealt.list(), c as int);
                    }
                    oop = pass_card(&self.spot.hands[0], &oop, c);
                    ip = pass_card(&self.spot.hands[1], &ip, c);
                    dealt = dealt.push(c);
                    node_idx = child;
                },
            }
            i = i + 1;
        }
        assert(way.take(i as int) =~= way);
        Ok(Walk { node_idx, reach: [oop, ip], dealt })
    }
}

} // verus!
