//! Looking at a preflop solution: nodes along a line of play, and spots to
//! solve further.

use crate::betting::Act;
use crate::classes;
use crate::classes::{class_prob, NUM_CLASSES};
use crate::num;
use crate::num::{smaller, Num, Single};
use crate::preflop_build;
use crate::preflop_build::arena_megabytes;
use crate::preflop_solver;
use crate::preflop_solver::{Field, PreflopSolver};
use crate::preflop_tree;
use crate::preflop_tree::{stack_to_pot, KIND_ACTION, KIND_FOLD_WIN, KIND_POT_SHARE};
use crate::preflop_values;
use crate::runouts;
use crate::runouts::action_frequencies;
use crate::seats;
use crate::seats::{count_seats, is_seated};
use crate::strategy;
use crate::strategy::{copied, pass_action};
use crate::text::{chars_of, string_of};
use vstd::prelude::*;

verus! {

/// Why a line of play cannot be shown or exported.
#[derive(Debug, Clone, Copy, PartialEq, Eq, Structural)]
pub enum PreflopQueryError {
    /// The line leaves the tree.
    BadPath,
    /// The line does not end on a flop between two live seats.
    NotHeadsUp,
}

/// An action with how often it is taken.
pub struct PActionFreq<S: Single> {
    pub label: String,
    pub kind: String,
    pub to: S::Wide,
    /// The frequency over the acting seat's range.
    pub freq: S,
}

/// A node along a line of play.
pub struct PfHistoryStep<S: Single> {
    /// `action`, `fold_win` or `pot_share`.
    pub kind: String,
    pub actor_pos: String,
    pub pot: S::Wide,
    pub actions: Vec<PActionFreq<S>>,
    /// The action that the line takes here; none at its end.
    pub chosen: Option<usize>,
}

/// A node of the solution.
pub struct PreflopNodeView<S: Single> {
    /// `action`, `fold_win` or `pot_share`.
    pub kind: String,
    pub actor: Option<usize>,
    pub actor_pos: Option<String>,
    pub positions: Vec<String>,
    pub pot: S::Wide,
    pub invested: Vec<S::Wide>,
    pub live: Vec<bool>,
    pub actions: Vec<PActionFreq<S>>,
    /// Where a seat acts: its average strategy, action by action.
    pub strategy: Option<Vec<S>>,
    /// Where a seat acts: the part of each class still in its range.
    pub reach: Option<Vec<S>>,
    /// Whether this is a flop between two seats.
    pub exportable: bool,
    /// The nodes of the line, this one last.
    pub history: Vec<PfHistoryStep<S>>,
    /// At shared pots: the stack behind over the pot.
    pub spr: Option<S::Wide>,
}

/// A flop between two seats, as a spot of its own.
pub struct PreflopExport<W> {
    pub oop_pos: String,
    pub ip_pos: String,
    pub range_oop: String,
    pub range_ip: String,
    pub pot_bb: W,
    pub eff_stack_bb: W,
}

// ---------------------------------------------------------------------------
// Walking a line
// ---------------------------------------------------------------------------

/// Where a line of play has got to.
pub ghost struct Standing<S> {
    pub node: int,
    pub reaches: Seq<Seq<S>>,
}

impl<S: Single> Field<S> {
    /// Where taking the `a`-th action leads, where there is one.
    pub open spec fn stepped(self, strat: Seq<S>, at: Standing<S>, a: usize) -> Option<
        Standing<S>,
    > {
        let nd = self.tree.nodes[at.node];
        if nd.kind == KIND_ACTION && a < nd.actions.len() {
            Some(
                Standing {
                    node: self.child(at.node, a as int),
                    reaches: preflop_solver::acted(
                        at.reaches,
                        nd.actor as int,
                        self.plays(strat, at.node),
                        a as int,
                    ),
                },
            )
        } else {
            None
        }
    }

    /// Where a line leads, with the ranges that get there by the average
    /// strategies; nothing where it leaves the tree.
    pub open spec fn led(self, strat: Seq<S>, path: Seq<usize>) -> Option<Standing<S>>
        decreases path.len(),
    {
        if path.len() == 0 {
            Some(Standing { node: 0, reaches: preflop_solver::at_root::<S>(self.n()) })
        } else {
            match self.led(strat, path.drop_last()) {
                Some(at) => self.stepped(strat, at, path.last()),
                None => None,
            }
        }
    }
}

proof fn lemma_led_stays<S: Single>(f: Field<S>, strat: Seq<S>, path: Seq<usize>, k: int)
    requires
        0 <= k <= path.len(),
        f.led(strat, path.take(k)) is None,
    ensures
        f.led(strat, path) is None,
    decreases path.len() - k,
{
    if k < path.len() {
        assert(path.take(k + 1).drop_last() =~= path.take(k));
        lemma_led_stays(f, strat, path, k + 1);
    } else {
        assert(path.take(k) =~= path);
    }
}

impl<S: Single> PreflopSolver<S> {
    /// The child that an action of a node leads to.
    pub fn child(&self, node: usize, a: usize) -> (r: usize)
        requires
            self.wf(),
            node < self.nodes@.len(),
            self.nodes@[node as int].kind == KIND_ACTION,
            a < self.nodes@[node as int].actions@.len(),
        ensures
            r == self.field().child(node as int, a as int),
            node < r < self.nodes@.len(),
    {
        proof {
            self.lemma_node(node as int);
            let nd = self.field().tree.nodes[node as int];
            assert(node < self.field().tree.children[nd.child_start + a] < self.nodes@.len());
        }
        let slots: usize = self.children.len();
        self.children[self.nodes[node].child_start as usize + a] as usize
    }

    /// Takes one step of a line. Tells whether there was one to take.
    fn step(&self, node: &mut usize, reaches: &mut Vec<Vec<S>>, a: usize) -> (r: bool)
        requires
            self.wf(),
            *old(node) < self.nodes@.len(),
            preflop_values::ranged(strategy::lines(old(reaches)@), self.n as int),
        ensures
            *final(node) < self.nodes@.len(),
            preflop_values::ranged(strategy::lines(final(reaches)@), self.n as int),
            ({
                let next = self.field().stepped(
                    self.strat_sum@,
                    Standing {
                        node: *old(node) as int,
                        reaches: strategy::lines(old(reaches)@),
                    },
                    a,
                );
                if r {
                    next == Some(
                        Standing {
                            node: *final(node) as int,
                            reaches: strategy::lines(final(reaches)@),
                        },
                    )
                } else {
                    next is None
                }
            }),
    {
        let at: usize = *node;
        proof {
            self.lemma_node(at as int);
        }
        if self.nodes[at].kind != KIND_ACTION || a >= self.nodes[at].actions.len() {
            return false;
        }
        let ghost was = strategy::lines(reaches@);
        let sigma = self.average_strategy(at);
        let actor: usize = self.nodes[at].actor as usize;
        assert(was[actor as int].len() == 169);
        let next = pass_action(
            reaches[actor].as_slice(),
            sigma.as_slice(),
            self.nodes[at].actions.len(),
            a,
        );
        reaches.set(actor, next);
        assert(strategy::lines(reaches@) =~= preflop_solver::acted(
            was,
            actor as int,
            sigma@,
            a as int,
        ));
        *node = self.child(at, a);
        true
    }

    /// Where a line leads and which ranges get there.
    pub fn walk(&self, path: &[usize]) -> (r: Result<(usize, Vec<Vec<S>>), PreflopQueryError>)
        requires
            self.wf(),
        ensures
            match r {
                Ok((node, reaches)) => {
                    &&& self.field().led(self.strat_sum@, path@) == Some(
                        Standing {
                            node: node as int,
                            reaches: strategy::lines(reaches@),
                        },
                    )
                    &&& node < self.nodes@.len()
                    &&& preflop_values::ranged(strategy::lines(reaches@), self.n as int)
                },
                Err(e) => self.field().led(self.strat_sum@, path@) is None && e
                    == PreflopQueryError::BadPath,
            },
    {
        let mut node: usize = 0;
        let mut reaches = self.root_reaches();
        let mut i: usize = 0;
        assert(path@.take(0) =~= Seq::<usize>::empty());
        while i < path.len()
            invariant
                i <= path@.len(),
                self.wf(),
                node < self.nodes@.len(),
                preflop_values::ranged(strategy::lines(reaches@), self.n as int),
                self.field().led(self.strat_sum@, path@.take(i as int)) == Some(
                    Standing { node: node as int, reaches: strategy::lines(reaches@) },
                ),
            decreases path@.len() - i,
        {
            assert(path@.take(i + 1).drop_last() =~= path@.take(i as int));
            if !self.step(&mut node, &mut reaches, path[i]) {
                proof {
                    lemma_led_stays(self.field(), self.strat_sum@, path@, i + 1);
                }
                return Err(PreflopQueryError::BadPath);
            }
            i = i + 1;
        }
        assert(path@.take(path@.len() as int) =~= path@);
        Ok((node, reaches))
    }
}

// ---------------------------------------------------------------------------
// What a node shows
// ---------------------------------------------------------------------------

/// Whether a line of the list shows an action with its frequency.
pub open spec fn shows_action<S: Single>(x: PActionFreq<S>, act: Act<S::Wide>, freq: S) -> bool {
    &&& x.label@ == act.label
    &&& x.kind@ == act.kind.text()
    &&& x.to == act.to
    &&& x.freq == freq
}

/// Whether a list shows the actions of a node with their frequencies.
pub open spec fn shows_actions<S: Single>(
    v: Seq<PActionFreq<S>>,
    f: Field<S>,
    strat: Seq<S>,
    at: Standing<S>,
) -> bool {
    let nd = f.tree.nodes[at.node];
    &&& v.len() == nd.actions.len()
    &&& forall|a: int|
        0 <= a < v.len() ==> shows_action(
            #[trigger] v[a],
            nd.actions[a],
            runouts::frequency(
                at.reaches[nd.actor as int],
                f.plays(strat, at.node),
                a,
            ),
        )
}

/// The word for a kind of node.
pub open spec fn kind_text(kind: u8) -> Seq<char> {
    if kind == KIND_ACTION {
        "action"@
    } else if kind == KIND_FOLD_WIN {
        "fold_win"@
    } else {
        "pot_share"@
    }
}

/// Whether a step of the history shows a node, and the action chosen there.
pub open spec fn shows_step<S: Single>(
    h: PfHistoryStep<S>,
    f: Field<S>,
    strat: Seq<S>,
    at: Standing<S>,
    chosen: Option<usize>,
) -> bool {
    let nd = f.tree.nodes[at.node];
    &&& h.kind@ == kind_text(nd.kind)
    &&& h.pot == nd.pot
    &&& h.chosen == chosen
    &&& if nd.kind == KIND_ACTION {
        h.actor_pos@ == f.cfg.positions@[nd.actor as int]@ && shows_actions(
            h.actions@,
            f,
            strat,
            at,
        )
    } else {
        h.actor_pos@ == ""@ && h.actions@.len() == 0
    }
}

/// The part of each class that is still in a range, at most all of it.
pub open spec fn kept<S: Num>(reach: Seq<S>) -> Seq<S> {
    Seq::new(
        169,
        |h: int|
            num::smaller_of(
                reach[h].over_spec(classes::class_chance::<S>(h)),
                S::decimal_spec(1, 0),
            ),
    )
}

/// Whether a view shows a node that a line has led to.
pub open spec fn shows_node<S: Single>(
    v: PreflopNodeView<S>,
    f: Field<S>,
    strat: Seq<S>,
    at: Standing<S>,
) -> bool {
    let nd = f.tree.nodes[at.node];
    &&& v.kind@ == kind_text(nd.kind)
    &&& v.positions@.len() == f.n()
    &&& forall|i: int|
        0 <= i < f.n() ==> (#[trigger] v.positions@[i])@ == f.cfg.positions@[i]@
    &&& v.pot == nd.pot
    &&& v.invested@ == nd.invested
    &&& v.live@ == Seq::new(f.n() as nat, |i: int| seats::seated(nd.live, i))
    &&& v.exportable == (nd.kind == KIND_POT_SHARE && seats::seats_in(nd.live, f.n()) == 2)
    &&& v.spr == if nd.kind == KIND_POT_SHARE {
        Some(preflop_tree::depth(f.cfg, nd.live, nd.invested, nd.pot))
    } else {
        None
    }
    &&& if nd.kind == KIND_ACTION {
        &&& v.actor == Some(nd.actor as usize)
        &&& v.actor_pos is Some
        &&& v.actor_pos->0@ == f.cfg.positions@[nd.actor as int]@
        &&& shows_actions(v.actions@, f, strat, at)
        &&& v.strategy is Some
        &&& v.strategy->0@ == f.plays(strat, at.node)
        &&& v.reach is Some
        &&& v.reach->0@ == kept(at.reaches[nd.actor as int])
    } else {
        &&& v.actor is None
        &&& v.actor_pos is None
        &&& v.actions@.len() == 0
        &&& v.strategy is None
        &&& v.reach is None
    }
}

/// Whether the `i`-th step of a history shows the line's `i`-th node.
pub open spec fn shows_line<S: Single>(
    h: PfHistoryStep<S>,
    f: Field<S>,
    strat: Seq<S>,
    path: Seq<usize>,
    i: int,
) -> bool {
    match f.led(strat, path.take(i)) {
        Some(at) => shows_step(
            h,
            f,
            strat,
            at,
            if i < path.len() {
                Some(path[i])
            } else {
                None
            },
        ),
        None => false,
    }
}

fn word(s: &str) -> (r: String)
    ensures
        r@ == s@,
{
    string_of(&chars_of(s))
}

fn kind_str(kind: u8) -> (r: String)
    ensures
        r@ == kind_text(kind),
{
    if kind == KIND_ACTION {
        word("action")
    } else if kind == KIND_FOLD_WIN {
        word("fold_win")
    } else {
        word("pot_share")
    }
}

fn kept_of<S: Num>(reach: &Vec<S>) -> (r: Vec<S>)
    requires
        reach@.len() == 169,
    ensures
        r@ == kept(reach@),
{
    let mut out: Vec<S> = Vec::new();
    let mut h: usize = 0;
    while h < NUM_CLASSES
        invariant
            h <= 169,
            reach@.len() == 169,
            out@ == kept(reach@).take(h as int),
        decreases 169 - h,
    {
        out.push(smaller(reach[h].over(class_prob(h)), S::decimal(1, 0)));
        assert(out@ =~= kept(reach@).take(h + 1));
        h = h + 1;
    }
    assert(out@ =~= kept(reach@));
    out
}

impl<S: Single> PreflopSolver<S> {
    /// The actions of a node, with how often the acting seat's range takes
    /// each of them.
    fn action_freqs(&self, node: usize, reaches: &Vec<Vec<S>>) -> (r: Vec<PActionFreq<S>>)
        requires
            self.wf(),
            node < self.nodes@.len(),
            self.nodes@[node as int].kind == KIND_ACTION,
            preflop_values::ranged(strategy::lines(reaches@), self.n as int),
        ensures
            shows_actions(
                r@,
                self.field(),
                self.strat_sum@,
                Standing { node: node as int, reaches: strategy::lines(reaches@) },
            ),
    {
        proof {
            self.lemma_node(node as int);
        }
        let ghost nd = self.field().tree.nodes[node as int];
        let actor: usize = self.nodes[node].actor as usize;
        let na: usize = self.nodes[node].actions.len();
        let sigma = self.average_strategy(node);
        assert(strategy::lines(reaches@)[actor as int] == reaches@[actor as int]@);
        let freqs = action_frequencies(reaches[actor].as_slice(), sigma.as_slice(), na);
        let mut out: Vec<PActionFreq<S>> = Vec::new();
        let mut a: usize = 0;
        while a < na
            invariant
                a <= na,
                node < self.nodes@.len(),
                nd == self.nodes@[node as int]@,
                na == nd.actions.len(),
                na == self.nodes@[node as int].actions@.len(),
                actor == nd.actor,
                actor < reaches@.len(),
                sigma@ == self.field().plays(self.strat_sum@, node as int),
                freqs@ == Seq::new(
                    na as nat,
                    |x: int| runouts::frequency(reaches@[actor as int]@, sigma@, x),
                ),
                out@.len() == a,
                forall|x: int|
                    0 <= x < a ==> shows_action(
                        #[trigger] out@[x],
                        nd.actions[x],
                        runouts::frequency(reaches@[actor as int]@, sigma@, x),
                    ),
            decreases na - a,
        {
            let act = &self.nodes[node].actions[a];
            assert(nd.actions[a as int] == act@);
            out.push(
                PActionFreq {
                    label: act.label.clone(),
                    kind: word(act.kind.name()),
                    to: act.to,
                    freq: freqs[a],
                },
            );
            a = a + 1;
        }
        out
    }

    fn history_step(&self, node: usize, reaches: &Vec<Vec<S>>, chosen: Option<usize>) -> (r:
        PfHistoryStep<S>)
        requires
            self.wf(),
            node < self.nodes@.len(),
            preflop_values::ranged(strategy::lines(reaches@), self.n as int),
        ensures
            shows_step(
                r,
                self.field(),
                self.strat_sum@,
                Standing { node: node as int, reaches: strategy::lines(reaches@) },
                chosen,
            ),
    {
        proof {
            self.lemma_node(node as int);
        }
        let kind: u8 = self.nodes[node].kind;
        if kind == KIND_ACTION {
            PfHistoryStep {
                kind: kind_str(kind),
                actor_pos: self.cfg.positions[self.nodes[node].actor as usize].clone(),
                pot: self.nodes[node].pot,
                actions: self.action_freqs(node, reaches),
                chosen,
            }
        } else {
            PfHistoryStep {
                kind: kind_str(kind),
                actor_pos: word(""),
                pot: self.nodes[node].pot,
                actions: Vec::new(),
                chosen,
            }
        }
    }

    fn live_flags(&self, live: u32) -> (r: Vec<bool>)
        requires
            self.wf(),
        ensures
            r@ == Seq::new(self.n as nat, |i: int| seats::seated(live, i)),
    {
        let mut out: Vec<bool> = Vec::new();
        let mut i: usize = 0;
        while i < self.n
            invariant
                i <= self.n <= 9,
                out@ == Seq::new(i as nat, |x: int| seats::seated(live, x)),
            decreases self.n - i,
        {
            out.push(is_seated(live, i));
            assert(out@ =~= Seq::new((i + 1) as nat, |x: int| seats::seated(live, x)));
            i = i + 1;
        }
        out
    }

    fn seat_names(&self) -> (r: Vec<String>)
        ensures
            r@.len() == self.cfg.positions@.len(),
            forall|i: int|
                0 <= i < r@.len() ==> (#[trigger] r@[i])@ == self.cfg.positions@[i]@,
    {
        let mut out: Vec<String> = Vec::new();
        let mut i: usize = 0;
        while i < self.cfg.positions.len()
            invariant
                i <= self.cfg.positions@.len(),
                out@.len() == i,
                forall|x: int|
                    0 <= x < i ==> (#[trigger] out@[x])@ == self.cfg.positions@[x]@,
            decreases self.cfg.positions@.len() - i,
        {
            out.push(self.cfg.positions[i].clone());
            i = i + 1;
        }
        out
    }

    /// The node that a line leads to, with the line's own nodes.
    pub fn node_view(&self, path: &[usize]) -> (r: Result<PreflopNodeView<S>, PreflopQueryError>)
        requires
            self.wf(),
        ensures
            match r {
                Ok(v) => {
                    &&& self.field().led(self.strat_sum@, path@) is Some
                    &&& shows_node(
                        v,
                        self.field(),
                        self.strat_sum@,
                        self.field().led(self.strat_sum@, path@)->0,
                    )
                    &&& v.history@.len() == path@.len() + 1
                    &&& forall|i: int|
                        0 <= i <= path@.len() ==> shows_line(
                            #[trigger] v.history@[i],
                            self.field(),
                            self.strat_sum@,
                            path@,
                            i,
                        )
                },
                Err(e) => self.field().led(self.strat_sum@, path@) is None && e
                    == PreflopQueryError::BadPath,
            },
    {
        let mut node: usize = 0;
        let mut reaches = self.root_reaches();
        let mut history: Vec<PfHistoryStep<S>> = Vec::new();
        let mut i: usize = 0;
        assert(path@.take(0) =~= Seq::<usize>::empty());
        while i < path.len()
            invariant
                i <= path@.len(),
                self.wf(),
                node < self.nodes@.len(),
                preflop_values::ranged(strategy::lines(reaches@), self.n as int),
                self.field().led(self.strat_sum@, path@.take(i as int)) == Some(
                    Standing { node: node as int, reaches: strategy::lines(reaches@) },
                ),
                history@.len() == i,
                forall|x: int|
                    0 <= x < i ==> shows_line(
                        #[trigger] history@[x],
                        self.field(),
                        self.strat_sum@,
                        path@,
                        x,
                    ),
            decreases path@.len() - i,
        {
            assert(path@.take(i + 1).drop_last() =~= path@.take(i as int));
            let shown = self.history_step(node, &reaches, Some(path[i]));
            if !self.step(&mut node, &mut reaches, path[i]) {
                proof {
                    lemma_led_stays(self.field(), self.strat_sum@, path@, i + 1);
                }
                return Err(PreflopQueryError::BadPath);
            }
            history.push(shown);
            i = i + 1;
        }
        assert(path@.take(path@.len() as int) =~= path@);
        history.push(self.history_step(node, &reaches, None));
        proof {
            self.lemma_node(node as int);
        }
        let ghost at = Standing { node: node as int, reaches: strategy::lines(reaches@) };
        let nd = &self.nodes[node];
        let exportable: bool = nd.kind == KIND_POT_SHARE && count_seats(nd.live, self.n) == 2;
        let spr = if nd.kind == KIND_POT_SHARE {
            Some(stack_to_pot(&self.cfg, nd.live, &nd.invested, nd.pot))
        } else {
            None
        };
        if nd.kind == KIND_ACTION {
            let actor: usize = nd.actor as usize;
            assert(at.reaches[actor as int] == reaches@[actor as int]@);
            assert(at.reaches[actor as int].len() == 169);
            let v = PreflopNodeView {
                kind: kind_str(nd.kind),
                actor: Some(actor),
                actor_pos: Some(self.cfg.positions[actor].clone()),
                positions: self.seat_names(),
                pot: nd.pot,
                invested: copied(nd.invested.as_slice()),
                live: self.live_flags(nd.live),
                actions: self.action_freqs(node, &reaches),
                strategy: Some(self.average_strategy(node)),
                reach: Some(kept_of(&reaches[actor])),
                exportable,
                history,
                spr,
            };
            assert(shows_node(v, self.field(), self.strat_sum@, at));
            Ok(v)
        } else {
            let v = PreflopNodeView {
                kind: kind_str(nd.kind),
                actor: None,
                actor_pos: None,
                positions: self.seat_names(),
                pot: nd.pot,
                invested: copied(nd.invested.as_slice()),
                live: self.live_flags(nd.live),
                actions: Vec::new(),
                strategy: None,
                reach: None,
                exportable,
                history,
                spr,
            };
            assert(shows_node(v, self.field(), self.strat_sum@, at));
            Ok(v)
        }
    }

    /// The memory of both arenas, in megabytes.
    pub fn arena_mb(&self) -> (r: S::Wide)
        requires
            self.wf(),
        ensures
            r == preflop_build::megabytes::<S::Wide>(self.arena_len as int),
    {
        arena_megabytes(self.arena_len as u64)
    }
}

} // verus!
