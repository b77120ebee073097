//! Building the tree of a preflop game, and counting it without building.

use crate::betting;
use crate::betting::{
    bucket_of, legal_actions_of, next_actor_of, next_state_of, root_state, BuildState, Round,
};
use crate::classes::NUM_CLASSES;
use crate::num;
use crate::num::{total, Num, Single};
use crate::preflop::{validate, PreflopConfig, PreflopError};
use crate::preflop_tree;
use crate::preflop_tree::{
    realization_weights, Knot, PNode, KIND_ACTION, KIND_FOLD_WIN, KIND_POT_SHARE,
};
use crate::seats;
use crate::seats::{count_seats, full_table, lowest_seat};
use crate::strategy::copied;
use vstd::prelude::*;

verus! {

/// How large a tree may get.
#[derive(Clone, Copy)]
pub struct TreeLimits<W> {
    pub nodes: u64,
    /// The memory of both arenas, in megabytes.
    pub arena_mb: W,
}

/// The memory of both arenas of `cells` cells each, in megabytes.
pub open spec fn megabytes<W: Num>(cells: int) -> W {
    W::decimal_spec(cells as i64, 0).times_spec(W::decimal_spec(8, 0)).over_spec(
        W::decimal_spec(1_000_000, 0),
    )
}

/// [`megabytes`], computed.
pub fn arena_megabytes<W: Num>(cells: u64) -> (r: W)
    requires
        cells <= i64::MAX,
    ensures
        r == megabytes::<W>(cells as int),
{
    W::decimal(cells as i64, 0).times(W::decimal(8, 0)).over(W::decimal(1_000_000, 0))
}

/// The cells that an acting node with `na` actions takes up in an arena.
pub open spec fn cells(na: nat) -> int {
    na as int * 169
}

// ---------------------------------------------------------------------------
// Counting
// ---------------------------------------------------------------------------

/// How large a tree is.
#[derive(Debug, Clone, Copy, PartialEq, Eq, Structural)]
pub struct TreeEstimate {
    pub nodes: u64,
    pub action_nodes: u64,
    /// The cells of one arena.
    pub arena_len: u64,
    /// Whether the count stopped early.
    pub truncated: bool,
}

/// A [`TreeEstimate`] as a mathematical value.
pub ghost struct Tally {
    pub nodes: int,
    pub action_nodes: int,
    pub arena_len: int,
    pub truncated: bool,
}

impl View for TreeEstimate {
    type V = Tally;

    open spec fn view(&self) -> Tally {
        Tally {
            nodes: self.nodes as int,
            action_nodes: self.action_nodes as int,
            arena_len: self.arena_len as int,
            truncated: self.truncated,
        }
    }
}

/// Whether only one seat is left in a round.
pub open spec fn decided<W>(n: int, st: Round<W>) -> bool {
    seats::seats_in(seats::table_of(n) & !st.folded, n) == 1
}

/// The tally with the tree below a round counted in, up to `cap` nodes.
pub open spec fn counted<W: Num>(
    cfg: PreflopConfig<W>,
    n: int,
    cap: int,
    t: Tally,
    st: Round<W>,
) -> Tally
    decreases cfg.max_raises - st.raises, seats::seats_in(st.needs, n), 1int, 0int,
{
    if t.truncated {
        t
    } else if t.nodes + 1 > cap {
        Tally { nodes: t.nodes + 1, truncated: true, ..t }
    } else {
        let met = Tally { nodes: t.nodes + 1, ..t };
        if decided(n, st) {
            met
        } else {
            match betting::actor_of(n, st) {
                None => met,
                Some(actor) => {
                    let acts = betting::legal(cfg, st, actor);
                    if t.arena_len + cells(acts.len()) > isize::MAX {
                        Tally { truncated: true, ..met }
                    } else {
                        counted_from(
                            cfg,
                            n,
                            cap,
                            Tally {
                                action_nodes: t.action_nodes + 1,
                                arena_len: t.arena_len + cells(acts.len()),
                                ..met
                            },
                            st,
                            actor,
                            0,
                        )
                    }
                },
            }
        }
    }
}

/// The tally with the trees below the actions from the `k`-th on counted in.
pub open spec fn counted_from<W: Num>(
    cfg: PreflopConfig<W>,
    n: int,
    cap: int,
    t: Tally,
    st: Round<W>,
    actor: int,
    k: int,
) -> Tally
    decreases
        cfg.max_raises - st.raises,
        seats::seats_in(st.needs, n),
        0int,
        betting::legal(cfg, st, actor).len() - k,
{
    let acts = betting::legal(cfg, st, actor);
    if k < 0 || k >= acts.len() {
        t
    } else {
        let later = betting::after(cfg, n, st, actor, acts[k]);
        if betting::nearer_end(cfg, n, later, st) {
            counted_from(cfg, n, cap, counted(cfg, n, cap, t, later), st, actor, k + 1)
        } else {
            t
        }
    }
}

/// Where the counting stops: a little past the limit, and between three and
/// twelve million.
pub open spec fn cap_of(limit_nodes: int) -> int {
    let past = limit_nodes + limit_nodes / 10;
    if past < 3_000_000 {
        3_000_000
    } else if past > 12_000_000 {
        12_000_000
    } else {
        past
    }
}

/// The size of a game's tree.
pub open spec fn size_of<W: Num>(cfg: PreflopConfig<W>, limit_nodes: int) -> Tally {
    let n = cfg.positions@.len() as int;
    counted(
        cfg,
        n,
        cap_of(limit_nodes),
        Tally { nodes: 0, action_nodes: 0, arena_len: 0, truncated: false },
        betting::opening(cfg, n),
    )
}

fn count_walk<W: Num>(
    cfg: &PreflopConfig<W>,
    n: usize,
    st: BuildState<W>,
    est: &mut TreeEstimate,
    cap: u64,
)
    requires
        betting::sits(n as int, st@),
        !old(est).truncated ==> old(est).nodes <= cap,
        old(est).nodes <= cap + 1,
        old(est).action_nodes <= old(est).nodes,
        old(est).arena_len <= isize::MAX,
        cap <= 12_000_000,
    ensures
        final(est)@ == counted(*cfg, n as int, cap as int, old(est)@, st@),
        !final(est).truncated ==> final(est).nodes <= cap,
        final(est).nodes <= cap + 1,
        final(est).action_nodes <= final(est).nodes,
        final(est).arena_len <= isize::MAX,
    decreases cfg.max_raises - st.raises, seats::seats_in(st.needs, n as int), 1int,
{
    if est.truncated {
        return ;
    }
    if est.nodes + 1 > cap {
        est.nodes = est.nodes + 1;
        est.truncated = true;
        return ;
    }
    est.nodes = est.nodes + 1;
    let live = full_table(n) & !st.folded;
    if count_seats(live, n) == 1 {
        return ;
    }
    let actor = match next_actor_of(n, &st) {
        Some(actor) => actor,
        None => {
            return ;
        },
    };
    let acts = legal_actions_of(cfg, &st, actor);
    let ghost legal = betting::legal(*cfg, st@, actor as int);
    assert(acts@.len() == legal.len()) by {
        assert(betting::acts(acts@).len() == acts@.len());
    }
    let room: u64 = isize::MAX as u64 - est.arena_len;
    if acts.len() as u64 > room / 169 {
        est.truncated = true;
        return ;
    }
    est.action_nodes = est.action_nodes + 1;
    est.arena_len = est.arena_len + acts.len() as u64 * 169;
    let mut k: usize = 0;
    let ghost goal = counted_from(*cfg, n as int, cap as int, est@, st@, actor as int, 0);
    while k < acts.len()
        invariant
            k <= acts@.len(),
            acts@.len() == legal.len(),
            betting::acts(acts@) == legal,
            legal == betting::legal(*cfg, st@, actor as int),
            betting::sits(n as int, st@),
            actor < n,
            betting::actor_of(n as int, st@) == Some(actor as int),
            cap <= 12_000_000,
            !est.truncated ==> est.nodes <= cap,
            est.nodes <= cap + 1,
            est.action_nodes <= est.nodes,
            est.arena_len <= isize::MAX,
            goal == counted_from(*cfg, n as int, cap as int, est@, st@, actor as int, k as int),
        decreases acts@.len() - k,
    {
        proof {
            betting::lemma_nearer_end(*cfg, n as int, st@, actor as int, k as int);
            assert(betting::acts(acts@)[k as int] == acts@[k as int]@);
            if acts@[k as int].kind is Raise || acts@[k as int].kind is Jam {
                betting::lemma_legal_raise(*cfg, st@, actor as int, k as int);
            }
        }
        let later = next_state_of(cfg, n, &st, actor, &acts[k]);
        count_walk(cfg, n, later, est, cap);
        k = k + 1;
    }
}

/// The size of the tree that a game would build, counted without building
/// it. `limit_nodes` is the most nodes that a tree may have.
pub fn estimate_tree<W: Num>(cfg: &PreflopConfig<W>, limit_nodes: u64) -> (r: Result<
    TreeEstimate,
    PreflopError,
>)
    requires
        limit_nodes + limit_nodes / 10 <= u64::MAX,
    ensures
        match r {
            Ok(est) => cfg.fault() is None && est@ == size_of(*cfg, limit_nodes as int),
            Err(e) => cfg.fault() == Some(e),
        },
        r is Ok ==> r->Ok_0.arena_len <= isize::MAX,
{
    let n = match validate(cfg) {
        Ok(n) => n,
        Err(e) => {
            return Err(e);
        },
    };
    let past: u64 = limit_nodes + limit_nodes / 10;
    let cap: u64 = if past < 3_000_000 {
        3_000_000
    } else if past > 12_000_000 {
        12_000_000
    } else {
        past
    };
    let mut est = TreeEstimate { nodes: 0, action_nodes: 0, arena_len: 0, truncated: false };
    count_walk(cfg, n, root_state(cfg, n), &mut est, cap);
    Ok(est)
}

// ---------------------------------------------------------------------------
// Building
// ---------------------------------------------------------------------------

/// A tree in the making.
pub struct Builder<S: Single> {
    pub nodes: Vec<PNode<S>>,
    pub children: Vec<u32>,
    /// The cells of one arena that the nodes take up.
    pub arena_len: usize,
}

/// A [`Builder`] as a mathematical value.
pub ghost struct Grown<S: Single> {
    pub nodes: Seq<Knot<S>>,
    pub children: Seq<u32>,
    pub arena_len: int,
}

impl<S: Single> View for Builder<S> {
    type V = Grown<S>;

    open spec fn view(&self) -> Grown<S> {
        Grown {
            nodes: preflop_tree::knots(self.nodes@),
            children: self.children@,
            arena_len: self.arena_len as int,
        }
    }
}

/// The node at which all seats but one have folded.
pub open spec fn won_knot<S: Single>(n: int, st: Round<S::Wide>) -> Knot<S> {
    let live = seats::table_of(n) & !st.folded;
    let winner = seats::first_seat(live, n) as u8;
    Knot {
        kind: KIND_FOLD_WIN,
        actor: winner,
        actions: Seq::empty(),
        child_start: 0,
        pot: num::total_of(st.invested),
        invested: st.invested,
        live,
        winner,
        r: Seq::empty(),
        posf: Seq::empty(),
        bucket: 0,
        data_off: 0,
    }
}

/// The node at which the live seats share the pot.
pub open spec fn shared_knot<S: Single>(
    cfg: PreflopConfig<S::Wide>,
    n: int,
    st: Round<S::Wide>,
) -> Knot<S> {
    let live = seats::table_of(n) & !st.folded;
    let pot = num::total_of(st.invested);
    Knot {
        kind: KIND_POT_SHARE,
        actor: 0,
        actions: Seq::empty(),
        child_start: 0,
        pot,
        invested: st.invested,
        live,
        winner: 0,
        r: preflop_tree::weights::<S>(cfg, live, st.invested, pot),
        posf: preflop_tree::standings::<S>(cfg, live, n),
        bucket: 0,
        data_off: 0,
    }
}

/// The node at which a seat acts, its children not yet known.
pub open spec fn acting_knot<S: Single>(
    cfg: PreflopConfig<S::Wide>,
    n: int,
    st: Round<S::Wide>,
    actor: int,
    arena_len: int,
) -> Knot<S> {
    Knot {
        kind: KIND_ACTION,
        actor: actor as u8,
        actions: betting::legal(cfg, st, actor),
        child_start: 0,
        pot: num::total_of(st.invested),
        invested: st.invested,
        live: seats::table_of(n) & !st.folded,
        winner: 0,
        r: Seq::empty(),
        posf: Seq::empty(),
        bucket: betting::situation(st),
        data_off: arena_len as usize,
    }
}

/// Whether a tree in the making is past its limits.
pub open spec fn over<S: Single>(limits: TreeLimits<S::Wide>, g: Grown<S>) -> bool {
    g.nodes.len() > limits.nodes || limits.arena_mb.below_spec(megabytes::<S::Wide>(g.arena_len))
}

/// The tree with what lies below a round grown in, and the node that stands
/// for the round; nothing where that passes the limits or the range of node
/// numbers.
pub open spec fn grown<S: Single>(
    cfg: PreflopConfig<S::Wide>,
    n: int,
    limits: TreeLimits<S::Wide>,
    g: Grown<S>,
    st: Round<S::Wide>,
) -> Option<(Grown<S>, u32)>
    decreases cfg.max_raises - st.raises, seats::seats_in(st.needs, n), 1int, 0int,
{
    if g.nodes.len() >= u32::MAX {
        None
    } else if decided(n, st) {
        Some((Grown { nodes: g.nodes.push(won_knot(n, st)), ..g }, g.nodes.len() as u32))
    } else {
        match betting::actor_of(n, st) {
            None => Some(
                (Grown { nodes: g.nodes.push(shared_knot(cfg, n, st)), ..g }, g.nodes.len() as u32),
            ),
            Some(actor) => {
                let na = betting::legal(cfg, st, actor).len();
                let met = Grown {
                    nodes: g.nodes.push(acting_knot(cfg, n, st, actor, g.arena_len)),
                    children: g.children,
                    arena_len: g.arena_len + cells(na),
                };
                if met.arena_len > isize::MAX || over(limits, met) {
                    None
                } else {
                    match grown_from(cfg, n, limits, met, st, actor, Seq::empty()) {
                        None => None,
                        Some((all, kids)) => if all.children.len() + kids.len() > u32::MAX {
                            None
                        } else {
                            Some(
                                (
                                    Grown {
                                        nodes: all.nodes.update(
                                            g.nodes.len() as int,
                                            Knot {
                                                child_start: all.children.len() as u32,
                                                ..met.nodes.last()
                                            },
                                        ),
                                        children: all.children + kids,
                                        arena_len: all.arena_len,
                                    },
                                    g.nodes.len() as u32,
                                ),
                            )
                        },
                    }
                }
            },
        }
    }
}

/// The tree with what lies below the actions that have no node yet grown in,
/// and the nodes of all the actions.
pub open spec fn grown_from<S: Single>(
    cfg: PreflopConfig<S::Wide>,
    n: int,
    limits: TreeLimits<S::Wide>,
    g: Grown<S>,
    st: Round<S::Wide>,
    actor: int,
    kids: Seq<u32>,
) -> Option<(Grown<S>, Seq<u32>)>
    decreases
        cfg.max_raises - st.raises,
        seats::seats_in(st.needs, n),
        0int,
        betting::legal(cfg, st, actor).len() - kids.len(),
{
    let acts = betting::legal(cfg, st, actor);
    if kids.len() >= acts.len() {
        Some((g, kids))
    } else {
        let later = betting::after(cfg, n, st, actor, acts[kids.len() as int]);
        if betting::nearer_end(cfg, n, later, st) {
            match grown(cfg, n, limits, g, later) {
                None => None,
                Some((next, kid)) => grown_from(
                    cfg,
                    n,
                    limits,
                    next,
                    st,
                    actor,
                    kids.push(kid),
                ),
            }
        } else {
            None
        }
    }
}

/// A tree without nodes.
pub open spec fn bare<S: Single>() -> Grown<S> {
    Grown { nodes: Seq::empty(), children: Seq::empty(), arena_len: 0 }
}

/// A game's tree, unless it passes its limits.
pub open spec fn tree_of<S: Single>(
    cfg: PreflopConfig<S::Wide>,
    limits: TreeLimits<S::Wide>,
) -> Option<Grown<S>> {
    let n = cfg.positions@.len() as int;
    match grown(cfg, n, limits, bare::<S>(), betting::opening(cfg, n)) {
        Some((g, _)) => Some(g),
        None => None,
    }
}

impl<S: Single> Builder<S> {
    fn push_leaf(&mut self, node: PNode<S>) -> (r: u32)
        requires
            old(self).nodes@.len() < u32::MAX,
        ensures
            final(self)@ == (Grown { nodes: old(self)@.nodes.push(node@), ..old(self)@ }),
            r == old(self)@.nodes.len(),
    {
        let idx: u32 = self.nodes.len() as u32;
        let ghost was = self@.nodes;
        self.nodes.push(node);
        assert(self@.nodes =~= was.push(node@));
        idx
    }

    /// Grows what lies below a round into the tree.
    pub fn build(
        &mut self,
        cfg: &PreflopConfig<S::Wide>,
        n: usize,
        limits: &TreeLimits<S::Wide>,
        st: BuildState<S::Wide>,
    ) -> (r: Result<u32, PreflopError>)
        requires
            betting::sits(n as int, st@),
            cfg.posts@.len() == n,
            old(self).arena_len <= isize::MAX,
        ensures
            final(self).arena_len <= isize::MAX,
            match r {
                Ok(idx) => grown(*cfg, n as int, *limits, old(self)@, st@) == Some(
                    (final(self)@, idx),
                ),
                Err(e) => grown(*cfg, n as int, *limits, old(self)@, st@) is None && e
                    == PreflopError::TooLarge,
            },
        decreases cfg.max_raises - st.raises, seats::seats_in(st.needs, n as int), 1int,
    {
        if self.nodes.len() >= u32::MAX as usize {
            return Err(PreflopError::TooLarge);
        }
        let ghost start = self@;
        let live = full_table(n) & !st.folded;
        let pot = total(st.invested.as_slice());
        if count_seats(live, n) == 1 {
            proof {
                seats::lemma_first_seat(live, n as int);
            }
            let winner: u8 = lowest_seat(live, n) as u8;
            let node = PNode {
                kind: KIND_FOLD_WIN,
                actor: winner,
                actions: Vec::new(),
                child_start: 0,
                pot,
                invested: copied(st.invested.as_slice()),
                live,
                winner,
                r: Vec::new(),
                posf: Vec::new(),
                bucket: 0,
                data_off: 0,
            };
            assert(node@.actions =~= won_knot::<S>(n as int, st@).actions);
            assert(node@ == won_knot::<S>(n as int, st@));
            return Ok(self.push_leaf(node));
        }
        let actor = match next_actor_of(n, &st) {
            Some(actor) => actor,
            None => {
                let (r, posf) = realization_weights::<S>(cfg, live, &st.invested, pot);
                let node = PNode {
                    kind: KIND_POT_SHARE,
                    actor: 0,
                    actions: Vec::new(),
                    child_start: 0,
                    pot,
                    invested: copied(st.invested.as_slice()),
                    live,
                    winner: 0,
                    r,
                    posf,
                    bucket: 0,
                    data_off: 0,
                };
                assert(node@.actions =~= shared_knot::<S>(*cfg, n as int, st@).actions);
                assert(node@ == shared_knot::<S>(*cfg, n as int, st@));
                return Ok(self.push_leaf(node));
            },
        };
        let acts = legal_actions_of(cfg, &st, actor);
        let ghost legal = betting::legal(*cfg, st@, actor as int);
        let na: usize = acts.len();
        assert(betting::acts(acts@).len() == na);
        let off: usize = self.arena_len;
        let idx: usize = self.nodes.len();
        if na > (isize::MAX as usize - off) / 169 {
            return Err(PreflopError::TooLarge);
        }
        let node = PNode {
            kind: KIND_ACTION,
            actor: actor as u8,
            actions: acts,
            child_start: 0,
            pot,
            invested: copied(st.invested.as_slice()),
            live,
            winner: 0,
            r: Vec::new(),
            posf: Vec::new(),
            bucket: bucket_of(&st),
            data_off: off,
        };
        assert(node@ == acting_knot::<S>(*cfg, n as int, st@, actor as int, off as int));
        let _ = self.push_leaf(node);
        self.arena_len = off + na * NUM_CLASSES;
        let ghost met = self@;
        assert(met.nodes =~= start.nodes.push(
            acting_knot(*cfg, n as int, st@, actor as int, off as int),
        ));
        if self.nodes.len() as u64 > limits.nodes || limits.arena_mb.below(
            arena_megabytes(self.arena_len as u64),
        ) {
            return Err(PreflopError::TooLarge);
        }
        assert(self@.nodes[idx as int] == self.nodes@[idx as int]@);
        assert(self.nodes@[idx as int]@.actions == legal);
        let mut kids: Vec<u32> = Vec::new();
        let ghost goal = grown_from(*cfg, n as int, *limits, met, st@, actor as int, Seq::empty());
        let mut k: usize = 0;
        while k < na
            invariant
                k <= na == legal.len(),
                kids@.len() == k,
                legal == betting::legal(*cfg, st@, actor as int),
                idx < self.nodes@.len(),
                betting::acts(self.nodes@[idx as int].actions@) == legal,
                self.nodes@[idx as int]@ == met.nodes.last(),
                self.nodes@.len() >= met.nodes.len(),
                met.nodes.len() == idx + 1,
                betting::sits(n as int, st@),
                cfg.posts@.len() == n,
                self.arena_len <= isize::MAX,
                actor < n,
                betting::actor_of(n as int, st@) == Some(actor as int),
                goal == grown_from(*cfg, n as int, *limits, self@, st@, actor as int, kids@),
                start == old(self)@,
                grown(*cfg, n as int, *limits, start, st@) is None <== goal is None,
            decreases na - k,
        {
            proof {
                betting::lemma_nearer_end(*cfg, n as int, st@, actor as int, k as int);
                assert(betting::acts(self.nodes@[idx as int].actions@)[k as int]
                    == self.nodes@[idx as int].actions@[k as int]@);
                if legal[k as int].kind is Raise || legal[k as int].kind is Jam {
                    betting::lemma_legal_raise(*cfg, st@, actor as int, k as int);
                }
            }
            let ghost before = self@;
            let later = next_state_of(cfg, n, &st, actor, &self.nodes[idx].actions[k]);
            match self.build(cfg, n, limits, later) {
                Ok(kid) => {
                    proof {
                        lemma_grown(*cfg, n as int, *limits, before, later@);
                        assert(self@.nodes[idx as int] == before.nodes[idx as int]);
                        assert(self@.nodes[idx as int] == self.nodes@[idx as int]@);
                    }
                    kids.push(kid);
                },
                Err(e) => {
                    return Err(e);
                },
            }
            k = k + 1;
        }
        if self.children.len() > u32::MAX as usize || na > u32::MAX as usize - self.children.len() {
            return Err(PreflopError::TooLarge);
        }
        let first: u32 = self.children.len() as u32;
        let ghost all = self@;
        let mut j: usize = 0;
        while j < kids.len()
            invariant
                j <= kids@.len(),
                self@.nodes == all.nodes,
                self.nodes@.len() > idx,
                self.arena_len == all.arena_len,
                self.arena_len <= isize::MAX,
                self.children@ == all.children + kids@.take(j as int),
            decreases kids@.len() - j,
        {
            self.children.push(kids[j]);
            assert(self.children@ =~= all.children + kids@.take(j + 1));
            j = j + 1;
        }
        assert(kids@.take(kids@.len() as int) =~= kids@);
        let ghost node_was = self.nodes@[idx as int];
        let ghost nodes_were = self.nodes@;
        self.nodes[idx].child_start = first;
        proof {
            assert(node_was@ == all.nodes[idx as int]);
            assert(self@.nodes =~= all.nodes.update(
                idx as int,
                Knot { child_start: first, ..met.nodes.last() },
            ));
        }
        Ok(idx as u32)
    }
}

// ---------------------------------------------------------------------------
// What every tree is like
// ---------------------------------------------------------------------------

/// Whether the `i`-th node of a tree stands in order: its parts fit the
/// table, its block fits the arenas, and its children come after it.
pub open spec fn knot_sound<S: Single>(n: int, g: Grown<S>, i: int) -> bool {
    let nd = g.nodes[i];
    &&& nd.invested.len() == n
    &&& nd.kind <= KIND_POT_SHARE
    &&& nd.kind == KIND_FOLD_WIN ==> nd.winner < n
    &&& nd.kind == KIND_POT_SHARE ==> nd.r.len() == n && nd.posf.len() == n
    &&& nd.kind == KIND_ACTION ==> {
        &&& nd.actor < n
        &&& nd.bucket < betting::NUM_BUCKETS
        &&& 1 <= nd.actions.len()
        &&& nd.data_off + cells(nd.actions.len()) <= g.arena_len
        &&& nd.child_start + nd.actions.len() <= g.children.len()
        &&& forall|a: int|
            0 <= a < nd.actions.len() ==> i < #[trigger] g.children[nd.child_start + a]
                < g.nodes.len()
    }
}

/// Growing a tree leaves what is there as it is.
pub open spec fn extends<S: Single>(g: Grown<S>, more: Grown<S>) -> bool {
    &&& g.nodes.len() <= more.nodes.len()
    &&& forall|i: int| 0 <= i < g.nodes.len() ==> #[trigger] more.nodes[i] == g.nodes[i]
    &&& g.children.len() <= more.children.len()
    &&& forall|i: int| 0 <= i < g.children.len() ==> #[trigger] more.children[i] == g.children[i]
    &&& g.arena_len <= more.arena_len
}

proof fn lemma_sound_stays<S: Single>(n: int, g: Grown<S>, more: Grown<S>, i: int)
    requires
        extends(g, more),
        0 <= i < g.nodes.len(),
        knot_sound(n, g, i),
    ensures
        knot_sound(n, more, i),
{
    let nd = g.nodes[i];
    assert(more.nodes[i] == nd);
    if nd.kind == KIND_ACTION {
        assert forall|a: int| 0 <= a < nd.actions.len() implies i < #[trigger] more.children[
        nd.child_start + a] < more.nodes.len() by {
            assert(more.children[nd.child_start + a] == g.children[nd.child_start + a]);
        }
    }
}

/// What grows below a round stands in order, and leaves the rest alone.
pub proof fn lemma_grown<S: Single>(
    cfg: PreflopConfig<S::Wide>,
    n: int,
    limits: TreeLimits<S::Wide>,
    g: Grown<S>,
    st: Round<S::Wide>,
)
    requires
        betting::sits(n, st),
        0 <= g.arena_len <= isize::MAX,
        grown(cfg, n, limits, g, st) is Some,
    ensures
        ({
            let (more, idx) = grown(cfg, n, limits, g, st)->0;
            &&& extends(g, more)
            &&& idx == g.nodes.len()
            &&& idx < more.nodes.len() <= u32::MAX
            &&& more.arena_len <= isize::MAX
            &&& forall|i: int| idx <= i < more.nodes.len() ==> #[trigger] knot_sound(n, more, i)
        }),
    decreases cfg.max_raises - st.raises, seats::seats_in(st.needs, n), 1int, 0int,
{
    let (more, idx) = grown(cfg, n, limits, g, st)->0;
    if decided(n, st) {
        let live = seats::table_of(n) & !st.folded;
        seats::lemma_first_seat(live, n);
        assert(more.nodes[idx as int] == won_knot::<S>(n, st));
        assert(knot_sound(n, more, idx as int));
    } else {
        match betting::actor_of(n, st) {
            None => {
                let live = seats::table_of(n) & !st.folded;
                preflop_tree::lemma_weights::<S>(
                    cfg,
                    live,
                    st.invested,
                    num::total_of(st.invested),
                );
                assert(more.nodes[idx as int] == shared_knot::<S>(cfg, n, st));
                assert(knot_sound(n, more, idx as int));
            },
            Some(actor) => {
                betting::lemma_actor(n, st, 0);
                let acts = betting::legal(cfg, st, actor);
                let met = Grown {
                    nodes: g.nodes.push(acting_knot(cfg, n, st, actor, g.arena_len)),
                    children: g.children,
                    arena_len: g.arena_len + cells(acts.len()),
                };
                lemma_grown_from(cfg, n, limits, met, st, actor, Seq::empty());
                let (all, kids) = grown_from(cfg, n, limits, met, st, actor, Seq::empty())->0;
                let full = Grown { children: all.children + kids, ..all };
                assert(all.nodes[idx as int] == met.nodes[idx as int]);
                assert forall|i: int| 0 <= i < g.nodes.len() implies #[trigger] more.nodes[i]
                    == g.nodes[i] by {
                    assert(all.nodes[i] == met.nodes[i]);
                }
                assert forall|i: int| 0 <= i < g.children.len() implies #[trigger] more.children[i]
                    == g.children[i] by {
                    assert(all.children[i] == met.children[i]);
                }
                assert(extends(all, full));
                assert forall|i: int| idx <= i < more.nodes.len() implies #[trigger] knot_sound(
                    n,
                    more,
                    i,
                ) by {
                    if i == idx {
                        assert forall|a: int| 0 <= a < acts.len() implies idx
                            < #[trigger] more.children[more.nodes[i].child_start + a]
                            < more.nodes.len() by {
                            assert(more.children[more.nodes[i].child_start + a] == kids[a]);
                        }
                    } else {
                        lemma_sound_stays(n, all, full, i);
                        let nd = full.nodes[i];
                        assert(more.nodes[i] == nd);
                        if nd.kind == KIND_ACTION {
                            assert forall|a: int| 0 <= a < nd.actions.len() implies i
                                < #[trigger] more.children[nd.child_start + a]
                                < more.nodes.len() by {
                                assert(full.children[nd.child_start + a]
                                    == more.children[nd.child_start + a]);
                            }
                        }
                    }
                }
            },
        }
    }
}

proof fn lemma_grown_from<S: Single>(
    cfg: PreflopConfig<S::Wide>,
    n: int,
    limits: TreeLimits<S::Wide>,
    g: Grown<S>,
    st: Round<S::Wide>,
    actor: int,
    kids: Seq<u32>,
)
    requires
        betting::sits(n, st),
        betting::actor_of(n, st) == Some(actor),
        g.nodes.len() <= u32::MAX,
        0 <= g.arena_len <= isize::MAX,
        kids.len() <= betting::legal(cfg, st, actor).len(),
        grown_from(cfg, n, limits, g, st, actor, kids) is Some,
    ensures
        ({
            let (more, all) = grown_from(cfg, n, limits, g, st, actor, kids)->0;
            &&& extends(g, more)
            &&& all.len() == betting::legal(cfg, st, actor).len()
            &&& more.nodes.len() <= u32::MAX
            &&& more.arena_len <= isize::MAX
            &&& forall|a: int| 0 <= a < kids.len() ==> #[trigger] all[a] == kids[a]
            &&& forall|a: int|
                kids.len() <= a < all.len() ==> g.nodes.len() <= #[trigger] all[a]
                    < more.nodes.len()
            &&& forall|i: int|
                g.nodes.len() <= i < more.nodes.len() ==> #[trigger] knot_sound(n, more, i)
        }),
    decreases
        cfg.max_raises - st.raises,
        seats::seats_in(st.needs, n),
        0int,
        betting::legal(cfg, st, actor).len() - kids.len(),
{
    let acts = betting::legal(cfg, st, actor);
    if kids.len() < acts.len() {
        betting::lemma_nearer_end(cfg, n, st, actor, kids.len() as int);
        let later = betting::after(cfg, n, st, actor, acts[kids.len() as int]);
        lemma_grown(cfg, n, limits, g, later);
        let (next, kid) = grown(cfg, n, limits, g, later)->0;
        lemma_grown_from(cfg, n, limits, next, st, actor, kids.push(kid));
        let (more, all) = grown_from(cfg, n, limits, g, st, actor, kids)->0;
        assert forall|a: int| 0 <= a < kids.len() implies #[trigger] all[a] == kids[a] by {
            assert(all[a] == kids.push(kid)[a]);
        }
        assert forall|a: int| kids.len() <= a < all.len() implies g.nodes.len()
            <= #[trigger] all[a] < more.nodes.len() by {
            if a == kids.len() {
                assert(all[a] == kids.push(kid)[a]);
            }
        }
        assert forall|i: int| g.nodes.len() <= i < more.nodes.len() implies #[trigger] knot_sound(
            n,
            more,
            i,
        ) by {
            if i < next.nodes.len() {
                assert(knot_sound(n, next, i));
                lemma_sound_stays(n, next, more, i);
            }
        }
        assert forall|i: int| 0 <= i < g.nodes.len() implies #[trigger] more.nodes[i]
            == g.nodes[i] by {
            assert(next.nodes[i] == g.nodes[i]);
        }
        assert forall|i: int| 0 <= i < g.children.len() implies #[trigger] more.children[i]
            == g.children[i] by {
            assert(next.children[i] == g.children[i]);
        }
    }
}

/// Whether no two nodes share cells of the arenas: each block ends before
/// those of later nodes begin.
pub open spec fn apart<S: Single>(g: Grown<S>) -> bool {
    &&& forall|i: int|
        0 <= i < g.nodes.len() && (#[trigger] g.nodes[i]).kind == KIND_ACTION
            ==> g.nodes[i].data_off + cells(g.nodes[i].actions.len()) <= g.arena_len
    &&& forall|i: int, j: int|
        0 <= i < j < g.nodes.len() && (#[trigger] g.nodes[i]).kind == KIND_ACTION && (
        #[trigger] g.nodes[j]).kind == KIND_ACTION ==> g.nodes[i].data_off + cells(
            g.nodes[i].actions.len(),
        ) <= g.nodes[j].data_off
}

/// Growing a tree keeps its blocks apart.
pub proof fn lemma_apart<S: Single>(
    cfg: PreflopConfig<S::Wide>,
    n: int,
    limits: TreeLimits<S::Wide>,
    g: Grown<S>,
    st: Round<S::Wide>,
)
    requires
        betting::sits(n, st),
        0 <= g.arena_len <= isize::MAX,
        apart(g),
        grown(cfg, n, limits, g, st) is Some,
    ensures
        apart((grown(cfg, n, limits, g, st)->0).0),
    decreases cfg.max_raises - st.raises, seats::seats_in(st.needs, n), 1int, 0int,
{
    let (more, idx) = grown(cfg, n, limits, g, st)->0;
    if !decided(n, st) {
        match betting::actor_of(n, st) {
            None => {},
            Some(actor) => {
                betting::lemma_actor(n, st, 0);
                let acts = betting::legal(cfg, st, actor);
                let met = Grown {
                    nodes: g.nodes.push(acting_knot(cfg, n, st, actor, g.arena_len)),
                    children: g.children,
                    arena_len: g.arena_len + cells(acts.len()),
                };
                assert(apart(met));
                lemma_apart_from(cfg, n, limits, met, st, actor, Seq::empty());
                lemma_grown_from(cfg, n, limits, met, st, actor, Seq::empty());
                let (all, kids) = grown_from(cfg, n, limits, met, st, actor, Seq::empty())->0;
                assert(all.nodes[idx as int] == met.nodes[idx as int]);
                assert forall|i: int| 0 <= i < more.nodes.len() implies {
                    &&& (#[trigger] more.nodes[i]).kind == all.nodes[i].kind
                    &&& more.nodes[i].data_off == all.nodes[i].data_off
                    &&& more.nodes[i].actions == all.nodes[i].actions
                } by {}
            },
        }
    }
}

proof fn lemma_apart_from<S: Single>(
    cfg: PreflopConfig<S::Wide>,
    n: int,
    limits: TreeLimits<S::Wide>,
    g: Grown<S>,
    st: Round<S::Wide>,
    actor: int,
    kids: Seq<u32>,
)
    requires
        betting::sits(n, st),
        betting::actor_of(n, st) == Some(actor),
        0 <= g.arena_len <= isize::MAX,
        kids.len() <= betting::legal(cfg, st, actor).len(),
        apart(g),
        grown_from(cfg, n, limits, g, st, actor, kids) is Some,
    ensures
        apart((grown_from(cfg, n, limits, g, st, actor, kids)->0).0),
    decreases
        cfg.max_raises - st.raises,
        seats::seats_in(st.needs, n),
        0int,
        betting::legal(cfg, st, actor).len() - kids.len(),
{
    let acts = betting::legal(cfg, st, actor);
    if kids.len() < acts.len() {
        betting::lemma_nearer_end(cfg, n, st, actor, kids.len() as int);
        let later = betting::after(cfg, n, st, actor, acts[kids.len() as int]);
        lemma_apart(cfg, n, limits, g, later);
        lemma_grown(cfg, n, limits, g, later);
        let (next, kid) = grown(cfg, n, limits, g, later)->0;
        lemma_apart_from(cfg, n, limits, next, st, actor, kids.push(kid));
    }
}

/// Every node of a game's tree stands in order: its parts fit the table, its
/// block fits the arenas, and its children come after it.
pub proof fn law_tree_stands<S: Single>(
    cfg: PreflopConfig<S::Wide>,
    limits: TreeLimits<S::Wide>,
    i: int,
)
    requires
        2 <= cfg.positions@.len() <= 9,
        tree_of::<S>(cfg, limits) is Some,
        0 <= i < tree_of::<S>(cfg, limits)->0.nodes.len(),
    ensures
        knot_sound(cfg.positions@.len() as int, tree_of::<S>(cfg, limits)->0, i),
{
    let n = cfg.positions@.len() as int;
    let st = betting::opening(cfg, n);
    lemma_grown(cfg, n, limits, bare::<S>(), st);
}

// ---------------------------------------------------------------------------
// Counting agrees with building
// ---------------------------------------------------------------------------

/// How many of the nodes from the `i`-th on are ones at which a seat acts.
pub open spec fn acting_from<S: Single>(nodes: Seq<Knot<S>>, i: int) -> int
    decreases nodes.len() - i,
{
    if i < 0 || i >= nodes.len() {
        0
    } else {
        acting_from(nodes, i + 1) + if nodes[i].kind == KIND_ACTION {
            1int
        } else {
            0
        }
    }
}

proof fn lemma_acting<S: Single>(less: Seq<Knot<S>>, more: Seq<Knot<S>>, i: int)
    requires
        0 <= i <= less.len() <= more.len(),
        forall|k: int| 0 <= k < less.len() ==> (#[trigger] more[k]).kind == less[k].kind,
    ensures
        acting_from(more, i) == acting_from(less, i) + acting_from(more, less.len() as int),
    decreases less.len() - i,
{
    if i < less.len() {
        lemma_acting(less, more, i + 1);
        assert(more[i].kind == less[i].kind);
    }
}

/// How much a tally has grown by a tree's growth from `g` to `more`.
pub open spec fn tallied<S: Single>(t: Tally, u: Tally, g: Grown<S>, more: Grown<S>) -> bool {
    &&& u.nodes - t.nodes == more.nodes.len() - g.nodes.len()
    &&& u.arena_len - t.arena_len == more.arena_len - g.arena_len
    &&& u.action_nodes - t.action_nodes == acting_from(more.nodes, g.nodes.len() as int)
}

proof fn lemma_counted<S: Single>(
    cfg: PreflopConfig<S::Wide>,
    n: int,
    limits: TreeLimits<S::Wide>,
    cap: int,
    t: Tally,
    g: Grown<S>,
    st: Round<S::Wide>,
)
    requires
        betting::sits(n, st),
        0 <= g.arena_len <= isize::MAX,
        grown(cfg, n, limits, g, st) is Some,
        !counted(cfg, n, cap, t, st).truncated,
    ensures
        tallied(t, counted(cfg, n, cap, t, st), g, (grown(cfg, n, limits, g, st)->0).0),
    decreases cfg.max_raises - st.raises, seats::seats_in(st.needs, n), 1int, 0int,
{
    let (more, idx) = grown(cfg, n, limits, g, st)->0;
    lemma_grown(cfg, n, limits, g, st);
    assert(acting_from(more.nodes, more.nodes.len() as int) == 0);
    if !decided(n, st) {
        match betting::actor_of(n, st) {
            None => {
                assert(more.nodes[idx as int] == shared_knot::<S>(cfg, n, st));
            },
            Some(actor) => {
                let acts = betting::legal(cfg, st, actor);
                let met = Grown {
                    nodes: g.nodes.push(acting_knot(cfg, n, st, actor, g.arena_len)),
                    children: g.children,
                    arena_len: g.arena_len + cells(acts.len()),
                };
                let seen = Tally {
                    nodes: t.nodes + 1,
                    action_nodes: t.action_nodes + 1,
                    arena_len: t.arena_len + cells(acts.len()),
                    ..t
                };
                lemma_counted_from(cfg, n, limits, cap, seen, met, st, actor, Seq::empty());
                lemma_grown_from(cfg, n, limits, met, st, actor, Seq::empty());
                let (all, kids) = grown_from(cfg, n, limits, met, st, actor, Seq::empty())->0;
                assert(all.nodes[idx as int] == met.nodes[idx as int]);
                assert forall|k: int| 0 <= k < all.nodes.len() implies (#[trigger] more.nodes[k]).kind
                    == all.nodes[k].kind by {}
                lemma_acting(all.nodes, more.nodes, idx + 1);
                assert(acting_from(more.nodes, all.nodes.len() as int) == 0);
            },
        }
    } else {
        assert(more.nodes[idx as int] == won_knot::<S>(n, st));
    }
}

proof fn lemma_counted_from<S: Single>(
    cfg: PreflopConfig<S::Wide>,
    n: int,
    limits: TreeLimits<S::Wide>,
    cap: int,
    t: Tally,
    g: Grown<S>,
    st: Round<S::Wide>,
    actor: int,
    kids: Seq<u32>,
)
    requires
        betting::sits(n, st),
        betting::actor_of(n, st) == Some(actor),
        g.nodes.len() <= u32::MAX,
        0 <= g.arena_len <= isize::MAX,
        kids.len() <= betting::legal(cfg, st, actor).len(),
        grown_from(cfg, n, limits, g, st, actor, kids) is Some,
        !counted_from(cfg, n, cap, t, st, actor, kids.len() as int).truncated,
    ensures
        tallied(
            t,
            counted_from(cfg, n, cap, t, st, actor, kids.len() as int),
            g,
            (grown_from(cfg, n, limits, g, st, actor, kids)->0).0,
        ),
    decreases
        cfg.max_raises - st.raises,
        seats::seats_in(st.needs, n),
        0int,
        betting::legal(cfg, st, actor).len() - kids.len(),
{
    let acts = betting::legal(cfg, st, actor);
    let (more, all) = grown_from(cfg, n, limits, g, st, actor, kids)->0;
    if kids.len() < acts.len() {
        betting::lemma_nearer_end(cfg, n, st, actor, kids.len() as int);
        let later = betting::after(cfg, n, st, actor, acts[kids.len() as int]);
        lemma_grown(cfg, n, limits, g, later);
        let (next, kid) = grown(cfg, n, limits, g, later)->0;
        let u = counted(cfg, n, cap, t, later);
        if u.truncated {
            lemma_truncated_stays(cfg, n, cap, u, st, actor, kids.len() as int + 1);
        }
        lemma_counted(cfg, n, limits, cap, t, g, later);
        lemma_counted_from(cfg, n, limits, cap, u, next, st, actor, kids.push(kid));
        lemma_grown_from(cfg, n, limits, next, st, actor, kids.push(kid));
        assert forall|k: int| 0 <= k < next.nodes.len() implies (#[trigger] more.nodes[k]).kind
            == next.nodes[k].kind by {}
        lemma_acting(next.nodes, more.nodes, g.nodes.len() as int);
    } else {
        assert(acting_from(more.nodes, more.nodes.len() as int) == 0);
    }
}

proof fn lemma_truncated_stays<W: Num>(
    cfg: PreflopConfig<W>,
    n: int,
    cap: int,
    t: Tally,
    st: Round<W>,
    actor: int,
    k: int,
)
    requires
        t.truncated,
    ensures
        counted_from(cfg, n, cap, t, st, actor, k).truncated,
    decreases betting::legal(cfg, st, actor).len() - k,
{
    let acts = betting::legal(cfg, st, actor);
    if 0 <= k < acts.len() {
        let later = betting::after(cfg, n, st, actor, acts[k]);
        if betting::nearer_end(cfg, n, later, st) {
            assert(counted(cfg, n, cap, t, later) == t);
            lemma_truncated_stays(cfg, n, cap, t, st, actor, k + 1);
        }
    }
}

/// A tree that is counted to the end has as many nodes, as many of them at
/// which a seat acts, and as many arena cells as the tree that is built.
pub proof fn law_estimate_matches_build<S: Single>(
    cfg: PreflopConfig<S::Wide>,
    limits: TreeLimits<S::Wide>,
    limit_nodes: int,
)
    requires
        2 <= cfg.positions@.len() <= 9,
        tree_of::<S>(cfg, limits) is Some,
        !size_of(cfg, limit_nodes).truncated,
    ensures
        size_of(cfg, limit_nodes).nodes == tree_of::<S>(cfg, limits)->0.nodes.len(),
        size_of(cfg, limit_nodes).arena_len == tree_of::<S>(cfg, limits)->0.arena_len,
        size_of(cfg, limit_nodes).action_nodes == acting_from(
            tree_of::<S>(cfg, limits)->0.nodes,
            0,
        ),
{
    let n = cfg.positions@.len() as int;
    let t = Tally { nodes: 0, action_nodes: 0, arena_len: 0, truncated: false };
    lemma_counted(
        cfg,
        n,
        limits,
        cap_of(limit_nodes),
        t,
        bare::<S>(),
        betting::opening(cfg, n),
    );
}

} // verus!
