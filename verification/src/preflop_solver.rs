//! The preflop solver: strategies, self-play and what it converges to.

use crate::betting;
use crate::betting::root_state;
use crate::discount;
use crate::classes::NUM_CLASSES;
use crate::num::{Num, Single};
use crate::preflop::{validate, PreflopConfig, PreflopError};
use crate::preflop_build;
use crate::preflop_build::{arena_megabytes, estimate_tree, Builder, Grown, TreeLimits};
use crate::preflop_tree;
use crate::preflop_tree::{play_order, Knot, PNode, KIND_ACTION};
use crate::preflop_values;
use crate::preflop_values::{full_range, EquityTable};
use crate::seat_models;
use crate::seat_models::{BucketPolicy, SeatProfile};
use crate::strategy;
use crate::strategy::{copied, filled, normalize, positives};
use std::sync::Arc;
use vstd::prelude::*;

verus! {

/// A preflop game and how far it has been solved.
pub struct PreflopSolver<S: Single> {
    pub cfg: PreflopConfig<S::Wide>,
    pub eq: Arc<EquityTable<S>>,
    pub nodes: Vec<PNode<S>>,
    pub children: Vec<u32>,
    /// How many seats there are.
    pub n: usize,
    pub regrets: Vec<S>,
    pub strat_sum: Vec<S>,
    /// The cells of each arena.
    pub arena_len: usize,
    pub iteration: u32,
    /// Which seats do not adapt, but play on average as they were solved.
    pub seat_frozen: Vec<bool>,
    /// How the seats are modelled, where they are: a policy rules wherever
    /// its situation arises.
    pub seat_profiles: Vec<Option<SeatProfile<S>>>,
    /// The seat that alone adapts, free of its own profile, to find its best
    /// play against the others.
    pub hero: Option<usize>,
    /// Which seats the table had frozen before there was a hero.
    pub pre_hero_frozen: Option<Vec<bool>>,
    /// The strategies pinned at single nodes.
    pub point_locks: Vec<Option<Vec<S>>>,
}

/// How the seats of a game are modelled.
pub ghost struct Seating<S: Single> {
    pub frozen: Seq<bool>,
    pub profiles: Seq<Option<SeatProfile<S>>>,
    pub hero: Option<usize>,
    pub pre_hero: Option<Seq<bool>>,
    pub pins: Seq<Option<Seq<S>>>,
}

/// Seats that all adapt, and nothing pinned.
pub open spec fn unmodelled<S: Single>(n: int, nodes: int) -> Seating<S> {
    Seating {
        frozen: Seq::new(n as nat, |q: int| false),
        profiles: Seq::new(n as nat, |q: int| None),
        hero: None,
        pre_hero: None,
        pins: Seq::new(nodes as nat, |i: int| None),
    }
}

/// Pinned strategies as mathematical values.
pub open spec fn pins_of<S>(v: Seq<Option<Vec<S>>>) -> Seq<Option<Seq<S>>> {
    Seq::new(
        v.len(),
        |i: int|
            match v[i] {
                Some(sigma) => Some(sigma@),
                None => None,
            },
    )
}

/// What of a solver does not change by solving.
pub ghost struct Field<S: Single> {
    pub cfg: PreflopConfig<S::Wide>,
    pub cells: Seq<S>,
    pub tree: Grown<S>,
    pub seats: Seating<S>,
}

/// What of a solver changes by solving.
pub ghost struct Arenas<S> {
    pub regrets: Seq<S>,
    pub strat: Seq<S>,
}

/// A node's block of an arena.
pub open spec fn block<S: Single>(arena: Seq<S>, nd: Knot<S>) -> Seq<S> {
    arena.subrange(nd.data_off as int, nd.data_off + preflop_build::cells(nd.actions.len()))
}

/// The strategy that the regrets call for at a node.
pub open spec fn called_for<S: Single>(regrets: Seq<S>, nd: Knot<S>) -> Seq<S> {
    strategy::normalized(
        strategy::positive_part(block(regrets, nd)),
        nd.actions.len() as int,
        169,
    )
}

/// The strategy played on average at a node.
pub open spec fn on_average<S: Single>(strat: Seq<S>, nd: Knot<S>) -> Seq<S> {
    strategy::normalized(block(strat, nd), nd.actions.len() as int, 169)
}

/// The ranges after a seat took the `a`-th action of a strategy.
pub open spec fn acted<S: Num>(
    reaches: Seq<Seq<S>>,
    actor: int,
    sigma: Seq<S>,
    a: int,
) -> Seq<Seq<S>> {
    reaches.update(actor, strategy::reach_through(reaches[actor], sigma, a))
}

/// Every seat with every hand.
pub open spec fn at_root<S: Num>(n: int) -> Seq<Seq<S>> {
    Seq::new(n as nat, |q: int| preflop_values::whole_range::<S>())
}

impl<S: Single> Field<S> {
    pub open spec fn n(self) -> int {
        self.cfg.positions@.len() as int
    }

    pub open spec fn child(self, i: int, a: int) -> int {
        self.tree.children[self.tree.nodes[i].child_start + a] as int
    }

    pub open spec fn wf(self) -> bool {
        &&& 2 <= self.n() <= 9
        &&& self.cfg.posts@.len() == self.n()
        &&& self.cells.len() == 169 * 169
        &&& 1 <= self.tree.nodes.len() <= u32::MAX
        &&& 0 <= self.tree.arena_len <= isize::MAX
        &&& preflop_build::apart(self.tree)
        &&& self.seated()
        &&& forall|i: int|
            0 <= i < self.tree.nodes.len() ==> #[trigger] preflop_build::knot_sound(
                self.n(),
                self.tree,
                i,
            )
    }

    /// Whether the models fit the game.
    pub open spec fn seated(self) -> bool {
        &&& self.seats.frozen.len() == self.n()
        &&& self.seats.profiles.len() == self.n()
        &&& forall|q: int|
            0 <= q < self.n() && (#[trigger] self.seats.profiles[q]) is Some
                ==> self.seats.profiles[q]->0.wf()
        &&& self.seats.hero is Some ==> self.seats.hero->0 < self.n() && self.seats.pre_hero is Some
        &&& self.seats.pre_hero is Some ==> self.seats.pre_hero->0.len() == self.n()
        &&& self.seats.pins.len() == self.tree.nodes.len()
        &&& forall|i: int|
            0 <= i < self.tree.nodes.len() && (#[trigger] self.seats.pins[i]) is Some
                ==> self.tree.nodes[i].kind == KIND_ACTION && self.seats.pins[i]->0.len()
                == preflop_build::cells(self.tree.nodes[i].actions.len())
    }

    /// What a seat's profile says of a situation. A hero is free of its own.
    pub open spec fn policy(self, seat: int, bucket: int) -> Option<BucketPolicy<S>> {
        if self.seats.hero is Some && self.seats.hero->0 == seat {
            None
        } else {
            match self.seats.profiles[seat] {
                Some(profile) => profile.buckets@[bucket],
                None => None,
            }
        }
    }

    /// The strategy that is imposed at a node: the one pinned there, else
    /// what the seat's profile says of the situation.
    pub open spec fn forced(self, i: int) -> Option<Seq<S>> {
        let nd = self.tree.nodes[i];
        match self.seats.pins[i] {
            Some(sigma) => Some(sigma),
            None => match self.policy(nd.actor as int, nd.bucket as int) {
                Some(policy) => Some(seat_models::played_by(nd.actions, policy)),
                None => None,
            },
        }
    }

    /// Whether a seat learns at a node.
    pub open spec fn learns(self, i: int) -> bool {
        self.forced(i) is None && !self.seats.frozen[self.tree.nodes[i].actor as int]
    }

    /// The strategy that counts at a node: what is imposed, else what is
    /// played on average.
    pub open spec fn plays(self, strat: Seq<S>, i: int) -> Seq<S> {
        match self.forced(i) {
            Some(sigma) => sigma,
            None => on_average(strat, self.tree.nodes[i]),
        }
    }

    /// The strategy of self-play at a node: what is imposed, else what a
    /// frozen seat plays on average, else what the regrets call for.
    pub open spec fn tries(self, ar: Arenas<S>, i: int) -> Seq<S> {
        let nd = self.tree.nodes[i];
        match self.forced(i) {
            Some(sigma) => sigma,
            None => if self.seats.frozen[nd.actor as int] {
                on_average(ar.strat, nd)
            } else {
                called_for(ar.regrets, nd)
            },
        }
    }

    /// What seat `p` expects below a node where all play their average
    /// strategies, or where it plays its best response to the others', by
    /// its class and times how likely the others are to get there.
    pub open spec fn worth(
        self,
        strat: Seq<S>,
        i: int,
        p: int,
        best: bool,
        reaches: Seq<Seq<S>>,
    ) -> Seq<S>
        decreases self.tree.nodes.len() - i, self.tree.nodes[i].actions.len() + 1,
    {
        let nd = self.tree.nodes[i];
        if nd.kind != KIND_ACTION {
            preflop_values::settled(self.cfg, self.cells, nd, p, reaches)
        } else {
            let vals = self.worth_below(strat, i, p, best, reaches, nd.actions.len());
            if nd.actor != p {
                strategy::pooled(vals, 169)
            } else if best {
                strategy::peaked(vals, 169)
            } else {
                strategy::mixed(self.plays(strat, i), vals, 169)
            }
        }
    }

    /// What seat `p` expects below each of the first `k` actions of a node.
    pub open spec fn worth_below(
        self,
        strat: Seq<S>,
        i: int,
        p: int,
        best: bool,
        reaches: Seq<Seq<S>>,
        k: nat,
    ) -> Seq<Seq<S>>
        decreases self.tree.nodes.len() - i, k,
    {
        if k == 0 {
            Seq::empty()
        } else {
            let nd = self.tree.nodes[i];
            let c = self.child(i, k - 1);
            let before = self.worth_below(strat, i, p, best, reaches, (k - 1) as nat);
            if i < c < self.tree.nodes.len() {
                before.push(
                    self.worth(
                        strat,
                        c,
                        p,
                        best,
                        acted(reaches, nd.actor as int, self.plays(strat, i), k - 1),
                    ),
                )
            } else {
                before.push(Seq::empty())
            }
        }
    }

    /// The arenas after a node at which seat `p` acts has been learnt from.
    pub open spec fn learnt(
        self,
        ar: Arenas<S>,
        nd: Knot<S>,
        sigma: Seq<S>,
        vals: Seq<Seq<S>>,
        out: Seq<S>,
        reach: Seq<S>,
        k: int,
    ) -> Arenas<S> {
        let off = nd.data_off as int;
        Arenas {
            regrets: Seq::new(
                ar.regrets.len(),
                |j: int|
                    if off <= j < off + k {
                        ar.regrets[j].plus_spec(
                            vals[(j - off) / 169][(j - off) % 169].minus_spec(out[(j - off) % 169]),
                        )
                    } else {
                        ar.regrets[j]
                    },
            ),
            strat: Seq::new(
                ar.strat.len(),
                |j: int|
                    if off <= j < off + k {
                        ar.strat[j].plus_spec(reach[(j - off) % 169].times_spec(sigma[j - off]))
                    } else {
                        ar.strat[j]
                    },
            ),
        }
    }

    /// One walk of self-play below a node for seat `p`: what it expects, and
    /// the arenas after it has learnt from it.
    pub open spec fn trained(self, ar: Arenas<S>, i: int, p: int, reaches: Seq<Seq<S>>) -> (
        Seq<S>,
        Arenas<S>,
    )
        decreases self.tree.nodes.len() - i, self.tree.nodes[i].actions.len() + 1,
    {
        let nd = self.tree.nodes[i];
        if nd.kind != KIND_ACTION {
            (preflop_values::settled(self.cfg, self.cells, nd, p, reaches), ar)
        } else {
            let sigma = self.tries(ar, i);
            let (vals, after) = self.trained_below(ar, i, p, reaches, sigma, nd.actions.len());
            if nd.actor != p {
                (strategy::pooled(vals, 169), after)
            } else {
                let out = strategy::mixed(sigma, vals, 169);
                if self.learns(i) {
                    (
                        out,
                        self.learnt(
                            after,
                            nd,
                            sigma,
                            vals,
                            out,
                            reaches[p],
                            preflop_build::cells(nd.actions.len()),
                        ),
                    )
                } else {
                    (out, after)
                }
            }
        }
    }

    /// The same below each of the first `k` actions of a node, in turn.
    pub open spec fn trained_below(
        self,
        ar: Arenas<S>,
        i: int,
        p: int,
        reaches: Seq<Seq<S>>,
        sigma: Seq<S>,
        k: nat,
    ) -> (Seq<Seq<S>>, Arenas<S>)
        decreases self.tree.nodes.len() - i, k,
    {
        if k == 0 {
            (Seq::empty(), ar)
        } else {
            let nd = self.tree.nodes[i];
            let c = self.child(i, k - 1);
            let (before, mid) = self.trained_below(ar, i, p, reaches, sigma, (k - 1) as nat);
            if i < c < self.tree.nodes.len() {
                let (v, after) = self.trained(
                    mid,
                    c,
                    p,
                    acted(reaches, nd.actor as int, sigma, k - 1),
                );
                (before.push(v), after)
            } else {
                (before.push(Seq::empty()), mid)
            }
        }
    }

    /// The arenas after those of the first `k` seats that are not frozen have
    /// learnt from the whole game, one after the other.
    pub open spec fn played_through(self, ar: Arenas<S>, k: int) -> Arenas<S>
        decreases k,
    {
        if k <= 0 {
            ar
        } else if self.seats.frozen[k - 1] {
            self.played_through(ar, k - 1)
        } else {
            self.trained(self.played_through(ar, k - 1), 0, k - 1, at_root::<S>(self.n())).1
        }
    }

    /// The arenas with what was learnt up to iteration `t` discounted at the
    /// first `k` nodes, where they are ones that learn.
    pub open spec fn discounted(self, ar: Arenas<S>, t: u32, k: int) -> Arenas<S>
        decreases k,
    {
        if k <= 0 {
            ar
        } else {
            let before = self.discounted(ar, t, k - 1);
            let nd = self.tree.nodes[k - 1];
            if nd.kind == KIND_ACTION && self.learns(k - 1) {
                faded(before, t, nd.data_off as int, nd.data_off + preflop_build::cells(
                    nd.actions.len(),
                ))
            } else {
                before
            }
        }
    }

    /// The arenas after iteration `t`.
    pub open spec fn iterated(self, ar: Arenas<S>, t: u32) -> Arenas<S> {
        self.discounted(self.played_through(ar, self.n()), t, self.tree.nodes.len() as int)
    }
}

/// The arenas with the cells from `from` to `to` discounted after iteration
/// `t`.
pub open spec fn faded<S: Single>(ar: Arenas<S>, t: u32, from: int, to: int) -> Arenas<S> {
    Arenas {
        regrets: Seq::new(
            ar.regrets.len(),
            |j: int|
                if from <= j < to {
                    discount::worn(ar.regrets[j], t)
                } else {
                    ar.regrets[j]
                },
        ),
        strat: Seq::new(
            ar.strat.len(),
            |j: int|
                if from <= j < to {
                    ar.strat[j].times_spec(discount::sum_keep::<S>(t))
                } else {
                    ar.strat[j]
                },
        ),
    }
}

fn nones<T>(n: usize) -> (r: Vec<Option<T>>)
    ensures
        r@ == Seq::new(n as nat, |i: int| None::<T>),
{
    let mut out: Vec<Option<T>> = Vec::new();
    let mut i: usize = 0;
    while i < n
        invariant
            i <= n,
            out@ == Seq::new(i as nat, |j: int| None::<T>),
        decreases n - i,
    {
        out.push(None);
        i = i + 1;
        assert(out@ =~= Seq::new(i as nat, |j: int| None::<T>));
    }
    assert(out@ =~= Seq::new(n as nat, |j: int| None::<T>));
    out
}

impl<S: Single> PreflopSolver<S> {
    pub open spec fn field(&self) -> Field<S> {
        Field {
            cfg: self.cfg,
            cells: self.eq.cells@,
            tree: Grown {
                nodes: preflop_tree::knots(self.nodes@),
                children: self.children@,
                arena_len: self.arena_len as int,
            },
            seats: Seating {
                frozen: self.seat_frozen@,
                profiles: self.seat_profiles@,
                hero: self.hero,
                pre_hero: match self.pre_hero_frozen {
                    Some(flags) => Some(flags@),
                    None => None,
                },
                pins: pins_of(self.point_locks@),
            },
        }
    }

    pub open spec fn arenas(&self) -> Arenas<S> {
        Arenas { regrets: self.regrets@, strat: self.strat_sum@ }
    }

    pub open spec fn wf(&self) -> bool {
        &&& self.field().wf()
        &&& self.n == self.cfg.positions@.len()
        &&& self.regrets@.len() == self.arena_len
        &&& self.strat_sum@.len() == self.arena_len
    }

    /// What a game is refused for, with the limits of its tree.
    pub open spec fn refusal(
        cfg: PreflopConfig<S::Wide>,
        limits: TreeLimits<S::Wide>,
    ) -> Option<PreflopError> {
        if cfg.fault() is Some {
            cfg.fault()
        } else {
            let size = preflop_build::size_of(cfg, limits.nodes as int);
            if size.truncated || size.nodes > limits.nodes || limits.arena_mb.below_spec(
                preflop_build::megabytes::<S::Wide>(size.arena_len),
            ) || preflop_build::tree_of::<S>(cfg, limits) is None {
                Some(PreflopError::TooLarge)
            } else {
                None
            }
        }
    }

    /// A game with nothing solved yet. The tree's size is tried before any
    /// of it is built.
    pub fn new(
        cfg: PreflopConfig<S::Wide>,
        eq: Arc<EquityTable<S>>,
        limits: &TreeLimits<S::Wide>,
    ) -> (r: Result<Self, PreflopError>)
        requires
            eq.wf(),
            limits.nodes + limits.nodes / 10 <= u64::MAX,
        ensures
            match r {
                Ok(s) => {
                    &&& Self::refusal(cfg, *limits) is None
                    &&& s.wf()
                    &&& s.cfg == cfg
                    &&& s.eq == eq
                    &&& s.iteration == 0
                    &&& preflop_build::tree_of::<S>(cfg, *limits) == Some(s.field().tree)
                    &&& s.regrets@ == strategy::level(s.arena_len as nat, S::decimal_spec(0, 0))
                    &&& s.strat_sum@ == s.regrets@
                    &&& s.field().seats == unmodelled::<S>(s.n as int, s.nodes@.len() as int)
                },
                Err(e) => Self::refusal(cfg, *limits) == Some(e),
            },
    {
        let n = match validate(&cfg) {
            Ok(n) => n,
            Err(e) => {
                return Err(e);
            },
        };
        let est = match estimate_tree(&cfg, limits.nodes) {
            Ok(est) => est,
            Err(e) => {
                return Err(e);
            },
        };
        if est.truncated || est.nodes > limits.nodes || limits.arena_mb.below(
            arena_megabytes(est.arena_len),
        ) {
            return Err(PreflopError::TooLarge);
        }
        let mut b: Builder<S> = Builder {
            nodes: Vec::new(),
            children: Vec::new(),
            arena_len: 0,
        };
        let ghost start = b@;
        assert(start.nodes =~= preflop_build::bare::<S>().nodes);
        assert(start.children =~= preflop_build::bare::<S>().children);
        let root = root_state(&cfg, n);
        match b.build(&cfg, n, limits, root) {
            Ok(_) => {},
            Err(e) => {
                return Err(e);
            },
        }
        proof {
            preflop_build::lemma_grown(
                cfg,
                n as int,
                *limits,
                preflop_build::bare::<S>(),
                betting::opening(cfg, n as int),
            );
            let tree = preflop_build::tree_of::<S>(cfg, *limits)->0;
            assert(tree == b@);
            preflop_build::lemma_apart(
                cfg,
                n as int,
                *limits,
                preflop_build::bare::<S>(),
                betting::opening(cfg, n as int),
            );
        }
        let zero = S::decimal(0, 0);
        let regrets = filled(b.arena_len, zero);
        let strat_sum = filled(b.arena_len, zero);
        let seat_frozen = filled(n, false);
        let seat_profiles = nones(n);
        let point_locks = nones(b.nodes.len());
        let s = PreflopSolver {
            cfg,
            eq,
            nodes: b.nodes,
            children: b.children,
            n,
            regrets,
            strat_sum,
            arena_len: b.arena_len,
            iteration: 0,
            seat_frozen,
            seat_profiles,
            hero: None,
            pre_hero_frozen: None,
            point_locks,
        };
        assert(s.field().tree == b@);
        proof {
            let open = unmodelled::<S>(s.n as int, s.nodes@.len() as int);
            assert(s.field().seats.frozen =~= open.frozen);
            assert(s.field().seats.profiles =~= open.profiles);
            assert(s.field().seats.pins =~= open.pins);
        }
        Ok(s)
    }

    /// The order of play after the flop.
    pub fn postflop_order(&self) -> (r: Vec<usize>)
        requires
            self.wf(),
        ensures
            r@ == preflop_tree::order_of(self.cfg.posts@, self.n as int),
            r@.len() == self.n,
            forall|i: int| 0 <= i < r@.len() ==> #[trigger] r@[i] < self.n,
    {
        play_order(&self.cfg.posts, self.n)
    }

    /// What every node of a well-formed solver is like.
    pub proof fn lemma_node(&self, i: int)
        requires
            self.wf(),
            0 <= i < self.nodes@.len(),
        ensures
            self.nodes@.len() <= u32::MAX,
            preflop_build::knot_sound(self.n as int, self.field().tree, i),
            self.nodes@[i]@ == self.field().tree.nodes[i],
            self.nodes@[i].actions@.len() == self.nodes@[i]@.actions.len(),
    {
        assert(preflop_build::knot_sound(self.field().n(), self.field().tree, i));
    }

    fn cut_block(arena: &Vec<S>, off: usize, count: usize) -> (r: Vec<S>)
        requires
            off + count <= arena@.len(),
        ensures
            r@ == arena@.subrange(off as int, off + count),
    {
        let size: usize = arena.len();
        let mut out: Vec<S> = Vec::new();
        let mut k: usize = 0;
        while k < count
            invariant
                k <= count,
                off + count <= arena@.len() == size,
                out@ == arena@.subrange(off as int, off + k),
            decreases count - k,
        {
            out.push(arena[off + k]);
            assert(out@ =~= arena@.subrange(off as int, off + k + 1));
            k = k + 1;
        }
        out
    }

    /// The strategy that the regrets call for at a node.
    pub(crate) fn current_strategy(&self, node: usize) -> (r: Vec<S>)
        requires
            self.wf(),
            node < self.nodes@.len(),
            self.nodes@[node as int].kind == KIND_ACTION,
        ensures
            r@ == called_for(self.regrets@, self.nodes@[node as int]@),
            r@.len() == self.nodes@[node as int].actions@.len() * 169,
    {
        proof {
            self.lemma_node(node as int);
        }
        let na: usize = self.nodes[node].actions.len();
        let held = Self::cut_block(&self.regrets, self.nodes[node].data_off, na * 169);
        let good = positives(held.as_slice());
        assert(good@.len() == na * 169);
        normalize(good.as_slice(), na, NUM_CLASSES)
    }

    /// The strategy that is imposed at a node, if one is.
    pub(crate) fn forced_strategy(&self, node: usize) -> (r: Option<Vec<S>>)
        requires
            self.wf(),
            node < self.nodes@.len(),
            self.nodes@[node as int].kind == KIND_ACTION,
        ensures
            match r {
                Some(sigma) => self.field().forced(node as int) == Some(sigma@) && sigma@.len()
                    == self.nodes@[node as int].actions@.len() * 169,
                None => self.field().forced(node as int) is None,
            },
    {
        proof {
            self.lemma_node(node as int);
            assert(self.field().seats.pins[node as int] is Some <==> self.point_locks@[node as int]
                is Some);
        }
        match &self.point_locks[node] {
            Some(sigma) => {
                return Some(copied(sigma.as_slice()));
            },
            None => {},
        }
        let actor: usize = self.nodes[node].actor as usize;
        let bucket: usize = self.nodes[node].bucket as usize;
        let free = match self.hero {
            Some(h) => h == actor,
            None => false,
        };
        if free {
            return None;
        }
        match &self.seat_profiles[actor] {
            None => None,
            Some(profile) => {
                assert(self.field().seats.profiles[actor as int] is Some);
                match &profile.buckets[bucket] {
                    None => None,
                    Some(policy) => {
                        assert(profile.buckets@[bucket as int] is Some);
                        Some(policy.strategy(&self.nodes[node].actions))
                    },
                }
            },
        }
    }

    /// The strategy that counts at a node: what is imposed, else what is
    /// played on average.
    pub fn average_strategy(&self, node: usize) -> (r: Vec<S>)
        requires
            self.wf(),
            node < self.nodes@.len(),
            self.nodes@[node as int].kind == KIND_ACTION,
        ensures
            r@ == self.field().plays(self.strat_sum@, node as int),
            r@.len() == self.nodes@[node as int].actions@.len() * 169,
    {
        match self.forced_strategy(node) {
            Some(sigma) => sigma,
            None => self.solved_strategy(node),
        }
    }

    /// The strategy played on average at a node, whatever is imposed.
    pub(crate) fn solved_strategy(&self, node: usize) -> (r: Vec<S>)
        requires
            self.wf(),
            node < self.nodes@.len(),
            self.nodes@[node as int].kind == KIND_ACTION,
        ensures
            r@ == on_average(self.strat_sum@, self.nodes@[node as int]@),
            r@.len() == self.nodes@[node as int].actions@.len() * 169,
    {
        proof {
            self.lemma_node(node as int);
        }
        let na: usize = self.nodes[node].actions.len();
        let held = Self::cut_block(&self.strat_sum, self.nodes[node].data_off, na * 169);
        normalize(held.as_slice(), na, NUM_CLASSES)
    }

    /// Every seat with every hand.
    pub fn root_reaches(&self) -> (r: Vec<Vec<S>>)
        requires
            self.wf(),
        ensures
            strategy::lines(r@) == at_root::<S>(self.n as int),
            preflop_values::ranged(strategy::lines(r@), self.n as int),
    {
        let mut out: Vec<Vec<S>> = Vec::new();
        let mut q: usize = 0;
        while q < self.n
            invariant
                q <= self.n,
                strategy::lines(out@) == at_root::<S>(q as int),
                preflop_values::ranged(strategy::lines(out@), q as int),
            decreases self.n - q,
        {
            let ghost was = strategy::lines(out@);
            let all = full_range();
            out.push(all);
            assert(strategy::lines(out@) =~= was.push(all@));
            assert(was.push(all@) =~= at_root::<S>(q + 1));
            q = q + 1;
        }
        out
    }
}

} // verus!
