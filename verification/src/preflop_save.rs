//! Save and load of preflop games: a header line, then the regrets and the
//! strategy sums. The tree is not stored: it is rebuilt from the game, and
//! must need arenas of the same size.

use crate::framing;
use crate::framing::{push_arena, read_arena, SaveError};
use crate::num::{Num, Single};
use crate::preflop;
use crate::preflop::{PreflopConfig, PreflopError};
use crate::preflop_build;
use crate::preflop_build::TreeLimits;
use crate::preflop_solver::{Field, PreflopSolver, Seating};
use crate::preflop_tree::{Knot, KIND_ACTION};
use crate::preflop_values::EquityTable;
use crate::save;
use crate::save::{to_numbers, to_words, LockError};
use crate::seat_models;
use crate::seat_models::{copy_profiles, SeatProfile};
use crate::strategy::copied;
use std::sync::Arc;
use vstd::prelude::*;

verus! {

/// The magic line of a saved game: "GTOPREFLOP1" and a line break.
pub open spec fn magic_bytes() -> Seq<u8> {
    seq![71u8, 84, 79, 80, 82, 69, 70, 76, 79, 80, 49, 10]
}

/// [`magic_bytes`], computed.
pub fn magic() -> (r: Vec<u8>)
    ensures
        r@ == magic_bytes(),
{
    let r: Vec<u8> = vec![71, 84, 79, 80, 82, 69, 70, 76, 79, 80, 49, 10];
    assert(r@ =~= magic_bytes());
    r
}

/// What the header of a saved game tells.
pub struct GameHeader<S: Single> {
    pub config: PreflopConfig<S::Wide>,
    pub iteration: u32,
    /// Which seats no longer adapt.
    pub seat_frozen: Vec<bool>,
    /// How the seats are modelled, where they are.
    pub seat_profiles: Vec<Option<SeatProfile<S>>>,
    /// Strategies pinned at single nodes.
    pub point_locks: Vec<(u32, Vec<S>)>,
    /// The hero's seat, if there is one.
    pub hero: Option<usize>,
    /// Which seats the table had frozen before there was a hero.
    pub pre_hero_frozen: Option<Vec<bool>>,
}

/// Why a game cannot be loaded.
#[allow(inconsistent_fields)]
pub enum GameError<S> {
    /// The game cannot be rebuilt.
    Game(PreflopError),
    /// The header's seats are not the game's.
    SeatCount,
    /// A profile lacks a situation, or a policy a class.
    Profile,
    /// The hero has no seat in the game.
    Hero,
    /// The flags from before there was a hero are not the game's.
    PreHero,
    /// A pinned strategy does not fit its node.
    Lock(LockError<S>),
    /// The arenas cannot be read.
    File(SaveError),
}

/// What is wrong with a strategy pinned at a node, if anything is.
pub open spec fn lock_fault<S: Single>(nodes: Seq<Knot<S>>, idx: u32, sigma: Seq<S>) -> Option<
    LockError<S>,
> {
    let nd = nodes[idx as int];
    let na = nd.actions.len();
    if idx >= nodes.len() {
        Some(LockError::OutOfRange { idx, nodes: nodes.len() as usize })
    } else if nd.kind != KIND_ACTION {
        Some(LockError::NotADecision { idx })
    } else if sigma.len() != na * 169 {
        Some(
            LockError::Shape {
                idx,
                entries: sigma.len() as usize,
                actions: na as usize,
                hands: 169,
            },
        )
    } else {
        match save::first_unplayable(sigma, 0) {
            Some(value) => Some(LockError::Frequency { idx, value }),
            None => None,
        }
    }
}

/// The first thing wrong with the pinned strategies from the `from`-th on.
pub open spec fn locks_fault<S: Single>(
    nodes: Seq<Knot<S>>,
    locks: Seq<(u32, Vec<S>)>,
    from: int,
) -> Option<LockError<S>>
    decreases locks.len() - from,
{
    if from >= locks.len() {
        None
    } else {
        match lock_fault(nodes, locks[from].0, locks[from].1@) {
            Some(e) => Some(e),
            None => locks_fault(nodes, locks, from + 1),
        }
    }
}

fn validate_point_locks<S: Single>(s: &PreflopSolver<S>, locks: &Vec<(u32, Vec<S>)>) -> (r: Result<
    (),
    LockError<S>,
>)
    requires
        s.wf(),
    ensures
        match r {
            Ok(_) => locks_fault(s.field().tree.nodes, locks@, 0) is None,
            Err(e) => locks_fault(s.field().tree.nodes, locks@, 0) == Some(e),
        },
{
    let mut k: usize = 0;
    while k < locks.len()
        invariant
            k <= locks@.len(),
            s.wf(),
            locks_fault(s.field().tree.nodes, locks@, 0) == locks_fault(
                s.field().tree.nodes,
                locks@,
                k as int,
            ),
        decreases locks@.len() - k,
    {
        let idx: u32 = locks[k].0;
        let sigma = &locks[k].1;
        let nodes: usize = s.nodes.len();
        if idx as usize >= nodes {
            return Err(LockError::OutOfRange { idx, nodes });
        }
        if s.nodes[idx as usize].kind != KIND_ACTION {
            return Err(LockError::NotADecision { idx });
        }
        proof {
            s.lemma_node(idx as int);
        }
        let na: usize = s.nodes[idx as usize].actions.len();
        if sigma.len() != na * 169 {
            return Err(LockError::Shape { idx, entries: sigma.len(), actions: na, hands: 169 });
        }
        let zero = S::decimal(0, 0);
        let mut i: usize = 0;
        while i < sigma.len()
            invariant
                i <= sigma@.len(),
                k < locks@.len(),
                idx == locks@[k as int].0,
                *sigma == locks@[k as int].1,
                zero == S::decimal_spec(0, 0),
                idx < s.nodes@.len(),
                s.nodes@[idx as int].kind == KIND_ACTION,
                sigma@.len() == s.nodes@[idx as int].actions@.len() * 169,
                save::first_unplayable(sigma@, 0) == save::first_unplayable(sigma@, i as int),
                locks_fault(s.field().tree.nodes, locks@, 0) == locks_fault(
                    s.field().tree.nodes,
                    locks@,
                    k as int,
                ),
            decreases sigma@.len() - i,
        {
            let value = sigma[i];
            if !value.finite() || value.below(zero) {
                return Err(LockError::Frequency { idx, value });
            }
            i = i + 1;
        }
        k = k + 1;
    }
    Ok(())
}

/// Pinned strategies as mathematical values.
pub open spec fn listing<S>(locks: Seq<(u32, Vec<S>)>) -> Seq<(u32, Seq<S>)> {
    Seq::new(locks.len(), |k: int| (locks[k].0, locks[k].1@))
}

/// What is pinned at each of `nodes` nodes once the listed strategies are, in
/// turn.
pub open spec fn pins_with<S>(list: Seq<(u32, Seq<S>)>, nodes: int) -> Seq<Option<Seq<S>>>
    decreases list.len(),
{
    if list.len() == 0 {
        Seq::new(nodes as nat, |i: int| None)
    } else {
        pins_with(list.drop_last(), nodes).update(list.last().0 as int, Some(list.last().1))
    }
}

/// The strategies pinned at the first `k` nodes, listed.
pub open spec fn listed<S>(pins: Seq<Option<Seq<S>>>, k: int) -> Seq<(u32, Seq<S>)>
    decreases k,
{
    if k <= 0 {
        Seq::empty()
    } else {
        match pins[k - 1] {
            Some(sigma) => listed(pins, k - 1).push(((k - 1) as u32, sigma)),
            None => listed(pins, k - 1),
        }
    }
}

/// What a header's seats are refused for, if they are.
pub open spec fn seats_fault<S: Single>(header: GameHeader<S>) -> Option<GameError<S>> {
    let n = header.config.positions@.len();
    if header.seat_frozen@.len() != n || header.seat_profiles@.len() != n {
        Some(GameError::SeatCount)
    } else if exists|q: int|
        0 <= q < n && (#[trigger] header.seat_profiles@[q]) is Some
            && !header.seat_profiles@[q]->0.wf() {
        Some(GameError::Profile)
    } else if header.hero is Some && header.hero->0 >= n {
        Some(GameError::Hero)
    } else if match header.pre_hero_frozen {
        Some(flags) => flags@.len() != n,
        None => header.hero is Some,
    } {
        Some(GameError::PreHero)
    } else {
        None
    }
}

fn refuse_seats<S: Single>(
    n: usize,
    seat_frozen: &Vec<bool>,
    seat_profiles: &Vec<Option<SeatProfile<S>>>,
    hero: Option<usize>,
    pre_hero_frozen: &Option<Vec<bool>>,
    Ghost(header): Ghost<GameHeader<S>>,
) -> (r: Option<GameError<S>>)
    requires
        n == header.config.positions@.len(),
        *seat_frozen == header.seat_frozen,
        *seat_profiles == header.seat_profiles,
        hero == header.hero,
        *pre_hero_frozen == header.pre_hero_frozen,
    ensures
        r == seats_fault(header),
{
    if seat_frozen.len() != n || seat_profiles.len() != n {
        return Some(GameError::SeatCount);
    }
    let mut q: usize = 0;
    while q < n
        invariant
            q <= n,
            n == header.config.positions@.len(),
            *seat_frozen == header.seat_frozen,
            *seat_profiles == header.seat_profiles,
            seat_frozen@.len() == n,
            seat_profiles@.len() == n,
            forall|x: int|
                0 <= x < q && (#[trigger] seat_profiles@[x]) is Some
                    ==> seat_profiles@[x]->0.wf(),
        decreases n - q,
    {
        match &seat_profiles[q] {
            Some(profile) => {
                if !profile.is_wf() {
                    assert(header.seat_profiles@[q as int] is Some
                        && !header.seat_profiles@[q as int]->0.wf());
                    return Some(GameError::Profile);
                }
            },
            None => {},
        }
        q = q + 1;
    }
    match hero {
        Some(h) => {
            if h >= n {
                return Some(GameError::Hero);
            }
        },
        None => {},
    }
    let odd = match pre_hero_frozen {
        Some(flags) => flags.len() != n,
        None => hero.is_some(),
    };
    if odd {
        Some(GameError::PreHero)
    } else {
        None
    }
}

/// The bytes of a saved game.
pub open spec fn game_bytes(header: Seq<u8>, regrets: Seq<u32>, strat: Seq<u32>) -> Seq<u8> {
    magic_bytes() + header + seq![10u8] + framing::arena_bytes(regrets) + framing::arena_bytes(
        strat,
    )
}

/// The two arenas of a saved game, of the expected size.
pub open spec fn arenas_read(body: Seq<u8>, cells: int) -> Result<
    (Seq<u32>, Seq<u32>),
    SaveError,
> {
    match framing::arena_read(body, 0, cells) {
        Err(e) => Err(e),
        Ok((a, p)) => match framing::arena_read(body, p, cells) {
            Err(e) => Err(e),
            Ok((b, _)) => Ok((a, b)),
        },
    }
}

/// Flags that may be missing, as mathematical values.
pub open spec fn flags_of(flags: Option<Vec<bool>>) -> Option<Seq<bool>> {
    match flags {
        Some(v) => Some(v@),
        None => None,
    }
}

/// Whether a header tells of a game all that the arenas do not.
pub open spec fn game_heads<S: Single>(s: PreflopSolver<S>, header: GameHeader<S>) -> bool {
    &&& preflop::same_game(header.config, s.cfg)
    &&& header.iteration == s.iteration
    &&& header.seat_frozen@ == s.seat_frozen@
    &&& seat_models::same_profiles(header.seat_profiles@, s.seat_profiles@)
    &&& header.hero == s.hero
    &&& flags_of(header.pre_hero_frozen) == flags_of(s.pre_hero_frozen)
    &&& listing(header.point_locks@) == listed(s.field().seats.pins, s.nodes@.len() as int)
}

/// What loading a game leads to: the first reason to refuse it, or the game of
/// the header with the arenas of the body.
pub open spec fn game_outcome<S: Single>(
    header: GameHeader<S>,
    body: Seq<u8>,
    eq: Arc<EquityTable<S>>,
    limits: TreeLimits<S::Wide>,
    r: Result<PreflopSolver<S>, GameError<S>>,
) -> bool {
    match PreflopSolver::<S>::refusal(header.config, limits) {
        Some(e) => r is Err && r->Err_0 == GameError::<S>::Game(e),
        None => match seats_fault(header) {
            Some(e) => r is Err && r->Err_0 == e,
            None => {
                let tree = preflop_build::tree_of::<S>(header.config, limits)->0;
                match locks_fault(tree.nodes, header.point_locks@, 0) {
                    Some(e) => r is Err && r->Err_0 == GameError::Lock(e),
                    None => match arenas_read(body, tree.arena_len) {
                        Err(e) => r is Err && r->Err_0 == GameError::<S>::File(e),
                        Ok(_) => {
                            &&& r is Ok
                            &&& r->Ok_0.wf()
                            &&& r->Ok_0.eq == eq
                            &&& r->Ok_0.resumes(header, body, limits)
                        },
                    },
                }
            },
        },
    }
}

impl<S: Single> PreflopSolver<S> {
    /// What the header of the game's save file tells.
    pub fn game_header(&self) -> (r: GameHeader<S>)
        requires
            self.wf(),
        ensures
            game_heads(*self, r),
    {
        let pre_hero_frozen = match &self.pre_hero_frozen {
            Some(flags) => Some(copied(flags.as_slice())),
            None => None,
        };
        GameHeader {
            config: self.cfg.duplicate(),
            iteration: self.iteration,
            seat_frozen: copied(self.seat_frozen.as_slice()),
            seat_profiles: copy_profiles(&self.seat_profiles),
            point_locks: self.locked_points(),
            hero: self.hero,
            pre_hero_frozen,
        }
    }

    /// The bytes of the game's save file, with the given header line.
    pub fn save_game(&self, header: &[u8]) -> (r: Vec<u8>)
        ensures
            r@ == game_bytes(
                header@,
                save::words_of(self.regrets@),
                save::words_of(self.strat_sum@),
            ),
    {
        let mut out = magic();
        let mut i: usize = 0;
        while i < header.len()
            invariant
                i <= header@.len(),
                out@ == magic_bytes() + header@.take(i as int),
            decreases header@.len() - i,
        {
            out.push(header[i]);
            assert(out@ =~= magic_bytes() + header@.take(i + 1));
            i = i + 1;
        }
        assert(header@.take(i as int) =~= header@);
        out.push(10);
        assert(out@ =~= magic_bytes() + header@ + seq![10u8]);
        push_arena(&mut out, to_words(self.regrets.as_slice()).as_slice());
        push_arena(&mut out, to_words(self.strat_sum.as_slice()).as_slice());
        out
    }

    /// Whether a solver is the game of a header with the arenas of a body.
    pub open spec fn resumes(
        &self,
        header: GameHeader<S>,
        body: Seq<u8>,
        limits: TreeLimits<S::Wide>,
    ) -> bool {
        &&& self.cfg == header.config
        &&& self.iteration == header.iteration
        &&& preflop_build::tree_of::<S>(header.config, limits) == Some(self.field().tree)
        &&& self.field().seats == (Seating {
            frozen: header.seat_frozen@,
            profiles: header.seat_profiles@,
            hero: header.hero,
            pre_hero: flags_of(header.pre_hero_frozen),
            pins: pins_with(listing(header.point_locks@), self.nodes@.len() as int),
        })
        &&& match arenas_read(body, self.arena_len as int) {
            Ok((a, b)) => self.regrets@ == save::numbers_of::<S>(a) && self.strat_sum@
                == save::numbers_of::<S>(b),
            Err(_) => false,
        }
    }

    /// The game of a header, with the arenas that the bytes behind it hold.
    pub fn load_game(
        header: GameHeader<S>,
        body: &[u8],
        eq: Arc<EquityTable<S>>,
        limits: &TreeLimits<S::Wide>,
    ) -> (r: Result<Self, GameError<S>>)
        requires
            eq.wf(),
            limits.nodes + limits.nodes / 10 <= u64::MAX,
        ensures
            game_outcome(header, body@, eq, *limits, r),
    {
        let GameHeader {
            config,
            iteration,
            seat_frozen,
            seat_profiles,
            point_locks,
            hero,
            pre_hero_frozen,
        } = header;
        let mut s = match PreflopSolver::new(config, eq, limits) {
            Ok(s) => s,
            Err(e) => {
                return Err(GameError::Game(e));
            },
        };
        match refuse_seats(
            s.n,
            &seat_frozen,
            &seat_profiles,
            hero,
            &pre_hero_frozen,
            Ghost(header),
        ) {
            Some(e) => {
                return Err(e);
            },
            None => {},
        }
        match validate_point_locks(&s, &point_locks) {
            Ok(_) => {},
            Err(e) => {
                return Err(GameError::Lock(e));
            },
        }
        let cells: usize = s.arena_len;
        let (a, p) = match read_arena(body, 0, cells) {
            Ok(x) => x,
            Err(e) => {
                return Err(GameError::File(e));
            },
        };
        let (b, _) = match read_arena(body, p, cells) {
            Ok(x) => x,
            Err(e) => {
                return Err(GameError::File(e));
            },
        };
        s.regrets = to_numbers(&a);
        s.strat_sum = to_numbers(&b);
        s.iteration = iteration;
        s.seat_frozen = seat_frozen;
        s.seat_profiles = seat_profiles;
        s.hero = hero;
        s.pre_hero_frozen = pre_hero_frozen;
        assert(s.field().tree == preflop_build::tree_of::<S>(config, *limits)->0);
        s.put_pins(&point_locks);
        Ok(s)
    }

    fn put_pins(&mut self, locks: &Vec<(u32, Vec<S>)>)
        requires
            old(self).wf(),
            old(self).field().seats.pins =~= pins_with(Seq::empty(), old(self).nodes@.len() as int),
            locks_fault(old(self).field().tree.nodes, locks@, 0) is None,
        ensures
            final(self).wf(),
            final(self).cfg == old(self).cfg,
            final(self).eq == old(self).eq,
            final(self).iteration == old(self).iteration,
            final(self).arenas() == old(self).arenas(),
            final(self).field() == (Field {
                seats: Seating {
                    pins: pins_with(listing(locks@), old(self).nodes@.len() as int),
                    ..old(self).field().seats
                },
                ..old(self).field()
            }),
    {
        let ghost was = self.field();
        let ghost nodes = self.nodes@.len() as int;
        let ghost all = listing(locks@);
        let mut k: usize = 0;
        assert(all.take(0) =~= Seq::empty());
        while k < locks.len()
            invariant
                k <= locks@.len(),
                self.wf(),
                self.cfg == old(self).cfg,
                self.eq == old(self).eq,
                self.iteration == old(self).iteration,
                self.arenas() == old(self).arenas(),
                self.nodes@.len() == nodes,
                all == listing(locks@),
                was == old(self).field(),
                locks_fault(was.tree.nodes, locks@, k as int) is None,
                self.field() == (Field {
                    seats: Seating { pins: pins_with(all.take(k as int), nodes), ..was.seats },
                    ..was
                }),
            decreases locks@.len() - k,
        {
            let idx: usize = locks[k].0 as usize;
            proof {
                assert(lock_fault(was.tree.nodes, locks@[k as int].0, locks@[k as int].1@) is None);
                self.lemma_node(idx as int);
                assert(all.take(k + 1).drop_last() =~= all.take(k as int));
                assert(all.take(k + 1).last() == (locks@[k as int].0, locks@[k as int].1@));
            }
            self.put_pin(idx, Some(copied(locks[k].1.as_slice())));
            k = k + 1;
        }
        assert(all.take(all.len() as int) =~= all);
    }

    /// The strategies pinned at single nodes, as a header lists them.
    pub fn locked_points(&self) -> (r: Vec<(u32, Vec<S>)>)
        requires
            self.wf(),
        ensures
            listing(r@) == listed(self.field().seats.pins, self.nodes@.len() as int),
    {
        let ghost pins = self.field().seats.pins;
        let mut out: Vec<(u32, Vec<S>)> = Vec::new();
        let mut k: usize = 0;
        assert(listing(out@) =~= listed(pins, 0));
        while k < self.point_locks.len()
            invariant
                k <= self.point_locks@.len() == self.nodes@.len(),
                self.nodes@.len() <= u32::MAX,
                pins == self.field().seats.pins,
                listing(out@) == listed(pins, k as int),
            decreases self.point_locks@.len() - k,
        {
            let ghost before = listing(out@);
            match &self.point_locks[k] {
                Some(sigma) => {
                    out.push((k as u32, copied(sigma.as_slice())));
                    assert(listing(out@) =~= before.push((k as u32, sigma@)));
                },
                None => {},
            }
            k = k + 1;
        }
        out
    }
}

/// Law: the listed pins, pinned again, are the pins that were listed.
pub proof fn law_pins_come_back<S>(pins: Seq<Option<Seq<S>>>)
    requires
        pins.len() <= u32::MAX,
    ensures
        pins_with(listed(pins, pins.len() as int), pins.len() as int) == pins,
{
    lemma_pins_below(pins, pins.len() as int);
    assert(pins_with(listed(pins, pins.len() as int), pins.len() as int) =~= pins);
}

proof fn lemma_pins_below<S>(pins: Seq<Option<Seq<S>>>, k: int)
    requires
        0 <= k <= pins.len() <= u32::MAX,
    ensures
        ({
            let back = pins_with(listed(pins, k), pins.len() as int);
            &&& back.len() == pins.len()
            &&& forall|i: int|
                0 <= i < pins.len() ==> #[trigger] back[i] == if i < k {
                    pins[i]
                } else {
                    None
                }
        }),
    decreases k,
{
    if k > 0 {
        lemma_pins_below(pins, k - 1);
        match pins[k - 1] {
            Some(sigma) => {
                assert(listed(pins, k).drop_last() =~= listed(pins, k - 1));
            },
            None => {},
        }
    }
}

/// Law: what is saved is read back, word for word, behind any header line
/// without line breaks.
pub proof fn law_game_read_back(header: Seq<u8>, a: Seq<u32>, b: Seq<u32>)
    requires
        forall|k: int| 0 <= k < header.len() ==> header[k] != 10,
        a.len() < framing::span(8),
        b.len() == a.len(),
    ensures
        ({
            let file = game_bytes(header, a, b);
            let at = (magic_bytes().len() + header.len()) as int;
            &&& framing::header_end(magic_bytes(), file) == Ok::<int, SaveError>(at)
            &&& file.subrange(magic_bytes().len() as int, at) == header
            &&& arenas_read(file.skip(at + 1), a.len() as int) == Ok::<
                (Seq<u32>, Seq<u32>),
                SaveError,
            >((a, b))
        }),
{
    let file = game_bytes(header, a, b);
    let at = (magic_bytes().len() + header.len()) as int;
    let xa = framing::arena_bytes(a);
    let xb = framing::arena_bytes(b);
    let body = xa + xb;
    assert(file =~= magic_bytes() + header + seq![10u8] + body);
    framing::law_header_read_back(magic_bytes(), header, body);
    assert(file.skip(at + 1) =~= body);
    let none = Seq::<u8>::empty();
    framing::law_arena_read_back(none, a, xb);
    assert(none + xa + xb =~= body);
    framing::law_arena_read_back(xa, b, none);
    assert(xa + xb + none =~= body);
}

} // verus!
