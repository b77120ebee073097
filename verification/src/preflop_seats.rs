//! Modelling the seats of a preflop game: frozen seats, profiles, a hero, and
//! strategies pinned at single nodes.

use crate::num::{Num, Single};
use crate::preflop_build;
use crate::preflop_solver::{Arenas, Field, PreflopSolver, Seating};
use crate::preflop_tree::KIND_ACTION;
use crate::preflop_view::PreflopQueryError;
use crate::seat_models;
use crate::seat_models::{BucketPolicy, SeatProfile};
use crate::strategy::copied;
use vstd::prelude::*;

verus! {

/// Why the seats cannot be modelled so.
#[derive(Debug, Clone, Copy, PartialEq, Eq, Structural)]
pub enum SeatError {
    /// There is not one entry per seat.
    SeatCount,
    /// A profile lacks a situation, or a policy a class.
    Profile,
    /// A seat would be held to what has not been solved.
    Unsolved,
    /// There is no such seat.
    Seat,
    /// The hero would be a seat that the table holds frozen.
    Frozen,
}

impl SeatError {
    pub open spec fn text(self) -> Seq<char> {
        match self {
            SeatError::SeatCount => "expected one entry per seat"@,
            SeatError::Profile =>
                "a profile needs every situation, and a policy a frequency for every class"@,
            SeatError::Unsolved =>
                "solve first: a seat held to an unsolved strategy would play at random"@,
            SeatError::Seat => "there is no such hero seat"@,
            SeatError::Frozen => "this seat is frozen: unfreeze it before making it the hero"@,
        }
    }

    /// What to tell the user.
    pub fn message(&self) -> (r: &'static str)
        ensures
            r@ == self.text(),
    {
        match self {
            SeatError::SeatCount => "expected one entry per seat",
            SeatError::Profile =>
                "a profile needs every situation, and a policy a frequency for every class",
            SeatError::Unsolved =>
                "solve first: a seat held to an unsolved strategy would play at random",
            SeatError::Seat => "there is no such hero seat",
            SeatError::Frozen => "this seat is frozen: unfreeze it before making it the hero",
        }
    }
}

/// Why a strategy cannot be pinned.
#[derive(Debug, Clone, Copy, PartialEq, Eq, Structural)]
pub enum PinError {
    /// The line leaves the tree.
    Path,
    /// No seat acts where it leads.
    NotADecision,
    /// The policy lacks a class.
    Policy,
    /// There is no solved strategy to pin.
    Unsolved,
}

impl PinError {
    pub open spec fn text(self) -> Seq<char> {
        match self {
            PinError::Path => "bad path"@,
            PinError::NotADecision => "no seat acts there"@,
            PinError::Policy => "a policy needs a frequency for every class"@,
            PinError::Unsolved => "solve first: there is no solved strategy to lock"@,
        }
    }

    /// What to tell the user.
    pub fn message(&self) -> (r: &'static str)
        ensures
            r@ == self.text(),
    {
        match self {
            PinError::Path => "bad path",
            PinError::NotADecision => "no seat acts there",
            PinError::Policy => "a policy needs a frequency for every class",
            PinError::Unsolved => "solve first: there is no solved strategy to lock",
        }
    }
}

// ---------------------------------------------------------------------------
// The table
// ---------------------------------------------------------------------------

/// Whether a profile has a policy for every situation.
pub open spec fn ruled<S: Single>(profile: Option<SeatProfile<S>>) -> bool {
    profile is Some && profile->0.complete()
}

/// Whether a profile is given to a seat or taken from one.
pub open spec fn reads_change<S: Single>(
    was: Seq<Option<SeatProfile<S>>>,
    now: Seq<Option<SeatProfile<S>>>,
) -> bool {
    ||| exists|q: int| 0 <= q < was.len() && (#[trigger] was[q]) is Some
    ||| exists|q: int| 0 <= q < now.len() && (#[trigger] now[q]) is Some
}

/// Why a table cannot be set, if it cannot. A seat may be frozen only where
/// there is something to hold it to: a solve, what the table holds it to
/// already, or a policy for every situation.
pub open spec fn table_fault<S: Single>(
    n: int,
    iteration: u32,
    held: Seq<bool>,
    frozen: Seq<bool>,
    profiles: Seq<Option<SeatProfile<S>>>,
) -> Option<SeatError> {
    if frozen.len() != n || profiles.len() != n {
        Some(SeatError::SeatCount)
    } else if exists|q: int|
        0 <= q < n && (#[trigger] profiles[q]) is Some && !profiles[q]->0.wf() {
        Some(SeatError::Profile)
    } else if iteration == 0 && exists|q: int|
        0 <= q < n && #[trigger] frozen[q] && !held[q] && !ruled(profiles[q]) {
        Some(SeatError::Unsolved)
    } else {
        None
    }
}

impl<S: Single> Seating<S> {
    /// Which seats the table holds frozen, whatever a hero asks of the rest.
    pub open spec fn table_flags(self) -> Seq<bool> {
        match self.hero {
            Some(_) => self.pre_hero->0,
            None => self.frozen,
        }
    }

    /// The seating of a table that is set anew.
    pub open spec fn set(self, frozen: Seq<bool>, profiles: Seq<Option<SeatProfile<S>>>) -> Self {
        Seating { frozen, profiles, hero: None, pre_hero: None, pins: self.pins }
    }

    /// The seating with a hero: everyone else is frozen.
    pub open spec fn with_hero(self, h: usize) -> Self {
        Seating {
            frozen: Seq::new(self.frozen.len(), |q: int| q != h),
            hero: Some(h),
            pre_hero: Some(self.table_flags()),
            ..self
        }
    }

    /// The seating without a hero.
    pub open spec fn without_hero(self) -> Self {
        Seating { frozen: self.table_flags(), hero: None, pre_hero: None, ..self }
    }

    /// Why a seat cannot be the hero, if it cannot: the hero starts from
    /// nothing, so a frozen seat would lose what it is held to; and there
    /// must be something to hold the others to.
    pub open spec fn hero_fault(self, iteration: u32, h: usize) -> Option<SeatError> {
        let n = self.frozen.len();
        if h >= n {
            Some(SeatError::Seat)
        } else if self.table_flags()[h as int] && !ruled(self.profiles[h as int]) {
            Some(SeatError::Frozen)
        } else if iteration == 0 && exists|q: int|
            0 <= q < n && q != h && !self.table_flags()[q] && !ruled(#[trigger] self.profiles[q]) {
            Some(SeatError::Unsolved)
        } else {
            None
        }
    }
}

impl<S: Single> Field<S> {
    /// The arenas with the cells of the told seats' nodes among the first `k`
    /// at zero.
    pub open spec fn wiped(self, ar: Arenas<S>, who: Seq<bool>, k: int) -> Arenas<S>
        decreases k,
    {
        if k <= 0 {
            ar
        } else {
            let before = self.wiped(ar, who, k - 1);
            let nd = self.tree.nodes[k - 1];
            if nd.kind == KIND_ACTION && who[nd.actor as int] {
                let end = nd.data_off + preflop_build::cells(nd.actions.len());
                Arenas {
                    regrets: zeroed(before.regrets, nd.data_off as int, end),
                    strat: zeroed(before.strat, nd.data_off as int, end),
                }
            } else {
                before
            }
        }
    }
}

/// An arena with the cells from `from` to `to` at zero.
pub open spec fn zeroed<S: Num>(arena: Seq<S>, from: int, to: int) -> Seq<S> {
    Seq::new(
        arena.len(),
        |j: int|
            if from <= j < to {
                S::decimal_spec(0, 0)
            } else {
                arena[j]
            },
    )
}

fn zero_out<S: Num>(arena: &mut Vec<S>, from: usize, to: usize)
    requires
        from <= to <= old(arena)@.len(),
    ensures
        final(arena)@ == zeroed(old(arena)@, from as int, to as int),
{
    let ghost was = arena@;
    let mut j: usize = from;
    assert(arena@ =~= zeroed(was, from as int, from as int));
    while j < to
        invariant
            from <= j <= to <= arena@.len(),
            arena@.len() == was.len(),
            arena@ == zeroed(was, from as int, j as int),
        decreases to - j,
    {
        arena.set(j, S::decimal(0, 0));
        assert(arena@ =~= zeroed(was, from as int, j + 1));
        j = j + 1;
    }
}

fn is_ruled<S: Single>(profile: &Option<SeatProfile<S>>) -> (r: bool)
    requires
        *profile is Some ==> profile->0.wf(),
    ensures
        r == ruled(*profile),
{
    match profile {
        Some(p) => p.is_complete(),
        None => false,
    }
}

fn table_refusal<S: Single>(
    n: usize,
    iteration: u32,
    held: &Vec<bool>,
    frozen: &Vec<bool>,
    profiles: &Vec<Option<SeatProfile<S>>>,
) -> (r: Option<SeatError>)
    requires
        held@.len() == n,
    ensures
        r == table_fault(n as int, iteration, held@, frozen@, profiles@),
{
    if frozen.len() != n || profiles.len() != n {
        return Some(SeatError::SeatCount);
    }
    let mut q: usize = 0;
    while q < n
        invariant
            q <= n,
            profiles@.len() == n,
            frozen@.len() == n,
            forall|x: int|
                0 <= x < q && (#[trigger] profiles@[x]) is Some ==> profiles@[x]->0.wf(),
        decreases n - q,
    {
        match &profiles[q] {
            Some(profile) => {
                if !profile.is_wf() {
                    assert(profiles@[q as int] is Some && !profiles@[q as int]->0.wf());
                    return Some(SeatError::Profile);
                }
            },
            None => {},
        }
        q = q + 1;
    }
    if iteration == 0 {
        let mut q: usize = 0;
        while q < n
            invariant
                q <= n,
                profiles@.len() == n,
                frozen@.len() == n,
                iteration == 0,
                forall|x: int|
                    0 <= x < n && (#[trigger] profiles@[x]) is Some ==> profiles@[x]->0.wf(),
                held@.len() == n,
                forall|x: int|
                    0 <= x < q && #[trigger] frozen@[x] ==> held@[x] || ruled(profiles@[x]),
            decreases n - q,
        {
            if frozen[q] && !held[q] && !is_ruled(&profiles[q]) {
                assert(frozen@[q as int] && !held@[q as int] && !ruled(profiles@[q as int]));
                return Some(SeatError::Unsolved);
            }
            q = q + 1;
        }
    }
    None
}

fn any_profile<S: Single>(profiles: &Vec<Option<SeatProfile<S>>>) -> (r: bool)
    ensures
        r <==> exists|q: int| 0 <= q < profiles@.len() && (#[trigger] profiles@[q]) is Some,
{
    let mut q: usize = 0;
    while q < profiles.len()
        invariant
            q <= profiles@.len(),
            forall|x: int| 0 <= x < q ==> (#[trigger] profiles@[x]) is None,
        decreases profiles@.len() - q,
    {
        if profiles[q].is_some() {
            assert(profiles@[q as int] is Some);
            return true;
        }
        q = q + 1;
    }
    false
}

impl<S: Single> PreflopSolver<S> {
    /// Whether anything but the solver itself decides how a seat plays.
    pub open spec fn overridden(&self) -> bool {
        let s = self.field().seats;
        ||| s.hero is Some
        ||| exists|q: int| 0 <= q < self.n && #[trigger] s.frozen[q]
        ||| exists|q: int| 0 <= q < self.n && (#[trigger] s.profiles[q]) is Some
        ||| exists|i: int| 0 <= i < s.pins.len() && (#[trigger] s.pins[i]) is Some
    }

    /// [`Self::overridden`], computed.
    pub fn has_overrides(&self) -> (r: bool)
        requires
            self.wf(),
        ensures
            r == self.overridden(),
    {
        if self.hero.is_some() {
            return true;
        }
        let ghost s = self.field().seats;
        let mut q: usize = 0;
        while q < self.n
            invariant
                q <= self.n,
                self.wf(),
                s == self.field().seats,
                forall|x: int| 0 <= x < q ==> !(#[trigger] s.frozen[x]),
                forall|x: int| 0 <= x < q ==> (#[trigger] s.profiles[x]) is None,
            decreases self.n - q,
        {
            if self.seat_frozen[q] {
                assert(s.frozen[q as int]);
                return true;
            }
            if self.seat_profiles[q].is_some() {
                assert(s.profiles[q as int] is Some);
                return true;
            }
            q = q + 1;
        }
        let mut i: usize = 0;
        while i < self.point_locks.len()
            invariant
                i <= self.point_locks@.len(),
                self.wf(),
                s == self.field().seats,
                forall|x: int| 0 <= x < i ==> (#[trigger] s.pins[x]) is None,
            decreases self.point_locks@.len() - i,
        {
            if self.point_locks[i].is_some() {
                assert(s.pins[i as int] is Some);
                return true;
            }
            i = i + 1;
        }
        false
    }

    /// Sets the table: which seats are frozen and how they are modelled. Any
    /// hero leaves. Where a profile is given or taken away, the seats that
    /// adapt start anew: what they had learnt was learnt against others.
    pub fn set_table(
        &mut self,
        frozen: Vec<bool>,
        profiles: Vec<Option<SeatProfile<S>>>,
    ) -> (r: Result<(), SeatError>)
        requires
            old(self).wf(),
        ensures
            final(self).wf(),
            ({
                let was = old(self).field();
                match table_fault(
                    old(self).n as int,
                    old(self).iteration,
                    was.seats.table_flags(),
                    frozen@,
                    profiles@,
                ) {
                    Some(e) => r == Err::<(), SeatError>(e) && *final(self) == *old(self),
                    None => {
                        &&& r is Ok
                        &&& final(self).field() == (Field {
                            seats: was.seats.set(frozen@, profiles@),
                            ..was
                        })
                        &&& if reads_change(was.seats.profiles, profiles@) {
                            final(self).iteration == 0 && final(self).arenas() == was.wiped(
                                old(self).arenas(),
                                Seq::new(old(self).n as nat, |q: int| !frozen@[q]),
                                old(self).nodes@.len() as int,
                            )
                        } else {
                            final(self).iteration == old(self).iteration && final(self).arenas()
                                == old(self).arenas()
                        }
                    },
                }
            }),
    {
        let held = self.flags();
        match table_refusal(self.n, self.iteration, &held, &frozen, &profiles) {
            Some(e) => {
                return Err(e);
            },
            None => {},
        }
        let ghost was = self.field();
        if any_profile(&self.seat_profiles) || any_profile(&profiles) {
            let mut who: Vec<bool> = Vec::new();
            let mut q: usize = 0;
            while q < self.n
                invariant
                    q <= self.n == frozen@.len(),
                    who@ == Seq::new(q as nat, |x: int| !frozen@[x]),
                decreases self.n - q,
            {
                who.push(!frozen[q]);
                q = q + 1;
                assert(who@ =~= Seq::new(q as nat, |x: int| !frozen@[x]));
            }
            self.wipe(&who);
            self.iteration = 0;
        }
        self.seat_frozen = frozen;
        self.seat_profiles = profiles;
        self.hero = None;
        self.pre_hero_frozen = None;
        assert(self.field().seats == was.seats.set(frozen@, profiles@));
        assert(self.field().tree == was.tree);
        Ok(())
    }

    fn wipe(&mut self, who: &Vec<bool>)
        requires
            old(self).wf(),
            who@.len() == old(self).n,
        ensures
            final(self).wf(),
            final(self).n == old(self).n,
            final(self).field() == old(self).field(),
            final(self).iteration == old(self).iteration,
            final(self).arenas() == old(self).field().wiped(
                old(self).arenas(),
                who@,
                old(self).nodes@.len() as int,
            ),
    {
        let ghost f = self.field();
        let ghost ar = self.arenas();
        let mut k: usize = 0;
        while k < self.nodes.len()
            invariant
                k <= self.nodes@.len(),
                self.nodes@.len() == old(self).nodes@.len(),
                self.wf(),
                f == self.field(),
                f == old(self).field(),
                ar == old(self).arenas(),
                self.iteration == old(self).iteration,
                who@.len() == self.n,
                self.arenas() == f.wiped(ar, who@, k as int),
            decreases self.nodes@.len() - k,
        {
            proof {
                self.lemma_node(k as int);
            }
            if self.nodes[k].kind == KIND_ACTION && who[self.nodes[k].actor as usize] {
                let off: usize = self.nodes[k].data_off;
                let end: usize = off + self.nodes[k].actions.len() * 169;
                zero_out(&mut self.regrets, off, end);
                zero_out(&mut self.strat_sum, off, end);
                assert(self.field() == f);
            }
            k = k + 1;
        }
    }

    fn flags(&self) -> (r: Vec<bool>)
        requires
            self.wf(),
        ensures
            r@ == self.field().seats.table_flags(),
            r@.len() == self.n,
    {
        match self.hero {
            Some(_) => match &self.pre_hero_frozen {
                Some(flags) => copied(flags.as_slice()),
                None => {
                    assert(false);
                    Vec::new()
                },
            },
            None => copied(self.seat_frozen.as_slice()),
        }
    }

    fn hero_refusal(&self, h: usize, table: &Vec<bool>) -> (r: Option<SeatError>)
        requires
            self.wf(),
            table@ == self.field().seats.table_flags(),
            table@.len() == self.n,
        ensures
            r == self.field().seats.hero_fault(self.iteration, h),
    {
        let ghost s = self.field().seats;
        if h >= self.n {
            return Some(SeatError::Seat);
        }
        assert(s.profiles[h as int] == self.seat_profiles@[h as int]);
        if table[h] && !is_ruled(&self.seat_profiles[h]) {
            return Some(SeatError::Frozen);
        }
        if self.iteration == 0 {
            let mut q: usize = 0;
            while q < self.n
                invariant
                    q <= self.n,
                    self.wf(),
                    s == self.field().seats,
                    self.iteration == 0,
                    h < self.n,
                    !s.table_flags()[h as int] || ruled(s.profiles[h as int]),
                    table@ == s.table_flags(),
                    table@.len() == self.n,
                    forall|x: int|
                        0 <= x < q && x != h ==> s.table_flags()[x] || ruled(
                            #[trigger] s.profiles[x],
                        ),
                decreases self.n - q,
            {
                assert(s.profiles[q as int] == self.seat_profiles@[q as int]);
                if q != h && !table[q] && !is_ruled(&self.seat_profiles[q]) {
                    assert(!ruled(s.profiles[q as int]));
                    return Some(SeatError::Unsolved);
                }
                q = q + 1;
            }
        }
        None
    }

    /// Makes a seat the hero, or lets the hero leave. A hero starts from
    /// nothing, while everyone else stays as solved; without it, the table
    /// is as frozen as it was.
    pub fn set_hero(&mut self, seat: Option<usize>) -> (r: Result<(), SeatError>)
        requires
            old(self).wf(),
        ensures
            final(self).wf(),
            match seat {
                None => {
                    &&& r is Ok
                    &&& final(self).iteration == old(self).iteration
                    &&& final(self).arenas() == old(self).arenas()
                    &&& final(self).field() == (Field {
                        seats: old(self).field().seats.without_hero(),
                        ..old(self).field()
                    })
                },
                Some(h) => match old(self).field().seats.hero_fault(old(self).iteration, h) {
                    Some(e) => r == Err::<(), SeatError>(e) && *final(self) == *old(self),
                    None => {
                        &&& r is Ok
                        &&& final(self).iteration == 0
                        &&& final(self).arenas() == old(self).field().wiped(
                            old(self).arenas(),
                            Seq::new(old(self).n as nat, |q: int| q == h),
                            old(self).nodes@.len() as int,
                        )
                        &&& final(self).field() == (Field {
                            seats: old(self).field().seats.with_hero(h),
                            ..old(self).field()
                        })
                    },
                },
            },
    {
        let table = self.flags();
        let ghost was = self.field();
        match seat {
            None => {
                self.seat_frozen = table;
                self.hero = None;
                self.pre_hero_frozen = None;
                assert(self.field().seats == was.seats.without_hero());
                assert(self.field().tree == was.tree);
                Ok(())
            },
            Some(h) => {
                match self.hero_refusal(h, &table) {
                    Some(e) => {
                        return Err(e);
                    },
                    None => {},
                }
                let mut frozen: Vec<bool> = Vec::new();
                let mut who: Vec<bool> = Vec::new();
                let mut q: usize = 0;
                while q < self.n
                    invariant
                        q <= self.n,
                        frozen@ == Seq::new(q as nat, |x: int| x != h),
                        who@ == Seq::new(q as nat, |x: int| x == h),
                    decreases self.n - q,
                {
                    frozen.push(q != h);
                    who.push(q == h);
                    q = q + 1;
                    assert(frozen@ =~= Seq::new(q as nat, |x: int| x != h));
                    assert(who@ =~= Seq::new(q as nat, |x: int| x == h));
                }
                self.wipe(&who);
                assert(frozen@ =~= was.seats.with_hero(h).frozen);
                self.seat_frozen = frozen;
                self.hero = Some(h);
                self.pre_hero_frozen = Some(table);
                self.iteration = 0;
                assert(self.field().seats == was.seats.with_hero(h));
                assert(self.field().tree == was.tree);
                Ok(())
            },
        }
    }

    // -----------------------------------------------------------------------
    // Single nodes
    // -----------------------------------------------------------------------

    /// What pinning the strategy at the end of a line comes to: the node and
    /// the strategy, or why it cannot be done. Without a policy, what counts
    /// there now is pinned.
    pub open spec fn pinned(&self, path: Seq<usize>, policy: Option<BucketPolicy<S>>) -> Result<
        (int, Seq<S>),
        PinError,
    > {
        let f = self.field();
        match f.led(self.strat_sum@, path) {
            None => Err(PinError::Path),
            Some(at) => {
                let nd = f.tree.nodes[at.node];
                if nd.kind != KIND_ACTION {
                    Err(PinError::NotADecision)
                } else {
                    match policy {
                        Some(p) => if p.wf() {
                            Ok((at.node, seat_models::played_by(nd.actions, p)))
                        } else {
                            Err(PinError::Policy)
                        },
                        None => if self.iteration > 0 {
                            Ok((at.node, f.plays(self.strat_sum@, at.node)))
                        } else {
                            Err(PinError::Unsolved)
                        },
                    }
                }
            },
        }
    }

    pub(crate) fn put_pin(&mut self, node: usize, pin: Option<Vec<S>>)
        requires
            old(self).wf(),
            node < old(self).nodes@.len(),
            pin is Some ==> old(self).nodes@[node as int].kind == KIND_ACTION && pin->0@.len()
                == old(self).nodes@[node as int].actions@.len() * 169,
        ensures
            final(self).wf(),
            final(self).eq == old(self).eq,
            final(self).iteration == old(self).iteration,
            final(self).arenas() == old(self).arenas(),
            final(self).field() == (Field {
                seats: Seating {
                    pins: old(self).field().seats.pins.update(
                        node as int,
                        match pin {
                            Some(sigma) => Some(sigma@),
                            None => None,
                        },
                    ),
                    ..old(self).field().seats
                },
                ..old(self).field()
            }),
    {
        let ghost was = self.field();
        proof {
            self.lemma_node(node as int);
        }
        self.point_locks.set(node, pin);
        proof {
            let now = self.field();
            assert(now.tree == was.tree);
            assert(now.seats.pins =~= was.seats.pins.update(
                node as int,
                match pin {
                    Some(sigma) => Some(sigma@),
                    None => None,
                },
            ));
            assert forall|i: int|
                0 <= i < now.tree.nodes.len() && (#[trigger] now.seats.pins[i]) is Some implies
                now.tree.nodes[i].kind == KIND_ACTION && now.seats.pins[i]->0.len()
                == preflop_build::cells(now.tree.nodes[i].actions.len()) by {
                if i != node {
                    assert(was.seats.pins[i] is Some);
                }
            }
        }
    }

    /// Pins a strategy at the end of a line: that of a policy, or what counts
    /// there now.
    pub fn lock_point(&mut self, path: &[usize], policy: Option<BucketPolicy<S>>) -> (r: Result<
        (),
        PinError,
    >)
        requires
            old(self).wf(),
        ensures
            final(self).wf(),
            final(self).iteration == old(self).iteration,
            final(self).arenas() == old(self).arenas(),
            match old(self).pinned(path@, policy) {
                Err(e) => r == Err::<(), PinError>(e) && *final(self) == *old(self),
                Ok((node, sigma)) => {
                    &&& r is Ok
                    &&& final(self).field() == (Field {
                        seats: Seating {
                            pins: old(self).field().seats.pins.update(node, Some(sigma)),
                            ..old(self).field().seats
                        },
                        ..old(self).field()
                    })
                },
            },
    {
        let (node, _) = match self.walk(path) {
            Ok(x) => x,
            Err(_) => {
                return Err(PinError::Path);
            },
        };
        if self.nodes[node].kind != KIND_ACTION {
            return Err(PinError::NotADecision);
        }
        proof {
            self.lemma_node(node as int);
        }
        let sigma = match policy {
            Some(p) => {
                if !p.is_wf() {
                    return Err(PinError::Policy);
                }
                p.strategy(&self.nodes[node].actions)
            },
            None => {
                if self.iteration == 0 {
                    return Err(PinError::Unsolved);
                }
                self.average_strategy(node)
            },
        };
        self.put_pin(node, Some(sigma));
        Ok(())
    }

    /// Takes back what is pinned at the end of a line, and tells whether
    /// anything was.
    pub fn unlock_point(&mut self, path: &[usize]) -> (r: Result<bool, PreflopQueryError>)
        requires
            old(self).wf(),
        ensures
            final(self).wf(),
            final(self).iteration == old(self).iteration,
            final(self).arenas() == old(self).arenas(),
            match old(self).field().led(old(self).strat_sum@, path@) {
                None => r == Err::<bool, PreflopQueryError>(PreflopQueryError::BadPath)
                    && *final(self) == *old(self),
                Some(at) => {
                    &&& r == Ok::<bool, PreflopQueryError>(
                        old(self).field().seats.pins[at.node] is Some,
                    )
                    &&& final(self).field() == (Field {
                        seats: Seating {
                            pins: old(self).field().seats.pins.update(at.node, None),
                            ..old(self).field().seats
                        },
                        ..old(self).field()
                    })
                },
            },
    {
        let (node, _) = match self.walk(path) {
            Ok(x) => x,
            Err(e) => {
                return Err(e);
            },
        };
        let found = self.point_locks[node].is_some();
        self.put_pin(node, None);
        Ok(found)
    }
}

} // verus!
