//! Reports on many flops: what each flop's row says, and what to do next
//! while the flops are solved one after the other.

use crate::inspect::{HandView, NodeView, PlayerView};
use crate::num::{Num, Single};
use crate::session::{join, AlreadyRunning};
use crate::strategy::filled;
use crate::text::{chars_of, push_all, string_of};
use vstd::prelude::*;

verus! {

/// How many flops a report covers that names no number.
pub fn report_dflt_flops() -> (r: usize)
    ensures
        r == 95,
{
    95
}

/// How many iterations a report's solves run for that names no number.
pub fn report_dflt_iters() -> (r: u32)
    ensures
        r == 600,
{
    600
}

/// The target of a report that names none, in percent of the pot.
pub fn report_dflt_target<N: Num>() -> (r: N)
    ensures
        r == N::decimal_spec(35, 2),
{
    N::decimal(35, 2)
}

// ---------------------------------------------------------------------------
// What a row says
// ---------------------------------------------------------------------------

/// How a player's whole range does at a node.
#[derive(Clone, Copy)]
pub struct PlayerStats<W> {
    pub ev: W,
    pub eq: W,
    /// The part of its equity that the range realizes.
    pub eqr: W,
}

/// How the player to act plays at a node.
pub struct NodeStrategy<W> {
    pub actor: usize,
    pub actions: Vec<String>,
    pub kinds: Vec<String>,
    pub freqs: Vec<W>,
}

/// Sums over hands that have an equity and an expected value, weighted by
/// how likely the hand is to be met.
#[derive(Clone, Copy)]
pub struct Sums<W> {
    pub ev: W,
    pub eq: W,
    pub weight: W,
}

pub open spec fn sums_below<S: Single>(hands: Seq<HandView<S>>, k: int) -> Sums<S::Wide>
    decreases k,
{
    if k <= 0 {
        let zero = S::Wide::decimal_spec(0, 0);
        Sums { ev: zero, eq: zero, weight: zero }
    } else {
        let before = sums_below(hands, k - 1);
        let h = hands[k - 1];
        match (h.eq, h.ev) {
            (Some(eq), Some(ev)) => {
                let w = h.reach.widened_spec().times_spec(h.valid.widened_spec());
                Sums {
                    ev: before.ev.plus_spec(ev.widened_spec().times_spec(w)),
                    eq: before.eq.plus_spec(eq.widened_spec().times_spec(w)),
                    weight: before.weight.plus_spec(w),
                }
            },
            _ => before,
        }
    }
}

/// The averages that sums stand for.
pub open spec fn averages<W: Num>(sums: Sums<W>, pot: W) -> PlayerStats<W> {
    let zero = W::decimal_spec(0, 0);
    let met = W::decimal_spec(1, 12).below_spec(sums.weight);
    let ev = if met {
        sums.ev.over_spec(sums.weight)
    } else {
        zero
    };
    let eq = if met {
        sums.eq.over_spec(sums.weight)
    } else {
        zero
    };
    PlayerStats {
        ev,
        eq,
        eqr: if W::decimal_spec(2, 2).below_spec(eq) {
            ev.over_spec(pot.times_spec(eq))
        } else {
            zero
        },
    }
}

/// How much of the first `k` hands' reach takes the `a`-th action.
pub open spec fn taken_below<S: Single>(hands: Seq<HandView<S>>, a: int, k: int) -> S::Wide
    decreases k,
{
    if k <= 0 {
        S::Wide::decimal_spec(0, 0)
    } else {
        let before = taken_below(hands, a, k - 1);
        match hands[k - 1].strategy {
            Some(st) => before.plus_spec(
                st@[a].widened_spec().times_spec(hands[k - 1].reach.widened_spec()),
            ),
            None => before,
        }
    }
}

/// How much reach the first `k` hands with a strategy have.
pub open spec fn acting_below<S: Single>(hands: Seq<HandView<S>>, k: int) -> S::Wide
    decreases k,
{
    if k <= 0 {
        S::Wide::decimal_spec(0, 0)
    } else {
        let before = acting_below(hands, k - 1);
        match hands[k - 1].strategy {
            Some(_) => before.plus_spec(hands[k - 1].reach.widened_spec()),
            None => before,
        }
    }
}

/// How often a range takes the `a`-th action.
pub open spec fn action_rate<S: Single>(hands: Seq<HandView<S>>, a: int) -> S::Wide {
    let n = hands.len() as int;
    if S::Wide::decimal_spec(1, 12).below_spec(acting_below(hands, n)) {
        taken_below(hands, a, n).over_spec(acting_below(hands, n))
    } else {
        S::Wide::decimal_spec(0, 0)
    }
}

/// Whether a view's strategies cover its actions.
pub open spec fn covered<S: Single>(view: NodeView<S>) -> bool {
    match view.player {
        None => true,
        Some(p) => p < 2 && hands_covered(view.players[p as int].hands@, view.actions@.len()),
    }
}

pub open spec fn hands_covered<S>(hands: Seq<HandView<S>>, na: nat) -> bool {
    forall|i: int|
        0 <= i < hands.len() ==> match (#[trigger] hands[i]).strategy {
            Some(st) => st@.len() == na,
            None => true,
        }
}

fn player_stats<S: Single>(player: &PlayerView<S>, pot: S::Wide) -> (r: PlayerStats<S::Wide>)
    ensures
        r == averages(sums_below(player.hands@, player.hands@.len() as int), pot),
{
    let zero = S::Wide::decimal(0, 0);
    let mut sums = Sums { ev: zero, eq: zero, weight: zero };
    let mut i: usize = 0;
    while i < player.hands.len()
        invariant
            i <= player.hands@.len(),
            sums == sums_below(player.hands@, i as int),
        decreases player.hands@.len() - i,
    {
        let h = &player.hands[i];
        match (h.eq, h.ev) {
            (Some(eq), Some(ev)) => {
                let w = h.reach.widened().times(h.valid.widened());
                sums = Sums {
                    ev: sums.ev.plus(ev.widened().times(w)),
                    eq: sums.eq.plus(eq.widened().times(w)),
                    weight: sums.weight.plus(w),
                };
            },
            _ => {},
        }
        i = i + 1;
    }
    let met = S::Wide::decimal(1, 12).below(sums.weight);
    let ev = if met {
        sums.ev.over(sums.weight)
    } else {
        zero
    };
    let eq = if met {
        sums.eq.over(sums.weight)
    } else {
        zero
    };
    let eqr = if S::Wide::decimal(2, 2).below(eq) {
        ev.over(pot.times(eq))
    } else {
        zero
    };
    PlayerStats { ev, eq, eqr }
}

fn action_rates<S: Single>(hands: &Vec<HandView<S>>, na: usize) -> (r: Vec<S::Wide>)
    requires
        hands_covered(hands@, na as nat),
    ensures
        r@ == Seq::new(na as nat, |a: int| action_rate(hands@, a)),
{
    let zero = S::Wide::decimal(0, 0);
    let mut sums = filled(na, zero);
    let mut all = zero;
    let mut i: usize = 0;
    while i < hands.len()
        invariant
            i <= hands@.len(),
            hands_covered(hands@, na as nat),
            sums@.len() == na,
            all == acting_below(hands@, i as int),
            forall|a: int| 0 <= a < na ==> #[trigger] sums@[a] == taken_below(hands@, a, i as int),
        decreases hands@.len() - i,
    {
        let h = &hands[i];
        match &h.strategy {
            Some(st) => {
                let reach = h.reach.widened();
                all = all.plus(reach);
                let mut a: usize = 0;
                assert(st@.len() == na) by {
                    assert(hands@[i as int].strategy is Some);
                }
                while a < na
                    invariant
                        a <= na,
                        i < hands@.len(),
                        *h == hands@[i as int],
                        h.strategy == Some(*st),
                        st@.len() == na,
                        reach == h.reach.widened_spec(),
                        sums@.len() == na,
                        forall|x: int|
                            0 <= x < na ==> #[trigger] sums@[x] == if x < a {
                                taken_below(hands@, x, i + 1)
                            } else {
                                taken_below(hands@, x, i as int)
                            },
                    decreases na - a,
                {
                    let v = sums[a].plus(st[a].widened().times(reach));
                    sums.set(a, v);
                    a = a + 1;
                }
            },
            None => {
                assert forall|a: int| 0 <= a < na implies #[trigger] sums@[a] == taken_below(
                    hands@,
                    a,
                    i + 1,
                ) by {
                    assert(hands@[i as int].strategy is None);
                }
            },
        }
        i = i + 1;
    }
    let enough = S::Wide::decimal(1, 12).below(all);
    let mut out: Vec<S::Wide> = Vec::new();
    let mut a: usize = 0;
    while a < na
        invariant
            a <= na,
            sums@.len() == na,
            zero == S::Wide::decimal_spec(0, 0),
            all == acting_below(hands@, hands@.len() as int),
            enough == S::Wide::decimal_spec(1, 12).below_spec(all),
            forall|x: int|
                0 <= x < na ==> #[trigger] sums@[x] == taken_below(
                    hands@,
                    x,
                    hands@.len() as int,
                ),
            out@ == Seq::new(a as nat, |x: int| action_rate(hands@, x)),
        decreases na - a,
    {
        out.push(
            if enough {
                sums[a].over(all)
            } else {
                zero
            },
        );
        assert(out@ =~= Seq::new((a + 1) as nat, |x: int| action_rate(hands@, x)));
        a = a + 1;
    }
    out
}

/// Whether a strategy tells how the player to act plays at a node.
pub open spec fn tells<S: Single>(st: NodeStrategy<S::Wide>, view: NodeView<S>) -> bool {
    let na = view.actions@.len();
    &&& view.player == Some(st.actor as u8)
    &&& st.actor < 2
    &&& st.actions@.len() == na
    &&& st.kinds@.len() == na
    &&& forall|a: int| 0 <= a < na ==> (#[trigger] st.actions@[a])@ == view.actions@[a].label@
    &&& forall|a: int| 0 <= a < na ==> (#[trigger] st.kinds@[a])@ == view.actions@[a].kind@
    &&& st.freqs@ == Seq::new(
        na,
        |a: int| action_rate(view.players[st.actor as int].hands@, a),
    )
}

/// What a report says of a node: how both ranges do, and how the player to
/// act plays. Averages are weighted by reach and met reach, so that the two
/// players' expected values add up to the pot.
pub fn report_node_stats<S: Single>(view: &NodeView<S>, pot: S::Wide) -> (r: (
    [PlayerStats<S::Wide>; 2],
    Option<NodeStrategy<S::Wide>>,
))
    requires
        covered(*view),
    ensures
        forall|p: int|
            0 <= p < 2 ==> #[trigger] r.0[p] == averages(
                sums_below(view.players[p].hands@, view.players[p].hands@.len() as int),
                pot,
            ),
        r.1 is Some <==> view.player is Some,
        r.1 is Some ==> tells(r.1->0, *view),
{
    let players = [player_stats(&view.players[0], pot), player_stats(&view.players[1], pot)];
    let strat = match view.player {
        None => None,
        Some(p) => {
            let actor: usize = p as usize;
            let na: usize = view.actions.len();
            let mut actions: Vec<String> = Vec::new();
            let mut kinds: Vec<String> = Vec::new();
            let mut a: usize = 0;
            while a < na
                invariant
                    a <= na == view.actions@.len(),
                    actions@.len() == a,
                    kinds@.len() == a,
                    forall|x: int|
                        0 <= x < a ==> (#[trigger] actions@[x])@ == view.actions@[x].label@,
                    forall|x: int|
                        0 <= x < a ==> (#[trigger] kinds@[x])@ == view.actions@[x].kind@,
                decreases na - a,
            {
                actions.push(view.actions[a].label.clone());
                kinds.push(view.actions[a].kind.clone());
                a = a + 1;
            }
            let freqs = action_rates(&view.players[actor].hands, na);
            Some(NodeStrategy { actor, actions, kinds, freqs })
        },
    };
    (players, strat)
}

/// The action that checks, if there is one.
pub fn check_index<S: Single>(view: &NodeView<S>) -> (r: Option<usize>)
    ensures
        match r {
            Some(i) => i < view.actions@.len() && view.actions@[i as int].kind@ == "check"@
                && forall|k: int| 0 <= k < i ==> (#[trigger] view.actions@[k]).kind@ != "check"@,
            None => forall|k: int|
                0 <= k < view.actions@.len() ==> (#[trigger] view.actions@[k]).kind@ != "check"@,
        },
{
    let word = "check".to_owned();
    let mut i: usize = 0;
    while i < view.actions.len()
        invariant
            i <= view.actions@.len(),
            word@ == "check"@,
            forall|k: int| 0 <= k < i ==> (#[trigger] view.actions@[k]).kind@ != "check"@,
        decreases view.actions@.len() - i,
    {
        if view.actions[i].kind == word {
            return Some(i);
        }
        i = i + 1;
    }
    None
}

// ---------------------------------------------------------------------------
// Running a report
// ---------------------------------------------------------------------------

/// What is shown of a report.
pub struct ReportStatus {
    pub running: bool,
    pub name: String,
    /// How many flops are done.
    pub done: usize,
    pub total: usize,
    /// The flop that is being solved.
    pub board: String,
    pub error: String,
}

/// A [`ReportStatus`] as a mathematical value.
pub ghost struct ReportShown {
    pub running: bool,
    pub name: Seq<char>,
    pub done: usize,
    pub total: usize,
    pub board: Seq<char>,
    pub error: Seq<char>,
}

impl View for ReportStatus {
    type V = ReportShown;

    open spec fn view(&self) -> ReportShown {
        ReportShown {
            running: self.running,
            name: self.name@,
            done: self.done,
            total: self.total,
            board: self.board@,
            error: self.error@,
        }
    }
}

/// What a report covers.
pub struct ReportPlan<N> {
    /// The flops, in the order in which they are solved.
    pub flops: Vec<String>,
    /// Whether a player is locked to a profile on each flop.
    pub villain: bool,
    /// The memory for solver arenas, in megabytes.
    pub cap_mb: N,
}

/// How far a report has got.
pub struct ReportRun {
    /// The flop at hand.
    pub at: usize,
    /// How many rows are kept.
    pub rows: usize,
    /// Whether the user stopped the report.
    pub stopped: bool,
    pub error: String,
}

/// A [`ReportRun`] as a mathematical value.
pub ghost struct Progress {
    pub at: usize,
    pub rows: usize,
    pub stopped: bool,
    pub error: Seq<char>,
}

impl View for ReportRun {
    type V = Progress;

    open spec fn view(&self) -> Progress {
        Progress { at: self.at, rows: self.rows, stopped: self.stopped, error: self.error@ }
    }
}

/// What happens in a report.
#[allow(inconsistent_fields)]
pub enum ReportEvent<N> {
    /// A round begins; `stop` tells whether the user has asked to stop.
    Round { stop: bool },
    /// The spot as typed in makes no configuration.
    Refused { error: String },
    /// The spot cannot be built on this flop.
    Unbuildable { error: String },
    /// The spot is built; its arenas need so many megabytes.
    Built { arena_mb: N },
    /// The spot is solved to so many percent; negative where the user stopped.
    Solved { pct: N },
    /// The profile cannot be locked.
    LockFailed { error: String },
    /// The profile is locked.
    Locked,
    /// The other player has adapted, to so many percent; negative where the
    /// user stopped.
    Readapted { pct: N },
    /// The root cannot be shown.
    ViewFailed { error: String },
    /// The row has been kept.
    Kept,
    /// The rows so far have been written.
    Written,
    /// The report has been written, or could not be.
    Concluded { error: Option<String> },
}

/// What a report does next.
#[derive(Debug, Clone, Copy, PartialEq, Eq, Structural)]
pub enum ReportStep {
    /// Build the spot on the flop at hand.
    Build,
    /// Solve it.
    Solve,
    /// Lock the player to the profile.
    Lock,
    /// Let the other player adapt.
    Readapt,
    /// Make the row and keep it.
    KeepRow,
    /// Write the rows so far.
    Write,
    /// Begin the next round.
    Again,
    /// Write the report.
    Conclude { complete: bool },
    /// Leave.
    End,
}

/// What a memory refusal says.
pub open spec fn too_large_text<N: Num>(board: Seq<char>, arena_mb: N, cap_mb: N) -> Seq<char> {
    board + ": tree too large ("@ + arena_mb.fixed_spec(0) + " MB of solver data, cap "@
        + cap_mb.fixed_spec(0) + " MB); reduce bet sizes or set SOLVER_MEM_MB to override"@
}

fn too_large<N: Num>(board: &str, arena_mb: N, cap_mb: N) -> (r: String)
    ensures
        r@ == too_large_text(board@, arena_mb, cap_mb),
{
    let mut out = chars_of(board);
    push_all(&mut out, &chars_of(": tree too large ("));
    let need = arena_mb.fixed(0);
    push_all(&mut out, &chars_of(need.as_str()));
    push_all(&mut out, &chars_of(" MB of solver data, cap "));
    let cap = cap_mb.fixed(0);
    push_all(&mut out, &chars_of(cap.as_str()));
    push_all(&mut out, &chars_of(" MB); reduce bet sizes or set SOLVER_MEM_MB to override"));
    string_of(&out)
}

impl<N: Num> ReportPlan<N> {
    /// The end of a report, with what is to be said of it.
    pub open spec fn ended(run: Progress) -> ReportStep {
        ReportStep::Conclude { complete: run.error.len() == 0 && !run.stopped }
    }

    /// What a report does next, how far it has got, and what its status
    /// shows.
    pub open spec fn next(&self, run: Progress, st: ReportShown, event: ReportEvent<N>) -> (
        ReportStep,
        Progress,
        ReportShown,
    ) {
        let board = self.flops@[run.at as int]@;
        let zero = N::decimal_spec(0, 0);
        let halted = Progress { stopped: true, ..run };
        match event {
            ReportEvent::Round { stop } => if run.at >= self.flops@.len() {
                (Self::ended(run), run, st)
            } else if stop {
                (Self::ended(halted), halted, st)
            } else {
                (ReportStep::Build, run, ReportShown { done: run.at, board, ..st })
            },
            ReportEvent::Refused { error } => {
                let failed = Progress { error: error@, ..run };
                (Self::ended(failed), failed, st)
            },
            ReportEvent::Unbuildable { error } => {
                let failed = Progress { error: board + ": "@ + error@, ..run };
                (Self::ended(failed), failed, st)
            },
            ReportEvent::Built { arena_mb } => if self.cap_mb.below_spec(arena_mb) {
                let failed = Progress {
                    error: too_large_text(board, arena_mb, self.cap_mb),
                    ..run
                };
                (Self::ended(failed), failed, st)
            } else {
                (ReportStep::Solve, run, st)
            },
            ReportEvent::Solved { pct } => if pct.below_spec(zero) {
                (Self::ended(halted), halted, st)
            } else if self.villain {
                (ReportStep::Lock, run, st)
            } else {
                (ReportStep::KeepRow, run, st)
            },
            ReportEvent::LockFailed { error } => {
                let failed = Progress {
                    error: "villain lock failed on "@ + board + (": "@ + error@),
                    ..run
                };
                (Self::ended(failed), failed, st)
            },
            ReportEvent::Locked => (ReportStep::Readapt, run, st),
            ReportEvent::Readapted { pct } => if pct.below_spec(zero) {
                (Self::ended(halted), halted, st)
            } else {
                (ReportStep::KeepRow, run, st)
            },
            ReportEvent::ViewFailed { error } => {
                let failed = Progress { error: error@, ..run };
                (Self::ended(failed), failed, st)
            },
            ReportEvent::Kept => {
                let later = Progress {
                    at: (run.at + 1) as usize,
                    rows: (run.rows + 1) as usize,
                    ..run
                };
                (
                    if later.rows % 8 == 0 {
                        ReportStep::Write
                    } else {
                        ReportStep::Again
                    },
                    later,
                    st,
                )
            },
            ReportEvent::Written => (ReportStep::Again, run, st),
            ReportEvent::Concluded { error } => {
                let last = match error {
                    Some(e) => if run.error.len() == 0 {
                        Progress { error: e@, ..run }
                    } else {
                        run
                    },
                    None => run,
                };
                (
                    ReportStep::End,
                    last,
                    ReportShown { running: false, done: run.rows, error: last.error, ..st },
                )
            },
        }
    }

    /// Whether a report has got to one of its flops, or past the last.
    pub open spec fn within(&self, run: Progress) -> bool {
        run.rows == run.at && run.at <= self.flops@.len()
    }

    /// [`Self::next`], computed.
    pub fn advance(&self, run: &mut ReportRun, st: &mut ReportStatus, event: ReportEvent<N>) -> (r:
        ReportStep)
        requires
            self.within(old(run)@),
            !(event is Round || event is Concluded || event is Written) ==> old(run).at
                < self.flops@.len(),
        ensures
            (r, final(run)@, final(st)@) == self.next(old(run)@, old(st)@, event),
            self.within(final(run)@),
    {
        let zero = N::decimal(0, 0);
        match event {
            ReportEvent::Round { stop } => {
                if run.at >= self.flops.len() {
                    return Self::close(run);
                }
                if stop {
                    run.stopped = true;
                    return Self::close(run);
                }
                st.done = run.at;
                st.board = self.flops[run.at].clone();
                ReportStep::Build
            },
            ReportEvent::Refused { error } => {
                run.error = error;
                Self::close(run)
            },
            ReportEvent::Unbuildable { error } => {
                run.error = join(self.flops[run.at].as_str(), ": ", error.as_str());
                Self::close(run)
            },
            ReportEvent::Built { arena_mb } => if self.cap_mb.below(arena_mb) {
                run.error = too_large(self.flops[run.at].as_str(), arena_mb, self.cap_mb);
                Self::close(run)
            } else {
                ReportStep::Solve
            },
            ReportEvent::Solved { pct } => if pct.below(zero) {
                run.stopped = true;
                Self::close(run)
            } else if self.villain {
                ReportStep::Lock
            } else {
                ReportStep::KeepRow
            },
            ReportEvent::LockFailed { error } => {
                let tail = join(": ", error.as_str(), "");
                assert(tail@ =~= ": "@ + error@) by {
                    reveal_strlit("");
                }
                run.error = join(
                    "villain lock failed on ",
                    self.flops[run.at].as_str(),
                    tail.as_str(),
                );
                Self::close(run)
            },
            ReportEvent::Locked => ReportStep::Readapt,
            ReportEvent::Readapted { pct } => if pct.below(zero) {
                run.stopped = true;
                Self::close(run)
            } else {
                ReportStep::KeepRow
            },
            ReportEvent::ViewFailed { error } => {
                run.error = error;
                Self::close(run)
            },
            ReportEvent::Kept => {
                let count: usize = self.flops.len();
                run.at = run.at + 1;
                run.rows = run.rows + 1;
                if run.rows % 8 == 0 {
                    ReportStep::Write
                } else {
                    ReportStep::Again
                }
            },
            ReportEvent::Written => ReportStep::Again,
            ReportEvent::Concluded { error } => {
                match error {
                    Some(e) => {
                        if chars_of(run.error.as_str()).len() == 0 {
                            run.error = e;
                        }
                    },
                    None => {},
                }
                st.running = false;
                st.done = run.rows;
                st.error = run.error.clone();
                ReportStep::End
            },
        }
    }

    fn close(run: &ReportRun) -> (r: ReportStep)
        ensures
            r == Self::ended(run@),
    {
        let clean = chars_of(run.error.as_str()).len() == 0;
        ReportStep::Conclude { complete: clean && !run.stopped }
    }
}

impl ReportStatus {
    /// Begins a report, unless one is running.
    pub fn begin(&mut self, name: &str, total: usize) -> (r: Result<(), AlreadyRunning>)
        ensures
            match r {
                Ok(_) => !old(self)@.running && final(self)@ == (ReportShown {
                    running: true,
                    name: name@,
                    done: 0,
                    total,
                    board: Seq::empty(),
                    error: Seq::empty(),
                }),
                Err(_) => old(self)@.running && final(self)@ == old(self)@,
            },
    {
        if self.running {
            return Err(AlreadyRunning);
        }
        self.running = true;
        self.name = string_of(&chars_of(name));
        self.done = 0;
        self.total = total;
        self.board = string_of(&Vec::new());
        self.error = string_of(&Vec::new());
        assert(self@.board =~= Seq::empty() && self@.error =~= Seq::empty());
        Ok(())
    }
}

impl ReportRun {
    /// A report at its first flop.
    pub fn start() -> (r: ReportRun)
        ensures
            r@ == (Progress { at: 0, rows: 0, stopped: false, error: Seq::empty() }),
    {
        let r = ReportRun { at: 0, rows: 0, stopped: false, error: string_of(&Vec::new()) };
        assert(r@.error =~= Seq::empty());
        r
    }
}

/// Law: a report passes for complete only if it has a row for every flop, was
/// not stopped and met no error. An error that says nothing cannot be told from
/// none.
pub proof fn law_complete_means_every_flop<N: Num>(
    plan: ReportPlan<N>,
    run: Progress,
    st: ReportShown,
    event: ReportEvent<N>,
)
    requires
        plan.within(run),
        event matches ReportEvent::Refused { error } ==> error@.len() > 0,
        event matches ReportEvent::ViewFailed { error } ==> error@.len() > 0,
        plan.next(run, st, event).0 == (ReportStep::Conclude { complete: true }),
    ensures
        plan.next(run, st, event).1.rows == plan.flops@.len(),
        !run.stopped,
        run.error.len() == 0,
{
    reveal_strlit(": ");
    reveal_strlit(": tree too large (");
    reveal_strlit("villain lock failed on ");
}

} // verus!
