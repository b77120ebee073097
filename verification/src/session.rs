//! Running a solve: what to do next after each thing that happens, and what
//! the status shows meanwhile.

use crate::num::Num;
use crate::text::{chars_of, push_all, string_of};
use vstd::prelude::*;

verus! {

/// Where a solve stands.
#[derive(Debug, Clone, Copy, PartialEq, Eq, Structural)]
pub enum SolveState {
    Idle,
    Ready,
    Running,
    Done,
    Stopped,
}

impl SolveState {
    pub open spec fn text(self) -> Seq<char> {
        match self {
            SolveState::Idle => "idle"@,
            SolveState::Ready => "ready"@,
            SolveState::Running => "running"@,
            SolveState::Done => "done"@,
            SolveState::Stopped => "stopped"@,
        }
    }

    /// The word for the state.
    pub fn name(&self) -> (r: &'static str)
        ensures
            r@ == self.text(),
    {
        match self {
            SolveState::Idle => "idle",
            SolveState::Ready => "ready",
            SolveState::Running => "running",
            SolveState::Done => "done",
            SolveState::Stopped => "stopped",
        }
    }
}

/// How exploitable the strategies were after an iteration.
#[derive(Clone, Copy)]
pub struct HistoryPoint<N> {
    pub iteration: u32,
    pub exploit_pct: N,
}

/// What is shown of a solve.
pub struct SolveStatus<N> {
    pub state: SolveState,
    /// Whether it runs on the graphics card.
    pub gpu: bool,
    /// Why it does not, where that needs saying.
    pub gpu_note: String,
    pub iteration: u32,
    pub exploit_chips: N,
    pub exploit_pct: N,
    pub history: Vec<HistoryPoint<N>>,
    pub error: String,
}

/// A [`SolveStatus`] as a mathematical value.
pub ghost struct Shown<N> {
    pub state: SolveState,
    pub gpu: bool,
    pub gpu_note: Seq<char>,
    pub iteration: u32,
    pub exploit_chips: N,
    pub exploit_pct: N,
    pub history: Seq<HistoryPoint<N>>,
    pub error: Seq<char>,
}

impl<N> View for SolveStatus<N> {
    type V = Shown<N>;

    open spec fn view(&self) -> Shown<N> {
        Shown {
            state: self.state,
            gpu: self.gpu,
            gpu_note: self.gpu_note@,
            iteration: self.iteration,
            exploit_chips: self.exploit_chips,
            exploit_pct: self.exploit_pct,
            history: self.history@,
            error: self.error@,
        }
    }
}

/// A solve is asked for while one is running.
#[derive(Debug, Clone, Copy, PartialEq, Eq, Structural)]
pub struct AlreadyRunning;

/// How long a solve runs. The solver's count of iterations goes on from solve
/// to solve, so each run counts from its own base.
#[derive(Clone, Copy)]
pub struct SolvePlan<N> {
    pub max_iterations: u32,
    pub target_exploit_pct: N,
    pub check_every: u32,
    pub base: u32,
    pub pot: N,
}

/// How many iterations a solve runs for that names no number.
pub fn default_max_iterations() -> (r: u32)
    ensures
        r == 2000,
{
    2000
}

/// The target of a solve that names none, in percent of the pot.
pub fn default_target<N: Num>() -> (r: N)
    ensures
        r == N::decimal_spec(3, 1),
{
    N::decimal(3, 1)
}

/// How often a solve is measured that does not say.
pub fn default_check_every() -> (r: u32)
    ensures
        r == 20,
{
    20
}

/// What happens in a solve.
#[derive(Clone, Copy)]
pub enum SolveEvent<N> {
    /// A round begins; `stop` tells whether the user has asked to stop.
    Round { stop: bool },
    /// An iteration has been run.
    Iterated { iteration: u32 },
    /// The exploitability has been measured, in chips.
    Measured { iteration: u32, chips: N },
    /// The solver has been wound up.
    WoundUp { done: bool },
}

/// What a solve does next.
#[derive(Debug, Clone, Copy, PartialEq, Eq, Structural)]
pub enum SolveStep {
    /// Run an iteration.
    Iterate,
    /// Measure the exploitability.
    Measure,
    /// Bring the solver up to date with the graphics card, then begin the
    /// next round.
    Checkpoint,
    /// Begin the next round.
    Again,
    /// Wind the solver up.
    WindUp { done: bool },
    /// Leave.
    End,
}

/// The iterations of this run.
pub open spec fn run_count(base: u32, iteration: u32) -> int {
    if iteration < base {
        0
    } else {
        iteration - base
    }
}

impl<N: Num> SolvePlan<N> {
    /// Whether the run is used up.
    pub open spec fn spent(&self, iteration: u32) -> bool {
        run_count(self.base, iteration) >= self.max_iterations
    }

    /// Whether the exploitability is to be measured after an iteration.
    pub open spec fn due(&self, iteration: u32) -> bool {
        let every = if self.check_every < 1 {
            1
        } else {
            self.check_every as int
        };
        run_count(self.base, iteration) % every == 0 || self.spent(iteration)
    }

    /// Chips as percent of the pot.
    pub open spec fn percent(&self, chips: N) -> N {
        chips.over_spec(self.pot).times_spec(N::decimal_spec(100, 0))
    }

    /// Whether the run has got where it was to get.
    pub open spec fn reached(&self, iteration: u32, chips: N) -> bool {
        self.percent(chips).at_most_spec(self.target_exploit_pct) || self.spent(iteration)
    }

    /// [`Self::spent`], computed.
    fn is_spent(&self, iteration: u32) -> (r: bool)
        ensures
            r == self.spent(iteration),
    {
        let run: u32 = if iteration < self.base {
            0
        } else {
            iteration - self.base
        };
        run >= self.max_iterations
    }

    /// [`Self::due`], computed.
    pub fn is_due(&self, iteration: u32) -> (r: bool)
        ensures
            r == self.due(iteration),
    {
        let run: u32 = if iteration < self.base {
            0
        } else {
            iteration - self.base
        };
        let every: u32 = if self.check_every < 1 {
            1
        } else {
            self.check_every
        };
        run % every == 0 || self.is_spent(iteration)
    }

    /// The exploitability in percent of the pot, and whether the run is over.
    pub fn judge(&self, iteration: u32, chips: N) -> (r: (N, bool))
        ensures
            r.0 == self.percent(chips),
            r.1 == self.reached(iteration, chips),
    {
        let pct = chips.over(self.pot).times(N::decimal(100, 0));
        (pct, pct.at_most(self.target_exploit_pct) || self.is_spent(iteration))
    }

    /// What a solve does next, what its status shows, and the checks counted
    /// up to four: on the graphics card every fourth check that does not end
    /// the solve brings the solver up to date.
    pub open spec fn next(&self, on_gpu: bool, checks: u8, st: Shown<N>, event: SolveEvent<N>) -> (
        SolveStep,
        u8,
        Shown<N>,
    ) {
        match event {
            SolveEvent::Round { stop } => (
                if stop {
                    SolveStep::WindUp { done: false }
                } else {
                    SolveStep::Iterate
                },
                checks,
                st,
            ),
            SolveEvent::Iterated { iteration } => if self.due(iteration) {
                (SolveStep::Measure, checks, st)
            } else {
                (SolveStep::Again, checks, Shown { iteration, ..st })
            },
            SolveEvent::Measured { iteration, chips } => {
                let now = Shown {
                    iteration,
                    exploit_chips: chips,
                    exploit_pct: self.percent(chips),
                    history: st.history.push(
                        HistoryPoint { iteration, exploit_pct: self.percent(chips) },
                    ),
                    ..st
                };
                let count = ((checks + 1) % 4) as u8;
                if self.reached(iteration, chips) {
                    (SolveStep::WindUp { done: true }, count, now)
                } else if on_gpu && count == 0 {
                    (SolveStep::Checkpoint, count, now)
                } else {
                    (SolveStep::Again, count, now)
                }
            },
            SolveEvent::WoundUp { done } => (
                SolveStep::End,
                checks,
                Shown {
                    state: if done {
                        SolveState::Done
                    } else {
                        SolveState::Stopped
                    },
                    ..st
                },
            ),
        }
    }

    /// [`Self::next`], computed.
    pub fn advance(
        &self,
        on_gpu: bool,
        checks: &mut u8,
        st: &mut SolveStatus<N>,
        event: SolveEvent<N>,
    ) -> (r: SolveStep)
        requires
            *old(checks) < 4,
        ensures
            *final(checks) < 4,
            (r, *final(checks), final(st)@) == self.next(
                on_gpu,
                *old(checks),
                old(st)@,
                event,
            ),
    {
        match event {
            SolveEvent::Round { stop } => if stop {
                SolveStep::WindUp { done: false }
            } else {
                SolveStep::Iterate
            },
            SolveEvent::Iterated { iteration } => if self.is_due(iteration) {
                SolveStep::Measure
            } else {
                st.iteration = iteration;
                SolveStep::Again
            },
            SolveEvent::Measured { iteration, chips } => {
                let (pct, over) = self.judge(iteration, chips);
                st.iteration = iteration;
                st.exploit_chips = chips;
                st.exploit_pct = pct;
                st.history.push(HistoryPoint { iteration, exploit_pct: pct });
                *checks = (*checks + 1) % 4;
                if over {
                    SolveStep::WindUp { done: true }
                } else if on_gpu && *checks == 0 {
                    SolveStep::Checkpoint
                } else {
                    SolveStep::Again
                }
            },
            SolveEvent::WoundUp { done } => {
                st.state = if done {
                    SolveState::Done
                } else {
                    SolveState::Stopped
                };
                SolveStep::End
            },
        }
    }
}

/// The points of a history up to an iteration.
pub open spec fn up_to<N>(history: Seq<HistoryPoint<N>>, iteration: u32) -> Seq<HistoryPoint<N>>
    decreases history.len(),
{
    if history.len() == 0 {
        Seq::empty()
    } else if history.last().iteration <= iteration {
        up_to(history.drop_last(), iteration).push(history.last())
    } else {
        up_to(history.drop_last(), iteration)
    }
}

pub(crate) fn join(head: &str, middle: &str, tail: &str) -> (r: String)
    ensures
        r@ == head@ + middle@ + tail@,
{
    let mut out = chars_of(head);
    push_all(&mut out, &chars_of(middle));
    push_all(&mut out, &chars_of(tail));
    string_of(&out)
}

impl<N: Num> SolveStatus<N> {
    /// Nothing is built.
    pub fn idle() -> (r: Self)
        ensures
            r@ == (Shown {
                state: SolveState::Idle,
                gpu: false,
                gpu_note: Seq::empty(),
                iteration: 0,
                exploit_chips: N::decimal_spec(0, 0),
                exploit_pct: N::decimal_spec(0, 0),
                history: Seq::empty(),
                error: Seq::empty(),
            }),
    {
        let zero = N::decimal(0, 0);
        let r = SolveStatus {
            state: SolveState::Idle,
            gpu: false,
            gpu_note: string_of(&Vec::new()),
            iteration: 0,
            exploit_chips: zero,
            exploit_pct: zero,
            history: Vec::new(),
            error: string_of(&Vec::new()),
        };
        assert(r@.gpu_note =~= Seq::empty() && r@.error =~= Seq::empty());
        r
    }

    /// Begins a solve, unless one is running.
    pub fn begin(&mut self) -> (r: Result<(), AlreadyRunning>)
        ensures
            match r {
                Ok(_) => old(self)@.state != SolveState::Running && final(self)@ == (Shown {
                    state: SolveState::Running,
                    gpu: false,
                    gpu_note: Seq::empty(),
                    error: Seq::empty(),
                    history: Seq::empty(),
                    ..old(self)@
                }),
                Err(_) => old(self)@.state == SolveState::Running && final(self)@ == old(self)@,
            },
    {
        if self.state == SolveState::Running {
            return Err(AlreadyRunning);
        }
        self.state = SolveState::Running;
        self.gpu = false;
        self.gpu_note = string_of(&Vec::new());
        self.error = string_of(&Vec::new());
        self.history = Vec::new();
        assert(self@.gpu_note =~= Seq::empty() && self@.error =~= Seq::empty());
        Ok(())
    }

    /// Goes on without the graphics card, from the iteration that the solver
    /// holds: neither count nor history run ahead of it.
    pub fn fall_back(&mut self, error: &str, resume: u32)
        ensures
            final(self)@ == (Shown {
                gpu: false,
                gpu_note: "GPU unavailable: "@ + error@ + " — running on CPU"@,
                iteration: resume,
                history: up_to(old(self)@.history, resume),
                ..old(self)@
            }),
    {
        self.gpu = false;
        self.gpu_note = join("GPU unavailable: ", error, " — running on CPU");
        self.iteration = resume;
        let ghost all = self.history@;
        let mut kept: Vec<HistoryPoint<N>> = Vec::new();
        let mut i: usize = 0;
        assert(all.take(0) =~= Seq::<HistoryPoint<N>>::empty());
        while i < self.history.len()
            invariant
                i <= self.history@.len(),
                self.history@ == all,
                kept@ == up_to(all.take(i as int), resume),
                self@ == (Shown {
                    gpu: false,
                    gpu_note: "GPU unavailable: "@ + error@ + " — running on CPU"@,
                    iteration: resume,
                    ..old(self)@
                }),
            decreases self.history@.len() - i,
        {
            assert(all.take(i + 1).drop_last() =~= all.take(i as int));
            if self.history[i].iteration <= resume {
                kept.push(self.history[i]);
            }
            i = i + 1;
        }
        assert(all.take(all.len() as int) =~= all);
        self.history = kept;
    }

    /// Records that the solve broke down.
    pub fn crash(&mut self, message: &str)
        ensures
            final(self)@ == (Shown {
                state: SolveState::Stopped,
                error: "solve crashed: "@ + message@ + ""@,
                ..old(self)@
            }),
    {
        self.state = SolveState::Stopped;
        self.error = join("solve crashed: ", message, "");
    }
}

/// The memory of the graphics card that a solve may use, in megabytes, and
/// whether there is a card: what the user set, else what is free less 512,
/// else 20 GB.
pub fn gpu_budget(manual: Option<u64>, free: Option<u64>) -> (r: (u64, bool))
    ensures
        r.1 == free is Some,
        r.0 == match (manual, free) {
            (Some(v), _) => v as int,
            (None, Some(f)) => if f < 512 {
                0
            } else {
                f - 512
            },
            (None, None) => 20_000,
        },
{
    match free {
        Some(f) => (
            match manual {
                Some(v) => v,
                None => if f < 512 {
                    0
                } else {
                    f - 512
                },
            },
            true,
        ),
        None => (
            match manual {
                Some(v) => v,
                None => 20_000,
            },
            false,
        ),
    }
}

/// Law: whatever happens in a solve, what was measured before stays in its
/// history, in the order in which it was measured.
pub proof fn law_history_only_grows<N: Num>(
    plan: SolvePlan<N>,
    on_gpu: bool,
    checks: u8,
    st: Shown<N>,
    event: SolveEvent<N>,
)
    ensures
        st.history.is_prefix_of(plan.next(on_gpu, checks, st, event).2.history),
{
}

/// Law: a run is measured after every iteration at or past its budget, and
/// measuring then ends it; so no run goes past its budget.
pub proof fn law_budget_ends_the_run<N: Num>(
    plan: SolvePlan<N>,
    on_gpu: bool,
    checks: u8,
    st: Shown<N>,
    iteration: u32,
    chips: N,
)
    requires
        plan.spent(iteration),
    ensures
        plan.next(on_gpu, checks, st, SolveEvent::Iterated { iteration }).0 == SolveStep::Measure,
        plan.next(on_gpu, checks, st, SolveEvent::Measured { iteration, chips }).0
            == (SolveStep::WindUp { done: true }),
{
}

/// Law: a run never ends on the iterations of an earlier one: right at its
/// base it is not used up, unless it was to run for none.
pub proof fn law_runs_count_from_their_base<N: Num>(plan: SolvePlan<N>)
    requires
        plan.max_iterations > 0,
    ensures
        !plan.spent(plan.base),
{
}

} // verus!
