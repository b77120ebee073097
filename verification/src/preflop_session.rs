//! Running a preflop solve: what to do next after each thing that happens,
//! and what the status shows meanwhile.

use crate::num;
use crate::num::{total, Num};
use crate::preflop_build;
use crate::preflop_build::{arena_megabytes, TreeEstimate, TreeLimits};
use crate::session::{join, AlreadyRunning, SolveState};
use crate::text::string_of;
use vstd::prelude::*;

verus! {

/// What a running solve is at.
#[derive(Debug, Clone, Copy, PartialEq, Eq, Structural)]
pub enum PfPhase {
    NotStarted,
    Iterating,
    Measuring,
}

impl PfPhase {
    pub open spec fn text(self) -> Seq<char> {
        match self {
            PfPhase::NotStarted => ""@,
            PfPhase::Iterating => "iterating"@,
            PfPhase::Measuring => "measuring"@,
        }
    }

    /// The word for the phase.
    pub fn name(&self) -> (r: &'static str)
        ensures
            r@ == self.text(),
    {
        match self {
            PfPhase::NotStarted => "",
            PfPhase::Iterating => "iterating",
            PfPhase::Measuring => "measuring",
        }
    }
}

/// What is shown of a preflop solve.
pub struct PreflopStatus<N> {
    pub state: SolveState,
    pub phase: PfPhase,
    pub gpu: bool,
    pub gpu_note: String,
    pub iteration: u32,
    /// What each seat would gain by its best response, and their sum.
    pub gaps: Vec<N>,
    pub gap_total: N,
    pub evs: Vec<N>,
    pub error: String,
}

/// A [`PreflopStatus`] as a mathematical value.
pub ghost struct PfShown<N> {
    pub state: SolveState,
    pub phase: PfPhase,
    pub gpu: bool,
    pub gpu_note: Seq<char>,
    pub iteration: u32,
    pub gaps: Seq<N>,
    pub gap_total: N,
    pub evs: Seq<N>,
    pub error: Seq<char>,
}

impl<N> View for PreflopStatus<N> {
    type V = PfShown<N>;

    open spec fn view(&self) -> PfShown<N> {
        PfShown {
            state: self.state,
            phase: self.phase,
            gpu: self.gpu,
            gpu_note: self.gpu_note@,
            iteration: self.iteration,
            gaps: self.gaps@,
            gap_total: self.gap_total,
            evs: self.evs@,
            error: self.error@,
        }
    }
}

/// How many iterations a solve runs for that names no number.
pub fn pf_default_iterations() -> (r: u32)
    ensures
        r == 2000,
{
    2000
}

/// How often a solve is measured that does not say.
pub fn pf_default_check() -> (r: u32)
    ensures
        r == 50,
{
    50
}

/// The target of a solve that names none, in big blinds.
pub fn pf_default_target<N: Num>() -> (r: N)
    ensures
        r == N::decimal_spec(1, 2),
{
    N::decimal(1, 2)
}

/// How long a preflop solve runs.
#[derive(Clone, Copy)]
pub struct PfPlan<N> {
    pub iterations: u32,
    pub check_every: u32,
    pub target_gap: N,
}

/// How far a run has got.
#[derive(Debug, Clone, Copy, PartialEq, Eq, Structural)]
pub struct PfRun {
    /// The iterations of this run.
    pub done: u32,
    /// Whether the graphics card does the work.
    pub gpu: bool,
}

/// What happens in a preflop solve.
#[allow(inconsistent_fields)]
pub enum PfEvent<N> {
    /// A round begins; `stop` tells whether the user has asked to stop.
    Round { stop: bool },
    /// The solver has been brought up to date before stopping, or could not.
    StopSynced { error: Option<String> },
    /// An iteration has been run.
    Iterated { iteration: u32 },
    /// The graphics card could not run an iteration.
    IterateFailed { error: String },
    /// The gaps and expectations have been measured.
    Measured { gaps: Vec<N>, evs: Vec<N> },
    /// The graphics card could not measure.
    MeasureFailed { error: String },
}

/// What a preflop solve does next.
#[derive(Debug, Clone, Copy, PartialEq, Eq, Structural)]
pub enum PfStep {
    /// Bring the solver up to date with the graphics card, then stop.
    SyncToStop,
    /// Run an iteration.
    Iterate,
    /// Give the graphics card up, with what can be had from it, and run the
    /// iteration without it.
    FallBackAndIterate,
    /// Measure gaps and expectations.
    Measure,
    /// Give the graphics card up, with what can be had from it, and measure
    /// without it.
    FallBackAndMeasure,
    /// Begin the next round.
    Again,
    /// Leave.
    End,
}

impl<N: Num> PfPlan<N> {
    pub open spec fn limit(&self) -> int {
        if self.iterations < 1 {
            1
        } else {
            self.iterations as int
        }
    }

    pub open spec fn every(&self) -> int {
        if self.check_every < 1 {
            1
        } else {
            self.check_every as int
        }
    }

    /// Whether a run is measured after so many iterations.
    pub open spec fn due(&self, done: int) -> bool {
        done % self.every() == 0 || done >= self.limit()
    }

    /// What a solve does next, how far the run has got, and what its status
    /// shows.
    pub open spec fn next(&self, run: PfRun, st: PfShown<N>, event: PfEvent<N>) -> (
        PfStep,
        PfRun,
        PfShown<N>,
    ) {
        match event {
            PfEvent::Round { stop } => if !stop {
                (PfStep::Iterate, run, st)
            } else if run.gpu {
                (PfStep::SyncToStop, run, st)
            } else {
                (PfStep::End, run, PfShown { state: SolveState::Stopped, ..st })
            },
            PfEvent::StopSynced { error } => (
                PfStep::End,
                run,
                match error {
                    None => PfShown { state: SolveState::Stopped, ..st },
                    Some(e) => PfShown {
                        state: SolveState::Stopped,
                        gpu: false,
                        gpu_note: "GPU final sync failed: "@ + e@
                            + " — browse/save show the last completed checkpoint"@,
                        ..st
                    },
                },
            ),
            PfEvent::Iterated { iteration } => {
                let done = if run.done < u32::MAX {
                    (run.done + 1) as u32
                } else {
                    run.done
                };
                if self.due(done as int) {
                    (
                        PfStep::Measure,
                        PfRun { done, ..run },
                        PfShown { iteration, phase: PfPhase::Measuring, ..st },
                    )
                } else {
                    (
                        PfStep::Again,
                        PfRun { done, ..run },
                        PfShown { iteration, phase: PfPhase::Iterating, ..st },
                    )
                }
            },
            PfEvent::IterateFailed { error } => (
                PfStep::FallBackAndIterate,
                PfRun { gpu: false, ..run },
                PfShown {
                    gpu: false,
                    gpu_note: "GPU failed mid-solve: "@ + error@ + " — continuing on CPU"@,
                    ..st
                },
            ),
            PfEvent::Measured { gaps, evs } => {
                let sum = num::total_of(gaps@);
                let now = PfShown {
                    phase: PfPhase::Iterating,
                    gaps: gaps@,
                    gap_total: sum,
                    evs: evs@,
                    ..st
                };
                if sum.below_spec(self.target_gap) || run.done >= self.limit() {
                    (PfStep::End, run, PfShown { state: SolveState::Done, ..now })
                } else {
                    (PfStep::Again, run, now)
                }
            },
            PfEvent::MeasureFailed { error } => (
                PfStep::FallBackAndMeasure,
                PfRun { gpu: false, ..run },
                PfShown {
                    gpu: false,
                    gpu_note: "GPU failed: "@ + error@ + " — continuing on CPU"@,
                    ..st
                },
            ),
        }
    }

    /// [`Self::next`], computed.
    pub fn advance(&self, run: &mut PfRun, st: &mut PreflopStatus<N>, event: PfEvent<N>) -> (r:
        PfStep)
        ensures
            (r, *final(run), final(st)@) == self.next(*old(run), old(st)@, event),
    {
        let limit: u32 = if self.iterations < 1 {
            1
        } else {
            self.iterations
        };
        match event {
            PfEvent::Round { stop } => if !stop {
                PfStep::Iterate
            } else if run.gpu {
                PfStep::SyncToStop
            } else {
                st.state = SolveState::Stopped;
                PfStep::End
            },
            PfEvent::StopSynced { error } => {
                match error {
                    None => {},
                    Some(e) => {
                        st.gpu = false;
                        st.gpu_note = join(
                            "GPU final sync failed: ",
                            e.as_str(),
                            " — browse/save show the last completed checkpoint",
                        );
                    },
                }
                st.state = SolveState::Stopped;
                PfStep::End
            },
            PfEvent::Iterated { iteration } => {
                if run.done < u32::MAX {
                    run.done = run.done + 1;
                }
                let every: u32 = if self.check_every < 1 {
                    1
                } else {
                    self.check_every
                };
                st.iteration = iteration;
                if run.done % every == 0 || run.done >= limit {
                    st.phase = PfPhase::Measuring;
                    PfStep::Measure
                } else {
                    st.phase = PfPhase::Iterating;
                    PfStep::Again
                }
            },
            PfEvent::IterateFailed { error } => {
                run.gpu = false;
                st.gpu = false;
                st.gpu_note = join(
                    "GPU failed mid-solve: ",
                    error.as_str(),
                    " — continuing on CPU",
                );
                PfStep::FallBackAndIterate
            },
            PfEvent::Measured { gaps, evs } => {
                let sum = total(gaps.as_slice());
                st.phase = PfPhase::Iterating;
                st.gaps = gaps;
                st.gap_total = sum;
                st.evs = evs;
                if sum.below(self.target_gap) || run.done >= limit {
                    st.state = SolveState::Done;
                    PfStep::End
                } else {
                    PfStep::Again
                }
            },
            PfEvent::MeasureFailed { error } => {
                run.gpu = false;
                st.gpu = false;
                st.gpu_note = join("GPU failed: ", error.as_str(), " — continuing on CPU");
                PfStep::FallBackAndMeasure
            },
        }
    }
}

impl<N: Num> PreflopStatus<N> {
    /// A game at an iteration that is not being solved.
    pub fn at_rest(state: SolveState, iteration: u32) -> (r: Self)
        ensures
            r@ == (PfShown {
                state,
                phase: PfPhase::NotStarted,
                gpu: false,
                gpu_note: Seq::empty(),
                iteration,
                gaps: Seq::empty(),
                gap_total: N::decimal_spec(0, 0),
                evs: Seq::empty(),
                error: Seq::empty(),
            }),
    {
        let r = PreflopStatus {
            state,
            phase: PfPhase::NotStarted,
            gpu: false,
            gpu_note: string_of(&Vec::new()),
            iteration,
            gaps: Vec::new(),
            gap_total: N::decimal(0, 0),
            evs: Vec::new(),
            error: string_of(&Vec::new()),
        };
        assert(r@.gpu_note =~= Seq::empty() && r@.error =~= Seq::empty());
        r
    }

    /// Begins a solve, unless one is running.
    pub fn begin(&mut self) -> (r: Result<(), AlreadyRunning>)
        ensures
            match r {
                Ok(_) => old(self)@.state != SolveState::Running && final(self)@ == (PfShown {
                    state: SolveState::Running,
                    error: Seq::empty(),
                    ..old(self)@
                }),
                Err(_) => old(self)@.state == SolveState::Running && final(self)@ == old(self)@,
            },
    {
        if self.state == SolveState::Running {
            return Err(AlreadyRunning);
        }
        self.state = SolveState::Running;
        self.error = string_of(&Vec::new());
        assert(self@.error =~= Seq::empty());
        Ok(())
    }

    /// Records whether the graphics card takes the solve, and why not.
    pub fn placed(&mut self, refusal: Option<String>)
        ensures
            final(self)@ == match refusal {
                None => PfShown { gpu: true, gpu_note: Seq::empty(), ..old(self)@ },
                Some(e) => PfShown {
                    gpu: false,
                    gpu_note: "GPU unavailable: "@ + e@ + " — solving on CPU + system RAM"@,
                    ..old(self)@
                },
            },
    {
        match refusal {
            None => {
                self.gpu = true;
                self.gpu_note = string_of(&Vec::new());
                assert(self@.gpu_note =~= Seq::empty());
            },
            Some(e) => {
                self.gpu = false;
                self.gpu_note = join(
                    "GPU unavailable: ",
                    e.as_str(),
                    " — solving on CPU + system RAM",
                );
            },
        }
    }

    /// Records that the solve broke down.
    pub fn crash(&mut self, message: &str)
        ensures
            final(self)@ == (PfShown {
                state: SolveState::Stopped,
                error: "solve crashed: "@ + message@ + ""@,
                ..old(self)@
            }),
    {
        self.state = SolveState::Stopped;
        self.error = join("solve crashed: ", message, "");
    }

    /// Whether the game may be changed now: not while it is being solved.
    pub fn may_change(&self) -> (r: Result<(), AlreadyRunning>)
        ensures
            r is Ok <==> self@.state != SolveState::Running,
    {
        if self.state == SolveState::Running {
            Err(AlreadyRunning)
        } else {
            Ok(())
        }
    }
}

/// Whether a tree of the estimated size may be built.
pub fn estimate_fits<N: Num>(est: &TreeEstimate, limits: &TreeLimits<N>) -> (r: bool)
    requires
        est.arena_len <= i64::MAX,
    ensures
        r == (!est.truncated && est.nodes <= limits.nodes && preflop_build::megabytes::<N>(
            est.arena_len as int,
        ).at_most_spec(limits.arena_mb)),
{
    !est.truncated && est.nodes <= limits.nodes && arena_megabytes::<N>(est.arena_len).at_most(
        limits.arena_mb,
    )
}

/// Law: once the graphics card is given up, a run never goes back to it.
pub proof fn law_fall_back_is_for_good<N: Num>(
    plan: PfPlan<N>,
    run: PfRun,
    st: PfShown<N>,
    event: PfEvent<N>,
)
    requires
        !run.gpu,
    ensures
        !plan.next(run, st, event).1.gpu,
        plan.next(run, st, event).0 != PfStep::SyncToStop,
{
}

/// Law: a run that has made all its iterations ends when it is measured, and
/// it is measured then.
pub proof fn law_limit_ends_the_run<N: Num>(
    plan: PfPlan<N>,
    run: PfRun,
    st: PfShown<N>,
    iteration: u32,
    gaps: Vec<N>,
    evs: Vec<N>,
)
    requires
        run.done + 1 == plan.limit(),
    ensures
        ({
            let (step, later, shown) = plan.next(run, st, PfEvent::Iterated { iteration });
            &&& step == PfStep::Measure
            &&& plan.next(later, shown, PfEvent::Measured { gaps, evs }).0 == PfStep::End
        }),
{
}

} // verus!
