//! How solves are paced: when they are measured, when they end, and what they
//! then show.

use crate::nano::Nano;
use crate::num::Num;
use crate::play_laws;
use crate::preflop_session::{PfEvent, PfPhase, PfPlan, PfRun, PfShown, PfStep};
use crate::session::{Shown, SolveEvent, SolvePlan, SolveState, SolveStep};
use vstd::prelude::*;

verus! {

/// Law: a solve is measured after every `check_every` iterations of its run, and
/// between them only once the run is used up.
pub proof fn law_solves_are_measured_on_time(plan: SolvePlan<Nano>, rounds: int, j: int)
    requires
        1 <= plan.check_every,
        0 <= rounds,
        0 <= j < plan.check_every,
        plan.base + rounds * plan.check_every + j <= u32::MAX,
    ensures
        ({
            let run = rounds * plan.check_every + j;
            let i = (plan.base + run) as u32;
            &&& j == 0 ==> plan.due(i)
            &&& j != 0 ==> (plan.due(i) <==> run >= plan.max_iterations)
        }),
{
    let every = plan.check_every as int;
    let run = rounds * every + j;
    assert(0 <= run) by (nonlinear_arith)
        requires
            run == rounds * every + j,
            0 <= rounds,
            0 < every,
            0 <= j,
    ;
    vstd::arithmetic::div_mod::lemma_mod_multiples_vanish(rounds, j, every);
    vstd::arithmetic::div_mod::lemma_small_mod(j as nat, every as nat);
    assert(every * rounds + j == run) by (nonlinear_arith)
        requires
            run == rounds * every + j,
    ;
}

/// Law: a solve goes on until it is asked to stop, or is measured at its target
/// or with its run used up. It then winds up, and shows whether it is done or
/// was stopped; what is measured is shown, and kept in the history.
pub proof fn law_solves_end_when_they_should(
    plan: SolvePlan<Nano>,
    on_gpu: bool,
    checks: u8,
    st: Shown<Nano>,
    stop: bool,
    iteration: u32,
    chips: Nano,
)
    ensures
        ({
            let (step, _, shown) = plan.next(on_gpu, checks, st, SolveEvent::Round { stop });
            &&& step == if stop {
                SolveStep::WindUp { done: false }
            } else {
                SolveStep::Iterate
            }
            &&& shown == st
        }),
        ({
            let (step, _, shown) = plan.next(
                on_gpu,
                checks,
                st,
                SolveEvent::Measured { iteration, chips },
            );
            let pct = plan.percent(chips);
            &&& step == (SolveStep::WindUp { done: true }) <==> pct.count
                <= plan.target_exploit_pct.count || iteration - plan.base >= plan.max_iterations
                || plan.max_iterations == 0
            &&& step == (SolveStep::WindUp { done: true }) || step == SolveStep::Again || on_gpu
                && step == SolveStep::Checkpoint
            &&& shown.iteration == iteration
            &&& shown.exploit_chips == chips
            &&& shown.exploit_pct == pct
            &&& shown.history.len() == st.history.len() + 1
            &&& shown.history.last().iteration == iteration
            &&& shown.history.last().exploit_pct == pct
        }),
        ({
            let ended = SolveEvent::WoundUp { done: stop };
            let (step, _, shown) = plan.next(on_gpu, checks, st, ended);
            &&& step == SolveStep::End
            &&& stop ==> shown.state == SolveState::Done
            &&& !stop ==> shown.state == SolveState::Stopped
        }),
{
}

/// Law: the same before the flop: a run is measured after every `check_every`
/// iterations, and between them only once it is used up.
pub proof fn law_preflop_runs_are_measured_on_time(plan: PfPlan<Nano>, rounds: int, j: int)
    requires
        1 <= plan.check_every,
        1 <= plan.iterations,
        0 <= rounds,
        0 <= j < plan.check_every,
    ensures
        j == 0 ==> plan.due(rounds * plan.check_every + j),
        j != 0 ==> (plan.due(rounds * plan.check_every + j) <==> rounds * plan.check_every + j
            >= plan.iterations),
{
    let every = plan.check_every as int;
    let run = rounds * every + j;
    vstd::arithmetic::div_mod::lemma_mod_multiples_vanish(rounds, j, every);
    vstd::arithmetic::div_mod::lemma_small_mod(j as nat, every as nat);
    assert(every * rounds + j == run) by (nonlinear_arith)
        requires
            run == rounds * every + j,
    ;
}

/// Law: before the flop a run is done once the gaps of all seats together are
/// below its target, or it is used up; the sum of the gaps is shown.
pub proof fn law_preflop_runs_end_below_their_gap(
    plan: PfPlan<Nano>,
    run: PfRun,
    st: PfShown<Nano>,
    gaps: Vec<Nano>,
    evs: Vec<Nano>,
)
    requires
        play_laws::none_negative(gaps@),
        play_laws::counted(gaps@) <= i64::MAX,
        1 <= plan.iterations,
    ensures
        ({
            let (step, _, shown) = plan.next(run, st, PfEvent::Measured { gaps, evs });
            let sum = play_laws::counted(gaps@);
            let over = sum < plan.target_gap.count || run.done >= plan.iterations;
            &&& shown.gap_total.count == sum
            &&& shown.gaps == gaps@
            &&& shown.evs == evs@
            &&& shown.phase == PfPhase::Iterating
            &&& step == if over {
                PfStep::End
            } else {
                PfStep::Again
            }
            &&& over ==> shown.state == SolveState::Done
            &&& !over ==> shown.state == st.state
        }),
{
    play_laws::lemma_total_counted(gaps@);
}

} // verus!
