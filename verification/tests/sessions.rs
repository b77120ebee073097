//! Solves, reports, names, memory and what users type in.

use solver::batch::{parse_boards, split_commas};
use solver::budget::{
    arena_fits, limit_arena_mb, limit_nodes, load_peak_mb, mem_cap_mb, megabytes, node_budget,
    old_arena_credit_mb, proc_megabytes,
};
use solver::discount::Discount;
use solver::names::{
    clean, pf_game_path, profile_path, report_path, sanitize_name, NameError,
};
use solver::num::{Num, Single};
use solver::preflop_session::{
    pf_default_check, pf_default_iterations, pf_default_target, PfEvent, PfPlan, PfRun, PfStep,
    PreflopStatus,
};
use solver::report::{
    report_dflt_flops, report_dflt_iters, report_dflt_target, ReportEvent, ReportPlan, ReportRun,
    ReportStatus, ReportStep,
};
use solver::request::{
    default_allin_threshold, default_max_raises, spot_request_from_config, SizesRequest,
    SizingError, SpotRequest,
};
use solver::seats::{count_seats, full_table, is_seated, lowest_seat, seat_in, seat_out};
use solver::session::{
    default_check_every, default_max_iterations, default_target, gpu_budget, AlreadyRunning,
    SolveEvent, SolvePlan, SolveState, SolveStatus, SolveStep,
};
use solver::store::Storage;
use solver::tree::BetSize;

#[derive(Clone, Copy, Debug, PartialEq, PartialOrd)]
struct F64(f64);

impl Num for F64 {
    fn plus(self, rhs: Self) -> Self {
        F64(self.0 + rhs.0)
    }
    fn minus(self, rhs: Self) -> Self {
        F64(self.0 - rhs.0)
    }
    fn times(self, rhs: Self) -> Self {
        F64(self.0 * rhs.0)
    }
    fn over(self, rhs: Self) -> Self {
        F64(self.0 / rhs.0)
    }
    fn negated(self) -> Self {
        F64(-self.0)
    }
    fn below(self, rhs: Self) -> bool {
        self.0 < rhs.0
    }
    fn at_most(self, rhs: Self) -> bool {
        self.0 <= rhs.0
    }
    fn finite(self) -> bool {
        self.0.is_finite()
    }
    fn decimal(units: i64, places: u8) -> Self {
        if places == 0 {
            return F64(units as f64);
        }
        F64(units as f64 / 10f64.powi(places as i32))
    }
    fn rounded(self) -> Self {
        F64(self.0.round())
    }
    fn root(self) -> Self {
        F64(self.0.sqrt())
    }
    fn floored(self) -> i128 {
        self.0.floor() as i128
    }
    fn nearest(self) -> i64 {
        self.0.round_ties_even() as i64
    }
    fn parse(text: &str) -> Option<Self> {
        text.parse().ok().map(F64)
    }
    fn shown(self) -> String {
        format!("{}", self.0)
    }
    fn fixed(self, places: u8) -> String {
        format!("{:.*}", places as usize, self.0)
    }
}

#[derive(Clone, Copy, Debug, PartialEq, PartialOrd)]
struct F32(f32);

impl Num for F32 {
    fn plus(self, rhs: Self) -> Self {
        F32(self.0 + rhs.0)
    }
    fn minus(self, rhs: Self) -> Self {
        F32(self.0 - rhs.0)
    }
    fn times(self, rhs: Self) -> Self {
        F32(self.0 * rhs.0)
    }
    fn over(self, rhs: Self) -> Self {
        F32(self.0 / rhs.0)
    }
    fn negated(self) -> Self {
        F32(-self.0)
    }
    fn below(self, rhs: Self) -> bool {
        self.0 < rhs.0
    }
    fn at_most(self, rhs: Self) -> bool {
        self.0 <= rhs.0
    }
    fn finite(self) -> bool {
        self.0.is_finite()
    }
    fn decimal(units: i64, places: u8) -> Self {
        if places == 0 {
            return F32(units as f32);
        }
        F32((units as f64 / 10f64.powi(places as i32)) as f32)
    }
    fn rounded(self) -> Self {
        F32(self.0.round())
    }
    fn root(self) -> Self {
        F32(self.0.sqrt())
    }
    fn floored(self) -> i128 {
        self.0.floor() as i128
    }
    fn nearest(self) -> i64 {
        self.0.round_ties_even() as i64
    }
    fn parse(text: &str) -> Option<Self> {
        text.parse().ok().map(F32)
    }
    fn shown(self) -> String {
        format!("{}", self.0)
    }
    fn fixed(self, places: u8) -> String {
        format!("{:.*}", places as usize, self.0)
    }
}

impl Single for F32 {
    type Wide = F64;

    fn widened(self) -> F64 {
        F64(self.0 as f64)
    }
    fn narrowed(wide: F64) -> Self {
        F32(wide.0 as f32)
    }
    fn word(self) -> u32 {
        self.0.to_bits()
    }
    fn of_word(word: u32) -> Self {
        F32(f32::from_bits(word))
    }
}

fn plan() -> SolvePlan<F64> {
    SolvePlan {
        max_iterations: 40,
        target_exploit_pct: F64(0.5),
        check_every: 20,
        base: 100,
        pot: F64(200.0),
    }
}

#[test]
fn a_solve_runs_until_its_target() {
    let mut st = SolveStatus::<F64>::idle();
    assert_eq!(st.state.name(), "idle");
    assert_eq!(st.begin(), Ok(()));
    assert_eq!(st.begin(), Err(AlreadyRunning));
    assert_eq!(st.state, SolveState::Running);

    let plan = plan();
    let mut checks = 0u8;
    let mut go = |st: &mut SolveStatus<F64>, e| plan.advance(false, &mut checks, st, e);
    assert_eq!(go(&mut st, SolveEvent::Round { stop: false }), SolveStep::Iterate);
    assert_eq!(go(&mut st, SolveEvent::Iterated { iteration: 119 }), SolveStep::Again);
    assert_eq!(st.iteration, 119);
    assert_eq!(go(&mut st, SolveEvent::Iterated { iteration: 120 }), SolveStep::Measure);
    let measured = SolveEvent::Measured { iteration: 120, chips: F64(4.0) };
    assert_eq!(go(&mut st, measured), SolveStep::Again);
    assert_eq!(st.exploit_pct, F64(2.0));
    assert_eq!(st.history.len(), 1);
    let measured = SolveEvent::Measured { iteration: 121, chips: F64(1.0) };
    assert_eq!(go(&mut st, measured), SolveStep::WindUp { done: true });
    assert_eq!(st.history[1].iteration, 121);
    assert_eq!(st.history[1].exploit_pct, F64(0.5));
    assert_eq!(go(&mut st, SolveEvent::WoundUp { done: true }), SolveStep::End);
    assert_eq!(st.state.name(), "done");
}

#[test]
fn a_solve_ends_with_its_budget_and_when_asked() {
    let plan = plan();
    assert!(!plan.is_due(139) && plan.is_due(140) && plan.is_due(141));
    // iterations before the base are none of this run's
    assert!(plan.is_due(5));
    assert_eq!(plan.judge(140, F64(50.0)), (F64(25.0), true));
    assert_eq!(plan.judge(139, F64(50.0)), (F64(25.0), false));

    let mut st = SolveStatus::<F64>::idle();
    let mut checks = 0u8;
    let stop = plan.advance(false, &mut checks, &mut st, SolveEvent::Round { stop: true });
    assert_eq!(stop, SolveStep::WindUp { done: false });
    plan.advance(false, &mut checks, &mut st, SolveEvent::WoundUp { done: false });
    assert_eq!(st.state.name(), "stopped");

    assert_eq!(default_max_iterations(), 2000);
    assert_eq!(default_target::<F64>(), F64(0.3));
    assert_eq!(default_check_every(), 20);
    assert!((SolvePlan { check_every: 0, ..plan }).is_due(101));
}

#[test]
fn the_graphics_card_checkpoints_and_falls_back() {
    let plan = SolvePlan { max_iterations: 1000, ..plan() };
    let mut st = SolveStatus::<F64>::idle();
    st.begin().unwrap();
    let mut checks = 0u8;
    for k in 1..=8u32 {
        let event = SolveEvent::Measured { iteration: 100 + 20 * k, chips: F64(9.0) };
        let step = plan.advance(true, &mut checks, &mut st, event);
        let expected = if k % 4 == 0 { SolveStep::Checkpoint } else { SolveStep::Again };
        assert_eq!(step, expected);
    }
    st.gpu = true;
    st.fall_back("lost device", 180);
    assert!(!st.gpu);
    assert_eq!(st.gpu_note, "GPU unavailable: lost device — running on CPU");
    assert_eq!(st.iteration, 180);
    assert_eq!(st.history.len(), 4);
    assert_eq!(st.history[3].iteration, 180);
    st.crash("index out of bounds");
    assert_eq!(st.state, SolveState::Stopped);
    assert_eq!(st.error, "solve crashed: index out of bounds");

    assert_eq!(gpu_budget(None, Some(8000)), (7488, true));
    assert_eq!(gpu_budget(None, Some(100)), (0, true));
    assert_eq!(gpu_budget(Some(3000), Some(8000)), (3000, true));
    assert_eq!(gpu_budget(None, None), (20_000, false));
    assert_eq!(gpu_budget(Some(1), None), (1, false));
}

#[test]
fn a_preflop_solve_runs_and_ends() {
    let plan = PfPlan { iterations: 100, check_every: 50, target_gap: F64(0.01) };
    let mut st = PreflopStatus::<F64>::at_rest(SolveState::Ready, 7);
    assert_eq!(st.phase.name(), "");
    assert_eq!(st.may_change(), Ok(()));
    assert_eq!(st.begin(), Ok(()));
    assert_eq!(st.begin(), Err(AlreadyRunning));
    assert_eq!(st.may_change(), Err(AlreadyRunning));
    let mut run = PfRun { done: 0, gpu: false };
    for i in 1..=50u32 {
        let round = plan.advance(&mut run, &mut st, PfEvent::Round { stop: false });
        assert_eq!(round, PfStep::Iterate);
        let step = plan.advance(&mut run, &mut st, PfEvent::Iterated { iteration: 7 + i });
        assert_eq!(step, if i < 50 { PfStep::Again } else { PfStep::Measure });
    }
    assert_eq!((st.iteration, st.phase.name()), (57, "measuring"));
    let gaps = vec![F64(0.25), F64(0.5)];
    let event = PfEvent::Measured { gaps: gaps.clone(), evs: vec![F64(1.0), F64(-1.0)] };
    assert_eq!(plan.advance(&mut run, &mut st, event), PfStep::Again);
    assert_eq!((st.gap_total, st.phase.name()), (F64(0.75), "iterating"));
    assert_eq!(st.gaps, gaps);
    // below the target the run is done
    let event = PfEvent::Measured { gaps: vec![F64(0.0); 2], evs: vec![F64(0.0); 2] };
    assert_eq!(plan.advance(&mut run, &mut st, event), PfStep::End);
    assert_eq!(st.state, SolveState::Done);
    // and so it is at the limit
    let mut late = PfRun { done: 99, gpu: false };
    let step = plan.advance(&mut late, &mut st, PfEvent::Iterated { iteration: 107 });
    assert_eq!(step, PfStep::Measure);
    let event = PfEvent::Measured { gaps, evs: vec![] };
    assert_eq!(plan.advance(&mut late, &mut st, event), PfStep::End);

    assert_eq!(pf_default_iterations(), 2000);
    assert_eq!(pf_default_check(), 50);
    assert_eq!(pf_default_target::<F64>(), F64(0.01));
}

#[test]
fn a_preflop_solve_gives_the_graphics_card_up_for_good() {
    let plan = PfPlan { iterations: 100, check_every: 50, target_gap: F64(0.01) };
    let mut st = PreflopStatus::<F64>::at_rest(SolveState::Ready, 0);
    st.placed(None);
    assert!(st.gpu);
    let mut run = PfRun { done: 3, gpu: true };
    let stop = plan.advance(&mut run, &mut st, PfEvent::Round { stop: true });
    assert_eq!(stop, PfStep::SyncToStop);
    let error = Some("gone".to_string());
    let end = plan.advance(&mut run, &mut st, PfEvent::StopSynced { error });
    assert_eq!(end, PfStep::End);
    assert_eq!(
        st.gpu_note,
        "GPU final sync failed: gone — browse/save show the last completed checkpoint"
    );
    let failed = PfEvent::IterateFailed { error: "oom".to_string() };
    assert_eq!(plan.advance(&mut run, &mut st, failed), PfStep::FallBackAndIterate);
    assert_eq!(st.gpu_note, "GPU failed mid-solve: oom — continuing on CPU");
    assert_eq!(run, PfRun { done: 3, gpu: false });
    let stop = plan.advance(&mut run, &mut st, PfEvent::Round { stop: true });
    assert_eq!((stop, st.state), (PfStep::End, SolveState::Stopped));
    run.gpu = true;
    let failed = PfEvent::MeasureFailed { error: "nan".to_string() };
    assert_eq!(plan.advance(&mut run, &mut st, failed), PfStep::FallBackAndMeasure);
    assert_eq!(st.gpu_note, "GPU failed: nan — continuing on CPU");
    st.placed(Some("no card".to_string()));
    assert_eq!(st.gpu_note, "GPU unavailable: no card — solving on CPU + system RAM");
    st.crash("boom");
    assert_eq!(st.error, "solve crashed: boom");
}

fn report(flops: usize, villain: bool) -> ReportPlan<F64> {
    let flops = (0..flops).map(|i| format!("flop{i}")).collect();
    ReportPlan { flops, villain, cap_mb: F64(100.0) }
}

fn report_status() -> ReportStatus {
    ReportStatus {
        running: false,
        name: String::new(),
        done: 0,
        total: 0,
        board: String::new(),
        error: String::new(),
    }
}

#[test]
fn a_report_covers_every_flop() {
    let plan = report(9, false);
    let mut st = report_status();
    assert_eq!(st.begin("btn vs bb", 9), Ok(()));
    assert_eq!(st.begin("again", 9), Err(AlreadyRunning));
    let mut run = ReportRun::start();
    for i in 0..9 {
        let mut go = |e| plan.advance(&mut run, &mut st, e);
        assert_eq!(go(ReportEvent::Round { stop: false }), ReportStep::Build);
        assert_eq!(go(ReportEvent::Built { arena_mb: F64(100.0) }), ReportStep::Solve);
        assert_eq!(go(ReportEvent::Solved { pct: F64(0.3) }), ReportStep::KeepRow);
        let kept = go(ReportEvent::Kept);
        assert_eq!(kept, if i == 7 { ReportStep::Write } else { ReportStep::Again });
        assert_eq!(go(ReportEvent::Written), ReportStep::Again);
        assert_eq!(st.board, format!("flop{i}"));
    }
    let mut go = |e| plan.advance(&mut run, &mut st, e);
    let round = go(ReportEvent::Round { stop: false });
    assert_eq!(round, ReportStep::Conclude { complete: true });
    assert_eq!(go(ReportEvent::Concluded { error: None }), ReportStep::End);
    assert!(!st.running);
    assert_eq!((st.done, st.total, st.name.as_str()), (9, 9, "btn vs bb"));
    assert_eq!(st.error, "");

    assert_eq!(report_dflt_flops(), 95);
    assert_eq!(report_dflt_iters(), 600);
    assert_eq!(report_dflt_target::<F64>(), F64(0.35));
}

#[test]
fn a_report_tells_what_went_wrong() {
    let plan = report(2, true);
    let broken = ReportStep::Conclude { complete: false };
    let tell = |event: ReportEvent<F64>| {
        let (mut run, mut st) = (ReportRun::start(), report_status());
        assert_eq!(plan.advance(&mut run, &mut st, event), broken);
        (run.error, run.stopped)
    };
    let text = |s: &str| s.to_string();
    assert_eq!(tell(ReportEvent::Round { stop: true }), (text(""), true));
    assert_eq!(tell(ReportEvent::Refused { error: text("bad size") }), (text("bad size"), false));
    assert_eq!(
        tell(ReportEvent::Unbuildable { error: text("no range") }),
        (text("flop0: no range"), false)
    );
    assert_eq!(
        tell(ReportEvent::Built { arena_mb: F64(100.5) }).0,
        "flop0: tree too large (100 MB of solver data, cap 100 MB); reduce bet sizes or set \
         SOLVER_MEM_MB to override"
    );
    assert_eq!(tell(ReportEvent::Solved { pct: F64(-1.0) }), (text(""), true));
    assert_eq!(
        tell(ReportEvent::LockFailed { error: text("no spots") }).0,
        "villain lock failed on flop0: no spots"
    );
    assert_eq!(tell(ReportEvent::Readapted { pct: F64(-1.0) }), (text(""), true));
    assert_eq!(tell(ReportEvent::ViewFailed { error: text("x") }).0, "x");

    let (mut run, mut st) = (ReportRun::start(), report_status());
    let mut go = |e| plan.advance(&mut run, &mut st, e);
    assert_eq!(go(ReportEvent::Solved { pct: F64(0.2) }), ReportStep::Lock);
    assert_eq!(go(ReportEvent::Locked), ReportStep::Readapt);
    assert_eq!(go(ReportEvent::Readapted { pct: F64(0.2) }), ReportStep::KeepRow);
    assert_eq!(go(ReportEvent::Concluded { error: Some(text("disk full")) }), ReportStep::End);
    assert_eq!(st.error, "disk full");
}

#[test]
fn names_are_made_fit_for_files() {
    assert_eq!(sanitize_name(" My save-1_a.b "), Ok("My save-1_a.b".to_string()));
    assert_eq!(sanitize_name("../../etc/passwd"), Ok("....etcpasswd".to_string()));
    assert_eq!(sanitize_name("///"), Err(NameError::Save));
    assert_eq!(pf_game_path("6-max: live?"), Ok("saves/preflop/6-max live.gtop".to_string()));
    // letters of every script stay
    assert_eq!(pf_game_path("tür!ß"), Ok("saves/preflop/türß.gtop".to_string()));
    assert_eq!(pf_game_path(" ! "), Err(NameError::Game));
    assert_eq!(report_path("a.b"), Ok("saves/reports/ab.json".to_string()));
    assert_eq!(report_path(""), Err(NameError::Report));
    assert_eq!(profile_path("OMC"), Ok("saves/profiles/OMC.json".to_string()));
    assert_eq!(profile_path("\t"), Err(NameError::Profile));
    assert_eq!(NameError::Save.message(), "invalid save name");
    assert_eq!(NameError::Game.message(), "give the save a name");
    assert_eq!(NameError::Report.message(), "give the report a name");
    assert_eq!(NameError::Profile.message(), "profile needs a name");
}

#[test]
fn only_what_is_allowed_stays() {
    let name: Vec<char> = "a/b.c".chars().collect();
    let letters = [true, false, true, false, true];
    assert_eq!(clean(&name, &letters, true), Some(vec!['a', 'b', '.', 'c']));
    assert_eq!(clean(&name, &letters, false), Some(vec!['a', 'b', 'c']));
    assert_eq!(clean(&[' ', '/'], &[false, false], true), None);
}

#[test]
fn memory_tables_are_read() {
    let table = "MemTotal:       16318480 kB\nMemFree:  12 kB\nMemAvailable:    2048 kB\n";
    assert_eq!(proc_megabytes::<F64>(table, "MemAvailable:"), Some(F64(2.0)));
    assert_eq!(proc_megabytes::<F64>(table, "VmHWM:"), None);
    assert_eq!(proc_megabytes::<F64>("VmHWM:\n", "VmHWM:"), None);
    assert_eq!(proc_megabytes::<F64>("VmHWM: lots kB\n", "VmHWM:"), None);
}

#[test]
fn memory_is_capped() {
    assert_eq!(mem_cap_mb(Some(F64(5.0)), Some(F64(1000.0))), F64(5.0));
    assert_eq!(mem_cap_mb(None, Some(F64(1000.0))), F64(800.0));
    assert_eq!(mem_cap_mb(None, Some(F64(1e9))), F64(48_000.0));
    assert_eq!(mem_cap_mb::<F64>(None, None), F64(48_000.0));
    assert_eq!(old_arena_credit_mb(false, Some(F64(100.0))), F64(80.0));
    assert_eq!(old_arena_credit_mb(true, Some(F64(100.0))), F64(0.0));
    assert_eq!(old_arena_credit_mb::<F64>(false, None), F64(0.0));
    assert_eq!(limit_arena_mb(None, Some(F64(1000.0))), F64(400.0));
    assert_eq!(limit_arena_mb(Some(F64(7.0)), Some(F64(1000.0))), F64(7.0));
    assert_eq!(limit_arena_mb::<F64>(None, None), F64(2000.0));
    assert_eq!(limit_nodes(None, F64(2000.0)), 1_660_000);
    assert_eq!(limit_nodes(Some(9), F64(2000.0)), 9);
    assert_eq!(limit_nodes(None, F64(-1.0)), 0);
    assert_eq!(megabytes::<F64>(2_500_000), F64(2.5));
    assert!(arena_fits(F64(1.0), F64(1.0)) && !arena_fits(F64(1.1), F64(1.0)));
    assert_eq!(load_peak_mb(F64(10.0), [250_000, 500_000]), F64(12.0));
}

fn street(bet: &str, raise: &str, donk: &str) -> SizesRequest {
    SizesRequest { bet: bet.into(), raise: raise.into(), donk: donk.into() }
}

fn request() -> SpotRequest<F64> {
    SpotRequest {
        board: "Ks7h2d".into(),
        range_oop: "AA,KK".into(),
        range_ip: "QQ".into(),
        starting_pot: F64(10.0),
        effective_stack: F64(50.0),
        rake_pct: F64(5.0),
        rake_cap: F64(3.0),
        allin_threshold: default_allin_threshold(),
        add_allin: true,
        max_raises: default_max_raises(),
        oop: vec![street("33,75", "3x", "50"), street("66", "", ""), street("a", "", "")],
        ip: vec![street("50", "100", ""), street("", "", ""), street("", "", "")],
    }
}

#[test]
fn requests_become_configurations_and_back() {
    let config = request().to_spot_config().ok().unwrap();
    assert_eq!(config.tree.rake_pct, F64(0.05));
    assert_eq!(config.tree.allin_threshold, F64(0.85));
    assert_eq!(config.tree.max_raises, 10);
    assert_eq!(config.tree.oop[0].bet, vec![BetSize::PotPct(F64(33.0)), BetSize::PotPct(F64(75.0))]);
    assert_eq!(config.tree.oop[0].raise, vec![BetSize::PrevMult(F64(3.0))]);
    assert_eq!(config.tree.oop[2].bet, vec![BetSize::AllIn]);
    assert!(config.tree.ip[1].bet.is_empty());
    let back = spot_request_from_config(&config);
    assert_eq!(back.board, "Ks7h2d");
    assert_eq!(back.rake_pct, F64(5.0));
    assert_eq!(back.allin_threshold, F64(85.0));
    assert_eq!(back.oop[0].bet, "33 75");
    assert_eq!(back.oop[0].raise, "3x");
    assert_eq!(back.ip[0].raise, "100");
    assert_eq!(back.oop[2].bet, "a");

    let mut short = request();
    short.ip.pop();
    assert!(matches!(short.to_spot_config(), Err(SizingError::Streets)));
    let mut odd = request();
    odd.oop[1].raise = "x".into();
    assert!(matches!(odd.to_spot_config(), Err(SizingError::Size(_))));
}

#[test]
fn node_budgets_follow_the_smaller_range() {
    let config = request().to_spot_config().ok().unwrap();
    // KK on a king board leaves 3 combos, with 6 of AA; QQ leaves 6:
    // 4e6 / (0.25 * 2 * 6 * 8) nodes for a megabyte
    assert_eq!(node_budget::<F32>(F64(1.0), &config, Storage::F32), 166_667);
    assert_eq!(node_budget::<F32>(F64(1.0), &config, Storage::Compressed), 142_858);
    assert_eq!(node_budget::<F32>(F64(-1.0), &config, Storage::F32), 1000);
}

fn chars(s: &str) -> Vec<char> {
    s.chars().collect()
}

#[test]
fn boards_are_listed() {
    let list = |v: Vec<Vec<char>>| -> Vec<String> {
        v.into_iter().map(|w| w.into_iter().collect()).collect()
    };
    assert_eq!(
        list(parse_boards(&chars("KsQs2d, Th9h2c\n\n AsKd3c,,"))),
        vec!["KsQs2d", "Th9h2c", "AsKd3c"]
    );
    assert!(parse_boards(&chars(" ,\n")).is_empty());
    assert_eq!(list(split_commas(&chars("KsQs2d,,Th"))), vec!["KsQs2d", "", "Th"]);
    assert_eq!(list(split_commas(&[])), vec![""]);
}

#[test]
fn seats_come_and_go() {
    let table = full_table(6);
    assert_eq!(table, 0b111111);
    let left = seat_out(table, 2);
    assert!(!is_seated(left, 2) && is_seated(left, 3));
    assert_eq!(count_seats(left, 6), 5);
    assert_eq!(lowest_seat(seat_out(seat_out(left, 0), 1), 6), 3);
    assert_eq!(seat_in(left, 2), table);
}

#[test]
fn older_iterations_fade() {
    let first = Discount::<F32>::after(1);
    assert_eq!((first.regret, first.sum), (F32(0.5), F32(0.25)));
    let fourth = Discount::<F32>::after(4);
    assert!((fourth.regret.0 - 8.0 / 9.0).abs() < 1e-6);
    assert!((fourth.sum.0 - 0.64).abs() < 1e-6);
}
