//! What ranges make of their equity.

use solver::batch::avg_ev;
use solver::cfr::Solver;
use solver::game::{Spot, SpotConfig};
use solver::num::{Num, Single};
use solver::report::{check_index, report_node_stats};
use solver::sizing::parse_sizes;
use solver::tree::{StreetSizing, TreeConfig};

#[derive(Clone, Copy, Debug, PartialEq, PartialOrd)]
struct F64(f64);

impl Num for F64 {
    fn plus(self, rhs: Self) -> Self {
        F64(self.0 + rhs.0)
    }
    fn minus(self, rhs: Self) -> Self {
        F64(self.0 - rhs.0)
    }
    fn times(self, rhs: Self) -> Self {
        F64(self.0 * rhs.0)
    }
    fn over(self, rhs: Self) -> Self {
        F64(self.0 / rhs.0)
    }
    fn negated(self) -> Self {
        F64(-self.0)
    }
    fn below(self, rhs: Self) -> bool {
        self.0 < rhs.0
    }
    fn at_most(self, rhs: Self) -> bool {
        self.0 <= rhs.0
    }
    fn finite(self) -> bool {
        self.0.is_finite()
    }
    fn decimal(units: i64, places: u8) -> Self {
        if places == 0 {
            return F64(units as f64);
        }
        F64(units as f64 / 10f64.powi(places as i32))
    }
    fn rounded(self) -> Self {
        F64(self.0.round())
    }
    fn root(self) -> Self {
        F64(self.0.sqrt())
    }
    fn floored(self) -> i128 {
        self.0.floor() as i128
    }
    fn nearest(self) -> i64 {
        self.0.round_ties_even() as i64
    }
    fn parse(text: &str) -> Option<Self> {
        text.parse().ok().map(F64)
    }
    fn shown(self) -> String {
        format!("{}", self.0)
    }
    fn fixed(self, places: u8) -> String {
        format!("{:.*}", places as usize, self.0)
    }
}

#[derive(Clone, Copy, Debug, PartialEq, PartialOrd)]
struct F32(f32);

impl Num for F32 {
    fn plus(self, rhs: Self) -> Self {
        F32(self.0 + rhs.0)
    }
    fn minus(self, rhs: Self) -> Self {
        F32(self.0 - rhs.0)
    }
    fn times(self, rhs: Self) -> Self {
        F32(self.0 * rhs.0)
    }
    fn over(self, rhs: Self) -> Self {
        F32(self.0 / rhs.0)
    }
    fn negated(self) -> Self {
        F32(-self.0)
    }
    fn below(self, rhs: Self) -> bool {
        self.0 < rhs.0
    }
    fn at_most(self, rhs: Self) -> bool {
        self.0 <= rhs.0
    }
    fn finite(self) -> bool {
        self.0.is_finite()
    }
    fn decimal(units: i64, places: u8) -> Self {
        if places == 0 {
            return F32(units as f32);
        }
        F32((units as f64 / 10f64.powi(places as i32)) as f32)
    }
    fn rounded(self) -> Self {
        F32(self.0.round())
    }
    fn root(self) -> Self {
        F32(self.0.sqrt())
    }
    fn floored(self) -> i128 {
        self.0.floor() as i128
    }
    fn nearest(self) -> i64 {
        self.0.round_ties_even() as i64
    }
    fn parse(text: &str) -> Option<Self> {
        text.parse().ok().map(F32)
    }
    fn shown(self) -> String {
        format!("{}", self.0)
    }
    fn fixed(self, places: u8) -> String {
        format!("{:.*}", places as usize, self.0)
    }
}

impl Single for F32 {
    type Wide = F64;

    fn widened(self) -> F64 {
        F64(self.0 as f64)
    }
    fn narrowed(wide: F64) -> Self {
        F32(wide.0 as f32)
    }
    fn word(self) -> u32 {
        self.0.to_bits()
    }
    fn of_word(word: u32) -> Self {
        F32(f32::from_bits(word))
    }
}

fn sizing(bet: &str, raise: &str) -> StreetSizing<F64> {
    StreetSizing {
        bet: parse_sizes(bet).ok().unwrap(),
        raise: parse_sizes(raise).ok().unwrap(),
        donk: vec![],
    }
}

fn turn_solver() -> Solver<F32> {
    // IDENTICAL ranges both sides: any realization asymmetry is then purely
    // positional, so "IP over-realizes" must hold.
    let range = "22+,A2s+,K9s+,QTs+,JTs,T9s,98s,87s,76s,ATo+,KJo+,QJo";
    let s = || [sizing("50", "100"), sizing("66", ""), sizing("66", "100")];
    let spot = Spot::new(SpotConfig {
        board: "Ks7h2d4s".to_string(),
        range_oop: range.to_string(),
        range_ip: range.to_string(),
        tree: TreeConfig {
            starting_pot: F64(10.0),
            effective_stack: F64(40.0),
            oop: s(),
            ip: s(),
            max_raises: 2,
            ..Default::default()
        },
    })
    .ok()
    .unwrap();
    let mut solver = Solver::new(spot);
    for _ in 0..60 {
        solver.iterate();
    }
    solver
}

#[test]
fn realization_observations_are_sane_on_a_turn() {
    let solver = turn_solver();
    let obs = solver.realization_observations().ok().unwrap();
    assert!(obs.len() > 20, "expected observations for both players, got {}", obs.len());
    assert!(obs.iter().any(|o| o.player == 0) && obs.iter().any(|o| o.player == 1));
    for o in &obs {
        // bottom-of-range hands legitimately realize ~0 (check-fold ≈ fold
        // EV = 0 in pot-share)
        assert!(
            o.r_obs.0.is_finite() && o.r_obs.0 > -0.05 && o.r_obs.0 < 3.5,
            "wild r_obs {} for {} (player {})",
            o.r_obs.0,
            o.label,
            o.player
        );
        assert!((o.spr.0 - 4.0).abs() < 1e-9);
        assert_eq!(o.board, "Ks7h2d4s");
        assert_eq!(o.pos_frac, F64(if o.player == 0 { -0.5 } else { 0.5 }));
        assert_eq!(o.n_players, 2);
    }
    // position premium: IP's reach-weighted mean realization beats OOP's
    let mean = |p: u8| {
        let (mut n, mut d) = (0f64, 0f64);
        for o in obs.iter().filter(|o| o.player == p) {
            n += o.r_obs.0 * o.reach.0;
            d += o.reach.0;
        }
        n / d
    };
    let (moop, mip) = (mean(0), mean(1));
    assert!(mip > moop, "IP should over-realize vs OOP: OOP {moop:.3} IP {mip:.3}");
}

/// The two ranges share the pot between them.
#[test]
fn report_rows_add_up_to_the_pot() {
    let solver = turn_solver();
    let view = solver.node_view(&[]).ok().unwrap();
    let (players, strat) = report_node_stats(&view, F64(10.0));
    let total = players[0].ev.0 + players[1].ev.0;
    assert!((total - 10.0).abs() < 0.01, "the pot is shared, got {total}");
    assert!((players[0].eq.0 + players[1].eq.0 - 1.0).abs() < 1e-3);
    for p in &players {
        assert!((p.eqr.0 - p.ev.0 / (10.0 * p.eq.0)).abs() < 1e-6);
    }
    let strat = strat.unwrap();
    assert_eq!(strat.actor, 0);
    assert_eq!(strat.kinds[0], "check");
    assert!((strat.freqs.iter().map(|f| f.0).sum::<f64>() - 1.0).abs() < 1e-3);
    assert_eq!(check_index(&view), Some(0));
    let ev = avg_ev(&view.players[0].hands).0;
    assert!(ev > 0.0 && ev < 10.0);
}
