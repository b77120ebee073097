//! Preflop play: against an independent push/fold oracle, the grammar of actions,
//! and what the model keeps.

use solver::betting::{
    PKind, BUCKET_SQUEEZE, BUCKET_UNOPENED, BUCKET_VS_3BET, BUCKET_VS_LIMPS, BUCKET_VS_RAISE,
    NUM_BUCKETS,
};
use solver::cards::{combo_from_index, NUM_COMBOS};
use solver::classes::{
    class_index, class_label, class_of, class_parts, class_prob, NUM_CLASSES,
};
use solver::evaluator::evaluate7;
use solver::framing::{find_header_end, SaveError};
use solver::messages::size_refusal;
use solver::num::{Num, Single};
use solver::preflop::{
    default_allin_threshold, default_max_raises, default_realization, default_true, PreflopConfig,
    PreflopError,
};
use solver::preflop_build::{estimate_tree, TreeLimits};
use solver::preflop_save::{magic, GameError, GameHeader};
use solver::preflop_seats::{PinError, SeatError};
use solver::preflop_session::estimate_fits;
use solver::preflop_solver::PreflopSolver;
use solver::preflop_tree::{KIND_ACTION, KIND_FOLD_WIN, KIND_POT_SHARE};
use solver::preflop_values::EquityTable;
use solver::preflop_view::PreflopQueryError;
use solver::seat_models::{BucketPolicy, RaiseSize, SeatProfile};
use std::sync::Arc;

#[derive(Clone, Copy, Debug, PartialEq, PartialOrd)]
struct F64(f64);

impl Num for F64 {
    fn plus(self, rhs: Self) -> Self {
        F64(self.0 + rhs.0)
    }
    fn minus(self, rhs: Self) -> Self {
        F64(self.0 - rhs.0)
    }
    fn times(self, rhs: Self) -> Self {
        F64(self.0 * rhs.0)
    }
    fn over(self, rhs: Self) -> Self {
        F64(self.0 / rhs.0)
    }
    fn negated(self) -> Self {
        F64(-self.0)
    }
    fn below(self, rhs: Self) -> bool {
        self.0 < rhs.0
    }
    fn at_most(self, rhs: Self) -> bool {
        self.0 <= rhs.0
    }
    fn finite(self) -> bool {
        self.0.is_finite()
    }
    fn decimal(units: i64, places: u8) -> Self {
        if places == 0 {
            return F64(units as f64);
        }
        F64(units as f64 / 10f64.powi(places as i32))
    }
    fn rounded(self) -> Self {
        F64(self.0.round())
    }
    fn root(self) -> Self {
        F64(self.0.sqrt())
    }
    fn floored(self) -> i128 {
        self.0.floor() as i128
    }
    fn nearest(self) -> i64 {
        self.0.round_ties_even() as i64
    }
    fn parse(text: &str) -> Option<Self> {
        text.parse().ok().map(F64)
    }
    fn shown(self) -> String {
        format!("{}", self.0)
    }
    fn fixed(self, places: u8) -> String {
        format!("{:.*}", places as usize, self.0)
    }
}

#[derive(Clone, Copy, Debug, PartialEq, PartialOrd)]
struct F32(f32);

impl Num for F32 {
    fn plus(self, rhs: Self) -> Self {
        F32(self.0 + rhs.0)
    }
    fn minus(self, rhs: Self) -> Self {
        F32(self.0 - rhs.0)
    }
    fn times(self, rhs: Self) -> Self {
        F32(self.0 * rhs.0)
    }
    fn over(self, rhs: Self) -> Self {
        F32(self.0 / rhs.0)
    }
    fn negated(self) -> Self {
        F32(-self.0)
    }
    fn below(self, rhs: Self) -> bool {
        self.0 < rhs.0
    }
    fn at_most(self, rhs: Self) -> bool {
        self.0 <= rhs.0
    }
    fn finite(self) -> bool {
        self.0.is_finite()
    }
    fn decimal(units: i64, places: u8) -> Self {
        if places == 0 {
            return F32(units as f32);
        }
        F32((units as f64 / 10f64.powi(places as i32)) as f32)
    }
    fn rounded(self) -> Self {
        F32(self.0.round())
    }
    fn root(self) -> Self {
        F32(self.0.sqrt())
    }
    fn floored(self) -> i128 {
        self.0.floor() as i128
    }
    fn nearest(self) -> i64 {
        self.0.round_ties_even() as i64
    }
    fn parse(text: &str) -> Option<Self> {
        text.parse().ok().map(F32)
    }
    fn shown(self) -> String {
        format!("{}", self.0)
    }
    fn fixed(self, places: u8) -> String {
        format!("{:.*}", places as usize, self.0)
    }
}

impl Single for F32 {
    type Wide = F64;

    fn widened(self) -> F64 {
        F64(self.0 as f64)
    }
    fn narrowed(wide: F64) -> Self {
        F32(wide.0 as f32)
    }
    fn word(self) -> u32 {
        self.0.to_bits()
    }
    fn of_word(word: u32) -> Self {
        F32(f32::from_bits(word))
    }
}

type Config = PreflopConfig<F64>;
type Game = PreflopSolver<F32>;

/// Equities of every class against every class, sampled with a fixed seed.
fn table() -> Arc<EquityTable<F32>> {
    let mut hands: Vec<Vec<(u8, u8)>> = vec![vec![]; NUM_CLASSES];
    for i in 0..NUM_COMBOS {
        let (a, b) = combo_from_index(i);
        hands[class_of(a, b)].push((a, b));
    }
    let mut seed = 0x9e37_79b9_7f4a_7c15u64;
    let mut next = |n: u64| {
        seed ^= seed << 13;
        seed ^= seed >> 7;
        seed ^= seed << 17;
        seed % n
    };
    let mut cells = vec![F32(0.5); NUM_CLASSES * NUM_CLASSES];
    for i in 0..NUM_CLASSES {
        for j in 0..i {
            let (mut won, mut all) = (0f64, 0f64);
            while all < 60.0 {
                let (a, b) = hands[i][next(hands[i].len() as u64) as usize];
                let (c, d) = hands[j][next(hands[j].len() as u64) as usize];
                if a == c || a == d || b == c || b == d {
                    continue;
                }
                let mut used = (1u64 << a) | (1 << b) | (1 << c) | (1 << d);
                let mut board = [0u8; 5];
                for slot in board.iter_mut() {
                    loop {
                        let x = next(52) as u8;
                        if used & (1 << x) == 0 {
                            used |= 1 << x;
                            *slot = x;
                            break;
                        }
                    }
                }
                let seven = |x: u8, y: u8| {
                    evaluate7(&[board[0], board[1], board[2], board[3], board[4], x, y])
                };
                let (v, w) = (seven(a, b), seven(c, d));
                won += if v > w {
                    1.0
                } else if v == w {
                    0.5
                } else {
                    0.0
                };
                all += 1.0;
            }
            cells[i * NUM_CLASSES + j] = F32((won / all) as f32);
            cells[j * NUM_CLASSES + i] = F32(1.0 - (won / all) as f32);
        }
    }
    Arc::new(EquityTable::from_cells(cells).unwrap())
}

/// A table in which every class is even with every other.
fn flat_table() -> Arc<EquityTable<F32>> {
    Arc::new(EquityTable::from_cells(vec![F32(0.5); NUM_CLASSES * NUM_CLASSES]).unwrap())
}

fn nums(v: &[f64]) -> Vec<F64> {
    v.iter().map(|&x| F64(x)).collect()
}

fn names(v: &[&str]) -> Vec<String> {
    v.iter().map(|s| s.to_string()).collect()
}

fn limits() -> TreeLimits<F64> {
    TreeLimits { nodes: 2_000_000, arena_mb: F64(2000.0) }
}

fn build(cfg: Config, eq: Arc<EquityTable<F32>>) -> Result<Game, PreflopError> {
    PreflopSolver::new(cfg, eq, &limits())
}

fn hu_push_fold_config(stack: f64) -> Config {
    PreflopConfig {
        positions: names(&["SB", "BB"]),
        stack: F64(stack),
        posts: nums(&[0.5, 1.0]),
        ante: F64(0.0),
        limp: false,
        open_raises: vec![],
        raise_mults: vec![],
        max_raises: 1,
        add_allin: true,
        allin_threshold: F64(0.85),
        rake_pct: F64(0.0),
        rake_cap: F64(0.0),
        no_flop_no_drop: true,
        realization: "raw".into(),
        call_only_seats: vec![],
        open_raises_by_seat: None,
        raise_mults_by_seat: None,
    }
}

fn hu_limp_config() -> Config {
    PreflopConfig {
        stack: F64(25.0),
        limp: true,
        open_raises: nums(&[2.5, 5.0]),
        raise_mults: nums(&[3.0]),
        max_raises: 3,
        add_allin: false,
        realization: "static".into(),
        ..hu_push_fold_config(25.0)
    }
}

fn three_handed_config() -> Config {
    PreflopConfig {
        positions: names(&["BTN", "SB", "BB"]),
        stack: F64(100.0),
        posts: nums(&[0.0, 0.5, 1.0]),
        limp: true,
        open_raises: nums(&[4.0]),
        raise_mults: nums(&[3.0]),
        max_raises: 4,
        add_allin: false,
        ..hu_push_fold_config(100.0)
    }
}

fn six_max_config() -> Config {
    PreflopConfig {
        positions: names(&["UTG", "HJ", "CO", "BTN", "SB", "BB"]),
        posts: nums(&[0.0, 0.0, 0.0, 0.0, 0.5, 1.0]),
        limp: true,
        open_raises: nums(&[2.5]),
        raise_mults: nums(&[3.0]),
        max_raises: 2,
        add_allin: false,
        ..hu_push_fold_config(100.0)
    }
}

fn kind_at(s: &Game, node: usize, kind: PKind) -> usize {
    s.nodes[node].actions.iter().position(|a| a.kind == kind).unwrap()
}

/// Independent Nash oracle for heads-up jam/fold at `stack` bb, using the
/// SAME equity table and the same mean-field assumptions as the solver.
/// Fictitious play (best response vs the opponent's AVERAGED strategy).
/// Returns the averaged (jam, call) frequencies plus each class's final
/// decision margin in bb against the averaged opponent strategy.
fn push_fold_oracle(
    eq: &EquityTable<F32>,
    stack: f64,
) -> (Vec<f32>, Vec<f32>, Vec<f64>, Vec<f64>) {
    let cells: Vec<f32> = eq.cells.iter().map(|x| x.0).collect();
    let eq_vs_dist = |h: usize, dist: &[f32]| -> f32 {
        let row = &cells[h * NUM_CLASSES..(h + 1) * NUM_CLASSES];
        row.iter().zip(dist).map(|(a, b)| a * b).sum()
    };
    let prob: Vec<f64> = (0..NUM_CLASSES).map(|h| class_prob::<F32>(h).0 as f64).collect();
    let total: f64 = prob.iter().sum();
    let mut jam_mix = vec![1f64; NUM_CLASSES];
    let mut call_mix = vec![0f64; NUM_CLASSES];
    let (mut jam_margin, mut call_margin) = (vec![0f64; NUM_CLASSES], vec![0f64; NUM_CLASSES]);
    for t in 1..=4000u32 {
        // BB best response vs averaged jam range: call risks (stack-1) more
        // to win 2*stack total; folding loses the posted blind.
        let mut dist: Vec<f32> =
            (0..NUM_CLASSES).map(|j| (prob[j] * jam_mix[j]) as f32).collect();
        let s: f32 = dist.iter().sum();
        if s > 0.0 {
            dist.iter_mut().for_each(|d| *d /= s);
        }
        let mut call_br = vec![0f64; NUM_CLASSES];
        for h in 0..NUM_CLASSES {
            let e = eq_vs_dist(h, &dist) as f64;
            call_margin[h] = (e * 2.0 * stack - stack) - (-1.0);
            call_br[h] = if call_margin[h] > 0.0 { 1.0 } else { 0.0 };
        }
        // SB best response vs averaged call range.
        let p_call: f64 =
            (0..NUM_CLASSES).map(|j| prob[j] * call_mix[j]).sum::<f64>() / total;
        let mut cdist: Vec<f32> =
            (0..NUM_CLASSES).map(|j| (prob[j] * call_mix[j]) as f32).collect();
        let cs: f32 = cdist.iter().sum();
        if cs > 0.0 {
            cdist.iter_mut().for_each(|d| *d /= cs);
        }
        let mut jam_br = vec![0f64; NUM_CLASSES];
        for h in 0..NUM_CLASSES {
            let e = eq_vs_dist(h, &cdist) as f64;
            let ev_jam = (1.0 - p_call) * 1.0 + p_call * (e * 2.0 * stack - stack);
            jam_margin[h] = ev_jam - (-0.5);
            jam_br[h] = if jam_margin[h] > 0.0 { 1.0 } else { 0.0 };
        }
        // fictitious-play averaging
        let w = 1.0 / t as f64;
        for h in 0..NUM_CLASSES {
            call_mix[h] += w * (call_br[h] - call_mix[h]);
            jam_mix[h] += w * (jam_br[h] - jam_mix[h]);
        }
    }
    (
        jam_mix.iter().map(|&x| x as f32).collect(),
        call_mix.iter().map(|&x| x as f32).collect(),
        jam_margin,
        call_margin,
    )
}

/// CFR must reproduce the oracle's push/fold equilibrium for every class
/// whose decision margin is clear (mixing at the indifference boundary is
/// expected and excluded).
#[test]
fn hu_push_fold_matches_oracle() {
    let eq = table();
    let stack = 10.0;
    let mut s = build(hu_push_fold_config(stack), eq.clone()).unwrap();
    // tree: SB [Fold, All-in] -> BB [Fold, Call]
    assert_eq!(s.nodes[0].actions.len(), 2, "SB should have fold/jam");
    for _ in 0..4000 {
        s.iterate();
    }

    let (jam, call, jam_margin, call_margin) = push_fold_oracle(&eq, stack);
    let sb = s.average_strategy(0);
    let sb_jam_a = kind_at(&s, 0, PKind::Jam);
    let bb_idx = s.child(0, sb_jam_a);
    let bb = s.average_strategy(bb_idx);
    let bb_call_a = kind_at(&s, bb_idx, PKind::Call);

    let (mut checked, mut skipped) = (0, 0);
    for h in 0..NUM_CLASSES {
        // SB decision
        if jam_margin[h].abs() > 0.10 {
            let f = sb[sb_jam_a * NUM_CLASSES + h].0;
            let want = jam[h] > 0.5;
            assert!(
                if want { f > 0.85 } else { f < 0.15 },
                "SB class {} ({}): oracle jam={} margin={:.3}bb, CFR jam freq={:.3}",
                h,
                class_label(h),
                want,
                jam_margin[h],
                f
            );
            checked += 1;
        } else {
            skipped += 1;
        }
        // BB decision
        if call_margin[h].abs() > 0.10 {
            let f = bb[bb_call_a * NUM_CLASSES + h].0;
            let want = call[h] > 0.5;
            assert!(
                if want { f > 0.85 } else { f < 0.15 },
                "BB class {} ({}): oracle call={} margin={:.3}bb, CFR call freq={:.3}",
                h,
                class_label(h),
                want,
                call_margin[h],
                f
            );
        }
    }
    assert!(
        checked > 120,
        "oracle should give clear answers for most classes, got {checked} (skipped {skipped})"
    );

    // sanity anchors: at 10bb, AA always jams and always calls; 72o folds to a jam
    let aa = class_index(12, 12, false);
    let seven_deuce = class_index(5, 0, false);
    assert!(sb[sb_jam_a * NUM_CLASSES + aa].0 > 0.99);
    assert!(bb[bb_call_a * NUM_CLASSES + aa].0 > 0.99);
    assert!(bb[bb_call_a * NUM_CLASSES + seven_deuce].0 < 0.05);

    // zero-sum (no rake): total EV across players ~ 0
    let total: f64 = s.evs().iter().map(|x| x.0).sum();
    assert!(total.abs() < 0.01, "EVs should sum to ~0, got {total}");

    // convergence: BR gaps small
    for (p, g) in s.br_gaps().iter().enumerate() {
        assert!(g.0 < 0.02, "BR gap for player {p} too big: {} bb", g.0);
    }
}

/// Full grammar: 6-max with limps, an open size and a 3-bet builds a legal
/// tree.
#[test]
fn six_max_limp_tree_is_legal() {
    let cfg = PreflopConfig { max_raises: 3, realization: "static".into(), ..six_max_config() };
    let s = build(cfg, flat_table()).unwrap();
    let action_nodes = s.nodes.iter().filter(|n| n.kind == KIND_ACTION).count();
    assert!(action_nodes > 100, "tree suspiciously small: {action_nodes}");

    // UTG's root actions must include limp (limp=true), a raise and fold
    let kinds: Vec<&str> = s.nodes[0].actions.iter().map(|a| a.kind.name()).collect();
    assert!(kinds.contains(&"fold") && kinds.contains(&"call") && kinds.contains(&"raise"));
    let labels: Vec<&str> = s.nodes[0].actions.iter().map(|a| a.label.as_str()).collect();
    assert_eq!(labels, vec!["Fold", "Limp 1", "Raise 2.5"]);
}

/// Play with three seats comes closer to equilibrium as it goes on.
#[test]
fn three_handed_play_converges() {
    let cfg = PreflopConfig { max_raises: 1, realization: "raw".into(), ..three_handed_config() };
    let mut s = build(cfg, flat_table()).unwrap();
    for _ in 0..10 {
        s.iterate();
    }
    let g1: f64 = s.br_gaps().iter().map(|x| x.0).sum();
    for _ in 0..20 {
        s.iterate();
    }
    let g2: f64 = s.br_gaps().iter().map(|x| x.0).sum();
    assert!(g2 < g1, "BR gap should shrink with iterations: {g1} -> {g2}");
}

/// Rake drains EV: with rake on, total EV goes negative (and not absurdly).
#[test]
fn rake_drains_total_ev() {
    let mut cfg = hu_push_fold_config(20.0);
    cfg.open_raises = nums(&[2.5]);
    cfg.max_raises = 2;
    cfg.limp = true;
    cfg.rake_pct = F64(5.0);
    cfg.rake_cap = F64(3.0);
    cfg.no_flop_no_drop = true;
    let mut s = build(cfg, table()).unwrap();
    for _ in 0..400 {
        s.iterate();
    }
    let total: f64 = s.evs().iter().map(|x| x.0).sum();
    assert!(total < 0.0, "rake should make the game net negative, got {total}");
    assert!(total > -1.0, "rake drain implausibly large: {total}");
}

/// The size estimator must agree exactly with what the builder builds.
#[test]
fn estimate_matches_build() {
    for cfg in [hu_push_fold_config(10.0), six_max_config()] {
        let est = estimate_tree(&cfg, limits().nodes).unwrap();
        let s = build(cfg, flat_table()).unwrap();
        assert!(!est.truncated);
        assert_eq!(est.nodes as usize, s.nodes.len(), "node count mismatch");
        assert_eq!(
            est.action_nodes as usize,
            s.nodes.iter().filter(|n| n.kind == 0).count(),
            "action node mismatch"
        );
        assert!((est.arena_len as f64 * 8.0 / 1e6 - s.arena_mb().0).abs() < 1e-6);
    }
}

#[test]
fn hu_postflop_position_bb_is_oop() {
    let eq = flat_table();
    let s = build(hu_limp_config(), eq.clone()).unwrap();
    assert_eq!(s.postflop_order(), vec![1, 0], "HU: BB first (OOP), SB/button last");
    // limp, check -> flop terminal
    let limp = kind_at(&s, 0, PKind::Call);
    let bb_node = s.child(0, limp);
    let check = kind_at(&s, bb_node, PKind::Check);
    let term = s.child(bb_node, check);
    assert_eq!(s.nodes[term].kind, 2, "expected a pot_share terminal");
    let ex = s.export_spot(&[limp, check]).unwrap();
    assert_eq!(ex.oop_pos, "BB");
    assert_eq!(ex.ip_pos, "SB");
    // static realization: IP premium to the SB (seat 0), discount to the BB
    let nd = &s.nodes[term];
    assert!(
        nd.r[0].0 > 1.0 && nd.r[1].0 < 1.0,
        "IP premium must go to the SB/button, got r = {:?}",
        nd.r
    );
    assert!(
        nd.posf[0].0 > 0.0 && nd.posf[1].0 < 0.0,
        "SB acts last: posf = {:?}",
        nd.posf
    );
    // 3-handed keeps blinds-first order: SB, BB, then BTN
    let mut cfg3 = hu_limp_config();
    cfg3.positions = names(&["BTN", "SB", "BB"]);
    cfg3.posts = nums(&[0.0, 0.5, 1.0]);
    let s3 = build(cfg3, eq).unwrap();
    assert_eq!(s3.postflop_order(), vec![1, 2, 0]);
}

/// rake_cap = 0 means UNCAPPED — not "no rake".
#[test]
fn rake_cap_zero_is_uncapped() {
    let eq = table();
    let game = |rake: f64| {
        let mut cfg = hu_push_fold_config(20.0);
        cfg.open_raises = nums(&[2.5]);
        cfg.max_raises = 2;
        cfg.limp = true;
        cfg.rake_pct = F64(rake);
        cfg.rake_cap = F64(0.0);
        let mut s = build(cfg, eq.clone()).unwrap();
        for _ in 0..400 {
            s.iterate();
        }
        s.evs().iter().map(|x| x.0).sum::<f64>()
    };
    let raked_total = game(10.0);
    let free_total = game(0.0);
    assert!(free_total.abs() < 0.05, "no-rake game conserves chips, got {free_total}");
    assert!(
        raked_total < -0.05,
        "rake_pct=10 with cap 0 must charge rake (0 = uncapped), got {raked_total}"
    );
}

/// Impossible economics must be rejected at build with an error naming the
/// offending field.
#[test]
fn impossible_economics_are_rejected() {
    let eq = flat_table();
    let reject = |what: &str, needle: &str, mutate: &dyn Fn(&mut Config)| {
        let mut cfg = hu_limp_config();
        mutate(&mut cfg);
        match build(cfg, eq.clone()) {
            Ok(_) => panic!("{what}: config unexpectedly accepted"),
            Err(e) => assert!(
                e.message().contains(needle),
                "{what}: error should name {needle}: {}",
                e.message()
            ),
        }
    };
    reject("negative rake", "rake_pct", &|c| c.rake_pct = F64(-5.0));
    reject("rake at 100%", "rake_pct", &|c| c.rake_pct = F64(100.0));
    reject("NaN rake", "rake_pct", &|c| c.rake_pct = F64(f64::NAN));
    reject("negative rake cap", "rake_cap", &|c| c.rake_cap = F64(-1.0));
    reject("NaN stack", "stack", &|c| c.stack = F64(f64::NAN));
    reject("infinite stack", "stack", &|c| c.stack = F64(f64::INFINITY));
    reject("negative ante", "ante", &|c| c.ante = F64(-0.25));
    reject("NaN post", "posts", &|c| c.posts = nums(&[0.5, f64::NAN]));
    reject("negative post", "posts", &|c| c.posts = nums(&[-0.5, 1.0]));
    reject("negative open", "open_raises", &|c| c.open_raises = nums(&[-2.5]));
    reject("zero open", "open_raises", &|c| c.open_raises = nums(&[0.0]));
    reject("infinite open", "open_raises", &|c| c.open_raises = nums(&[2.5, f64::INFINITY]));
    reject("over-stack open", "open_raises", &|c| c.open_raises = nums(&[250.0]));
    reject("zero raise mult", "raise_mults", &|c| c.raise_mults = nums(&[0.0]));
    reject("NaN raise mult", "raise_mults", &|c| c.raise_mults = nums(&[f64::NAN]));
    reject("zero all-in threshold", "allin_threshold", &|c| c.allin_threshold = F64(0.0));
    reject("threshold above 1", "allin_threshold", &|c| c.allin_threshold = F64(1.5));
    reject("NaN threshold", "allin_threshold", &|c| c.allin_threshold = F64(f64::NAN));
}

/// Boundary values are all VALID (0% rake, uncapped, jam threshold 1.0) and
/// so are sub-minimum opens.
#[test]
fn boundary_and_study_configs_still_build() {
    let eq = flat_table();
    let mut cfg = hu_limp_config();
    cfg.rake_pct = F64(0.0);
    cfg.rake_cap = F64(0.0);
    cfg.allin_threshold = F64(1.0);
    assert!(build(cfg, eq.clone()).is_ok(), "boundary values are valid");

    let mut cfg = hu_limp_config();
    cfg.open_raises = nums(&[1.5]);
    let s = build(cfg, eq).ok().expect("sub-min opens are a valid study config");
    assert!(
        s.nodes[0]
            .actions
            .iter()
            .any(|a| a.kind == PKind::Raise && (a.to.0 - 1.5).abs() < 1e-9),
        "the 1.5bb open must be offered at the root"
    );
}

/// Opens at/below the biggest blind are never offered; with no limp and no
/// all-in that would build a fold-only root.
#[test]
fn all_dropped_opens_are_rejected() {
    let mut cfg = hu_limp_config();
    cfg.limp = false;
    cfg.open_raises = nums(&[1.0]); // == BB: never offered
    match build(cfg, flat_table()) {
        Ok(_) => panic!("fold-only config unexpectedly accepted"),
        Err(e) => {
            assert!(e.message().contains("opening"), "unexpected error: {}", e.message())
        }
    }
}

/// call_only_seats: the masked seat's nodes never offer a raise or jam, while
/// other seats' menus are untouched and the masked seat can still limp/call.
#[test]
fn call_only_seat_never_raises() {
    let eq = flat_table();
    let cfg = || PreflopConfig { call_only_seats: vec![0], ..three_handed_config() };
    let s = build(cfg(), eq.clone()).unwrap();
    let (mut masked_nodes, mut others_raise) = (0, 0);
    for nd in &s.nodes {
        if nd.kind != 0 {
            continue;
        }
        let has_raise =
            nd.actions.iter().any(|a| a.kind == PKind::Raise || a.kind == PKind::Jam);
        if nd.actor == 0 {
            masked_nodes += 1;
            assert!(
                !has_raise,
                "call-only seat offered a raise: {:?}",
                nd.actions.iter().map(|a| a.label.clone()).collect::<Vec<_>>()
            );
            assert!(
                nd.actions.iter().any(|a| a.kind == PKind::Call || a.kind == PKind::Check),
                "call-only seat should still be able to limp/call/check"
            );
        } else if has_raise {
            others_raise += 1;
        }
    }
    assert!(masked_nodes > 0, "masked seat never acted");
    assert!(others_raise > 0, "unmasked seats lost their raises");

    // out-of-range index is refused
    let bad = PreflopConfig { call_only_seats: vec![7], ..cfg() };
    let err = build(bad, eq).err().expect("bad index accepted");
    assert!(err.message().contains("call_only_seats"));
}

/// Per-seat size menus: the overridden seat sees its own sizes while every
/// other seat keeps the global menu.
#[test]
fn per_seat_size_menus() {
    let eq = flat_table();
    let cfg = || PreflopConfig {
        max_raises: 3,
        open_raises_by_seat: Some(vec![nums(&[2.5, 3.0, 5.0]), vec![], vec![]]),
        raise_mults_by_seat: Some(vec![nums(&[2.5, 4.0]), vec![], vec![]]),
        ..three_handed_config()
    };
    let s = build(cfg(), eq.clone()).unwrap();
    let mut seen_btn_opens: Vec<f64> = vec![];
    let mut seen_other_opens: Vec<f64> = vec![];
    for nd in &s.nodes {
        if nd.kind != 0 {
            continue;
        }
        for a in &nd.actions {
            if a.kind == PKind::Raise && a.label.starts_with("Raise") {
                if nd.actor == 0 {
                    seen_btn_opens.push(a.to.0);
                } else {
                    seen_other_opens.push(a.to.0);
                }
            }
        }
    }
    seen_btn_opens.sort_by(f64::total_cmp);
    seen_btn_opens.dedup();
    seen_other_opens.sort_by(f64::total_cmp);
    seen_other_opens.dedup();
    assert_eq!(seen_btn_opens, vec![2.5, 3.0, 5.0], "override seat menu");
    assert_eq!(seen_other_opens, vec![4.0], "global menu untouched");

    // wrong length rejected
    let bad = PreflopConfig { open_raises_by_seat: Some(vec![nums(&[2.5])]), ..cfg() };
    let err = build(bad, eq).err().expect("bad len accepted");
    assert!(err.message().contains("open_raises_by_seat"));
}

fn body_of(file: &[u8]) -> &[u8] {
    let at = find_header_end(&magic(), file).unwrap();
    &file[at + 1..]
}

/// Saved games restore the WHOLE session bit-for-bit: config, solver state,
/// seat models, and the solve can continue from where it stopped.
#[test]
fn saved_games_come_back() {
    let eq = flat_table();
    let mut s = build(hu_limp_config(), eq.clone()).unwrap();
    s.set_table(vec![false, false], vec![None, Some(always("whale", 1.0, 0.0))]).unwrap();
    for _ in 0..20 {
        s.iterate();
    }
    s.lock_point(&[], None).unwrap();
    s.set_hero(Some(0)).unwrap();
    for _ in 0..5 {
        s.iterate();
    }
    let file = s.save_game(b"{}");
    assert!(file.starts_with(b"GTOPREFLOP1\n{}\n"));
    let mut l = Game::load_game(s.game_header(), body_of(&file), eq, &limits()).ok().unwrap();
    assert_eq!(l.iteration, s.iteration);
    assert!(l.seat_profiles[1].is_some(), "seat model must ride along");
    assert_eq!((l.hero, &l.seat_frozen), (Some(0), &s.seat_frozen));
    assert_eq!(l.pre_hero_frozen, Some(vec![false, false]));
    assert_eq!(l.point_locks, s.point_locks);
    for node in 0..s.nodes.len() {
        if s.nodes[node].kind == KIND_ACTION {
            assert_eq!(l.average_strategy(node), s.average_strategy(node));
        }
    }
    // resuming the solve from the loaded state works and stays sane
    for _ in 0..5 {
        l.iterate();
        s.iterate();
    }
    assert_eq!((&l.regrets, &l.strat_sum), (&s.regrets, &s.strat_sum));
    assert!(l.br_gaps().iter().all(|g| g.0.is_finite()));
}

/// Saved games restore the whole session: the config, how far it is solved and
/// the seat models, and the solve goes on from where it stopped.
#[test]
fn game_save_load_roundtrip() {
    let eq = table();
    let mut s = build(hu_limp_config(), eq.clone()).unwrap();
    for _ in 0..120 {
        s.iterate();
    }
    s.set_table(vec![false, false], vec![None, Some(always("whale", 0.8, 0.1))]).unwrap();
    for _ in 0..30 {
        s.iterate();
    }
    let file = s.save_game(b"{}");
    let l = Game::load_game(s.game_header(), body_of(&file), eq, &limits()).ok().unwrap();
    assert_eq!(l.iteration, s.iteration);
    assert!(l.seat_profiles[1].is_some(), "seat model must ride along");
    let a = s.average_strategy(0);
    let b = l.average_strategy(0);
    for (x, y) in a.iter().zip(b.iter()) {
        assert!((x.0 - y.0).abs() < 1e-7, "root strategy must survive the roundtrip");
    }
    // resuming the solve from the loaded state works and stays sane
    let mut l = l;
    for _ in 0..20 {
        l.iterate();
    }
    assert!(l.br_gaps().iter().all(|g| g.0.is_finite()));
}

/// Load must refuse point locks that do not fit their nodes.
#[test]
fn load_rejects_malformed_point_locks() {
    let eq = flat_table();
    let s = build(hu_limp_config(), eq.clone()).unwrap();
    let file = s.save_game(b"{}");
    let load = |locks: Vec<(u32, Vec<F32>)>| {
        let mut h = s.game_header();
        h.point_locks = locks;
        Game::load_game(h, body_of(&file), eq.clone(), &limits())
    };
    let reject = |locks: Vec<(u32, Vec<F32>)>, needle: &str, what: &str| match load(locks) {
        Err(e) => {
            assert!(e.message().contains(needle), "{what}: unexpected error: {}", e.message())
        }
        Ok(_) => panic!("{what}: load must refuse the lock"),
    };
    reject(vec![(0, vec![F32(1.0)])], "expected", "short sigma");
    reject(vec![(999_999, vec![F32(1.0)])], "out of range", "oob node index");
    let na = s.nodes[0].actions.len();
    let mut sigma = vec![F32(0.5); na * NUM_CLASSES];
    sigma[0] = F32(-1.0);
    reject(vec![(0, sigma)], "finite", "negative frequency");
    // a lock on a terminal: 0 actions x 169 classes = 0 entries, so only
    // the node-kind check stands between an empty sigma and the consumers
    let term = s
        .nodes
        .iter()
        .position(|n| n.actions.is_empty())
        .expect("tree has terminals");
    reject(vec![(term as u32, vec![])], "not an action node", "terminal lock");

    // control: a WELL-FORMED lock still loads
    let uniform = vec![F32(1.0 / na as f32); na * NUM_CLASSES];
    let l = load(vec![(0, uniform.clone())]).ok().unwrap();
    assert_eq!(l.locked_points(), vec![(0, uniform)]);
}

/// Load must refuse hero state that does not fit the table: a saved hero
/// seat indexes per-seat arrays, and pre-hero frozen flags are installed
/// as-is.
#[test]
fn load_rejects_bad_hero_state() {
    let eq = flat_table();
    let s = build(hu_limp_config(), eq.clone()).unwrap();
    let file = s.save_game(b"{}");
    let mut h = s.game_header();
    h.hero = Some(7);
    match Game::load_game(h, body_of(&file), eq.clone(), &limits()) {
        Ok(_) => panic!("hero seat 7 of 2: load unexpectedly succeeded"),
        Err(e) => assert!(e.message().contains("hero"), "unexpected error: {}", e.message()),
    }
    let mut h = s.game_header();
    h.pre_hero_frozen = Some(vec![true]);
    match Game::load_game(h, body_of(&file), eq.clone(), &limits()) {
        Ok(_) => panic!("1 pre-hero flag for 2 seats: load unexpectedly succeeded"),
        Err(e) => {
            assert!(e.message().contains("pre-hero"), "unexpected error: {}", e.message())
        }
    }
    let mut h = s.game_header();
    h.hero = Some(0);
    assert!(matches!(
        Game::load_game(h, body_of(&file), eq, &limits()),
        Err(GameError::PreHero)
    ));
}

#[test]
fn load_rejects_other_seats_and_games() {
    let eq = flat_table();
    let s = build(hu_limp_config(), eq.clone()).unwrap();
    let file = s.save_game(b"{}");
    let load = |h: GameHeader<F32>, body: &[u8]| {
        Game::load_game(h, body, eq.clone(), &limits()).err().unwrap()
    };
    let body = body_of(&file);
    let mut seats = s.game_header();
    seats.seat_frozen = vec![true];
    let refused = load(seats, body);
    assert!(matches!(refused, GameError::SeatCount));
    assert_eq!(refused.message(), "save is inconsistent (seat count mismatch)");
    let mut odd = s.game_header();
    odd.seat_profiles[0] = Some(SeatProfile { buckets: vec![], ..always("odd", 1.0, 0.0) });
    assert!(matches!(load(odd, body), GameError::Profile));
    let mut other = s.game_header();
    other.config = hu_push_fold_config(10.0);
    assert!(matches!(load(other, body), GameError::File(SaveError::ArenaSize { .. })));
    let mut none = s.game_header();
    none.config.posts = vec![];
    assert!(matches!(load(none, body), GameError::Game(PreflopError::PostsAlign)));
    assert!(matches!(
        load(s.game_header(), &body[..body.len() - 4]),
        GameError::File(SaveError::Truncated)
    ));
}

// ---------------------------------------------------------------------------
// Player profiles: buckets, seat modes, behavioral anchors
// ---------------------------------------------------------------------------

fn flat_policy(call: f32, raise: f32) -> BucketPolicy<F32> {
    BucketPolicy {
        call: vec![F32(call); NUM_CLASSES],
        raise: vec![F32(raise); NUM_CLASSES],
        jam: vec![F32(0.0); NUM_CLASSES],
        raise_size: RaiseSize::Max,
    }
}

fn profile_with(bucket: u8, pol: BucketPolicy<F32>, name: &str) -> SeatProfile<F32> {
    let mut buckets: Vec<Option<BucketPolicy<F32>>> = vec![None; NUM_BUCKETS];
    buckets[bucket as usize] = Some(pol);
    SeatProfile { name: name.into(), buckets, postflop: None }
}

/// A player with the same policy in every situation.
fn always(name: &str, call: f32, raise: f32) -> SeatProfile<F32> {
    let buckets = vec![Some(flat_policy(call, raise)); NUM_BUCKETS];
    SeatProfile { name: name.into(), buckets, postflop: None }
}

fn agg_freq(s: &Game, node: usize, act_pred: impl Fn(PKind) -> bool) -> f64 {
    let sigma = s.average_strategy(node);
    let nd = &s.nodes[node];
    let (mut num, mut den) = (0f64, 0f64);
    for h in 0..NUM_CLASSES {
        let w = class_prob::<F32>(h).0 as f64;
        den += w;
        for (a, act) in nd.actions.iter().enumerate() {
            if act_pred(act.kind) {
                num += w * sigma[a * NUM_CLASSES + h].0 as f64;
            }
        }
    }
    num / den
}

fn moved(before: &[F32], after: &[F32]) -> f32 {
    before.iter().zip(after).map(|(a, b)| (a.0 - b.0).abs()).fold(0f32, f32::max)
}

/// Situation buckets tag the tree the way a player would describe spots.
#[test]
fn buckets_are_tagged_correctly() {
    let eq = flat_table();
    let s = build(hu_limp_config(), eq.clone()).unwrap();
    assert_eq!(s.nodes[0].bucket, BUCKET_UNOPENED);
    let limp = kind_at(&s, 0, PKind::Call);
    let open = kind_at(&s, 0, PKind::Raise);
    assert_eq!(s.nodes[s.child(0, limp)].bucket, BUCKET_VS_LIMPS);
    let vs_raise = s.child(0, open);
    assert_eq!(s.nodes[vs_raise].bucket, BUCKET_VS_RAISE);
    let threebet = kind_at(&s, vs_raise, PKind::Raise);
    let vs_3bet = s.child(vs_raise, threebet);
    assert_eq!(s.nodes[vs_3bet].bucket, BUCKET_VS_3BET);
    // ...and the SAME bucket at every deeper re-raise: fold-to-3bet+ covers
    // 4-bets, 5-bets, jams (at 25bb the 4-bet clips to a jam — still a raise)
    let fourbet = s.nodes[vs_3bet]
        .actions
        .iter()
        .position(|a| a.kind == PKind::Raise || a.kind == PKind::Jam)
        .unwrap();
    assert_eq!(s.nodes[s.child(vs_3bet, fourbet)].bucket, BUCKET_VS_3BET);

    // squeeze needs 3 players: BTN opens, SB calls, BB faces raise + caller
    let mut cfg3 = hu_limp_config();
    cfg3.positions = names(&["BTN", "SB", "BB"]);
    cfg3.posts = nums(&[0.0, 0.5, 1.0]);
    let s3 = build(cfg3, eq).unwrap();
    let open3 = kind_at(&s3, 0, PKind::Raise);
    let n1 = s3.child(0, open3); // SB facing the raise
    assert_eq!(s3.nodes[n1].bucket, BUCKET_VS_RAISE);
    let call3 = kind_at(&s3, n1, PKind::Call);
    let n2 = s3.child(n1, call3); // BB facing raise + cold caller
    assert_eq!(s3.nodes[n2].bucket, BUCKET_SQUEEZE);
}

/// Anchor: against a BB who NEVER 3-bets, the SB attacks more (raise+limp
/// pressure up, and specifically the raise frequency should not shrink).
#[test]
fn never_threebettor_gets_attacked_wider() {
    let eq = table();
    let mut base = build(hu_limp_config(), eq.clone()).unwrap();
    for _ in 0..400 {
        base.iterate();
    }
    let aggressive = |k| k == PKind::Raise || k == PKind::Jam;
    let base_raise = agg_freq(&base, 0, aggressive);

    let mut s = build(hu_limp_config(), eq).unwrap();
    let pol = flat_policy(0.5, 0.0); // calls half of everything, raises nothing
    s.set_table(
        vec![false, false],
        vec![None, Some(profile_with(BUCKET_VS_RAISE, pol, "never-3bets"))],
    )
    .unwrap();
    for _ in 0..400 {
        s.iterate();
    }
    let vs_nit_raise = agg_freq(&s, 0, aggressive);
    assert!(
        vs_nit_raise > base_raise + 0.02,
        "SB should open wider vs a never-3-bettor: {base_raise:.3} -> {vs_nit_raise:.3}"
    );
}

/// Anchor: an OMC who only raises AA/KK (max size) gets respect — the BB
/// mostly folds QQ to the raise and never folds AA.
#[test]
fn omc_raises_get_respect() {
    let eq = table();
    let mut s = build(hu_limp_config(), eq).unwrap();
    let aa = class_index(12, 12, false);
    let kk = class_index(11, 11, false);
    let qq = class_index(10, 10, false);
    let mut pol = flat_policy(0.0, 0.0);
    pol.raise[aa] = F32(1.0);
    pol.raise[kk] = F32(1.0);
    // limps all pairs below KK and strong suited stuff; folds the rest
    for h in 0..NUM_CLASSES {
        if h != aa && h != kk {
            let (hi, lo, suited) = class_parts(h);
            if hi == lo || (suited && hi >= 8) {
                pol.call[h] = F32(1.0);
            }
        }
    }
    s.set_table(
        vec![false, false],
        vec![Some(profile_with(BUCKET_UNOPENED, pol, "OMC")), None],
    )
    .unwrap();
    for _ in 0..500 {
        s.iterate();
    }
    // SB's aggregate open-raise frequency == AA+KK share of the deck
    let raise_freq = agg_freq(&s, 0, |k| k == PKind::Raise);
    assert!(
        (raise_freq - 12.0 / 1326.0).abs() < 0.004,
        "OMC raise freq should be ~0.9%, got {raise_freq:.4}"
    );
    // BB facing the max-size raise: QQ mostly folds, AA never does
    let nd0 = &s.nodes[0];
    let raises: Vec<(f64, usize)> = nd0
        .actions
        .iter()
        .enumerate()
        .filter(|(_, a)| a.kind == PKind::Raise)
        .map(|(i, a)| (a.to.0, i))
        .collect();
    let max_raise = raises
        .iter()
        .max_by(|a, b| a.0.partial_cmp(&b.0).unwrap())
        .unwrap()
        .1;
    let bb_node = s.child(0, max_raise);
    let bb = s.average_strategy(bb_node);
    let fold_a = kind_at(&s, bb_node, PKind::Fold);
    assert!(
        bb[fold_a * NUM_CLASSES + qq].0 > 0.5,
        "QQ should mostly fold to the OMC raise, folds {:.3}",
        bb[fold_a * NUM_CLASSES + qq].0
    );
    assert!(
        bb[fold_a * NUM_CLASSES + aa].0 < 0.05,
        "AA should never fold to the OMC raise"
    );
}

/// Anchor: a whale who never folds bleeds, and exploiting him raises the
/// other seat's EV vs baseline.
#[test]
fn whale_bleeds_and_gets_exploited() {
    let eq = table();
    let mut base = build(hu_limp_config(), eq.clone()).unwrap();
    for _ in 0..400 {
        base.iterate();
    }
    let base_ev_sb = base.evs()[0].0;

    let mut s = build(hu_limp_config(), eq).unwrap();
    // never folds, never raises
    s.set_table(vec![false, false], vec![None, Some(always("whale", 1.0, 0.0))]).unwrap();
    for _ in 0..400 {
        s.iterate();
    }
    let ev_sb = s.evs()[0].0;
    assert!(
        ev_sb > base_ev_sb + 0.15,
        "SB should exploit the whale: EV {base_ev_sb:.3} -> {ev_sb:.3}"
    );
    let bleed = s.br_gaps()[1].0;
    assert!(bleed > 0.3, "the whale should bleed plainly, got {bleed:.3} bb");
}

/// Frozen seats keep their exact average strategy while others keep moving.
#[test]
fn frozen_seat_stops_adapting() {
    let eq = table();
    let mut s = build(hu_limp_config(), eq).unwrap();
    for _ in 0..200 {
        s.iterate();
    }
    let open = kind_at(&s, 0, PKind::Raise);
    let bb_node = s.child(0, open);
    let before = s.average_strategy(bb_node);
    let sb_before = s.average_strategy(0);
    s.set_table(vec![false, true], vec![None, None]).unwrap();
    for _ in 0..200 {
        s.iterate();
    }
    let bb_moved = moved(&before, &s.average_strategy(bb_node));
    let sb_moved = moved(&sb_before, &s.average_strategy(0));
    assert!(bb_moved < 1e-4, "frozen BB moved: {bb_moved}");
    assert!(sb_moved > 1e-3, "live SB should keep adapting, moved {sb_moved}");
}

/// Point locks pin a single node and unlock cleanly.
#[test]
fn point_lock_roundtrip() {
    let eq = table();
    let mut s = build(hu_limp_config(), eq).unwrap();
    for _ in 0..100 {
        s.iterate();
    }
    let before = s.average_strategy(0);
    let pol = flat_policy(0.0, 1.0); // raise everything
    s.lock_point(&[], Some(pol)).unwrap();
    let locked = s.average_strategy(0);
    let raise_mass: f32 = s.nodes[0]
        .actions
        .iter()
        .enumerate()
        .filter(|(_, a)| a.kind == PKind::Raise)
        .map(|(a, _)| locked[a * NUM_CLASSES].0)
        .sum();
    assert!(raise_mass > 0.99, "point lock should force raising, got {raise_mass}");
    assert!(s.has_overrides());
    assert!(s.unlock_point(&[]).unwrap());
    let diff = moved(&before, &s.average_strategy(0));
    assert!(diff < 1e-6, "unlock should restore the solver strategy");
    assert!(!s.unlock_point(&[]).unwrap());
    assert!(!s.has_overrides());
}

/// A frozen seat's pinned average must survive any number of solve cycles:
/// the DCFR strategy-sum discount may not touch frozen blocks, or the pins
/// decay below the uniform-fallback floor after a couple of hero switches.
#[test]
fn frozen_average_survives_hero_cycles() {
    let eq = table();
    let mut cfg = hu_push_fold_config(10.0);
    cfg.positions = names(&["BTN", "SB", "BB"]);
    cfg.posts = nums(&[0.0, 0.5, 1.0]);
    let mut s = build(cfg, eq).unwrap();
    for _ in 0..300 {
        s.iterate();
    }
    let node = (0..s.nodes.len())
        .find(|&i| s.nodes[i].kind == 0 && s.nodes[i].actor == 2)
        .unwrap();
    let pinned = s.average_strategy(node);
    // two hero cycles; seat 2 stays frozen through both, and each cycle
    // restarts iteration at 0 where the discount decays hardest
    s.set_hero(Some(0)).unwrap();
    for _ in 0..1500 {
        s.iterate();
    }
    s.set_hero(Some(1)).unwrap();
    for _ in 0..1500 {
        s.iterate();
    }
    let after = s.average_strategy(node);
    let moved = moved(&pinned, &after);
    assert!(moved < 1e-4, "frozen seat's pinned average moved by {moved} across hero cycles");
    let na = s.nodes[node].actions.len();
    let uni = 1.0 / na as f32;
    let max_dev = after.iter().map(|x| (x.0 - uni).abs()).fold(0f32, f32::max);
    assert!(max_dev > 0.3, "frozen average flipped to ~uniform (max dev {max_dev})");
}

/// Leaving hero mode restores the frozen flags the table had before it —
/// explicitly pinned seats must stay pinned.
#[test]
fn hero_off_restores_explicit_frozen_seats() {
    let eq = table();
    let mut s = build(hu_limp_config(), eq).unwrap();
    for _ in 0..200 {
        s.iterate();
    }
    s.set_table(vec![false, true], vec![None, None]).unwrap();
    s.set_hero(Some(0)).unwrap();
    for _ in 0..100 {
        s.iterate();
    }
    s.set_hero(None).unwrap();
    assert_eq!(
        s.seat_frozen,
        vec![false, true],
        "hero off must restore the explicitly frozen seat"
    );
}

/// An explicitly frozen seat must be REFUSED as hero: hero entry zeroes the
/// hero's strategy sums and hero exit restores the pre-hero frozen flags, so
/// the seat would be frozen again over nothing.
#[test]
fn frozen_seat_refused_as_hero() {
    let eq = table();
    let mut s = build(hu_push_fold_config(10.0), eq).unwrap();
    for _ in 0..300 {
        s.iterate();
    }
    // pin BB (seat 1) "as solved", then solve on so learning state is live
    s.set_table(vec![false, true], vec![None, None]).unwrap();
    for _ in 0..50 {
        s.iterate();
    }
    let node = (0..s.nodes.len())
        .find(|&i| s.nodes[i].kind == 0 && s.nodes[i].actor == 1)
        .unwrap();
    let pinned = s.average_strategy(node);
    let iter_before = s.iteration;
    let err = s.set_hero(Some(1)).unwrap_err().message();
    assert!(err.contains("frozen"), "refusal must name the freeze, got: {err}");
    // ...and refused BEFORE any state is touched: no hero, flags intact,
    // learning not reset
    assert_eq!(s.seat_frozen, vec![false, true]);
    assert_eq!(s.iteration, iter_before, "refusal must not reset learning");
    s.set_hero(None).unwrap();
    assert_eq!(s.seat_frozen, vec![false, true]);
    // the pinned average survives further solving
    for _ in 0..300 {
        s.iterate();
    }
    let after = s.average_strategy(node);
    let moved = moved(&pinned, &after);
    assert!(moved < 1e-4, "pinned average moved by {moved}");
    let na = s.nodes[node].actions.len();
    let uni = 1.0 / na as f32;
    let max_dev = after.iter().map(|x| (x.0 - uni).abs()).fold(0f32, f32::max);
    assert!(
        max_dev > 0.3,
        "frozen seat plays ~uniform (max dev {max_dev}) — its pinned average was wiped"
    );
    // the live seat is still a legal hero; while hero mode is active every
    // villain is hero-frozen, so the guard must consult the TABLE's flags:
    // switching hero onto the pinned seat is still refused, switching back
    // off still restores the pin
    s.set_hero(Some(0)).unwrap();
    let err = s.set_hero(Some(1)).unwrap_err().message();
    assert!(err.contains("frozen"), "hero switch onto the pinned seat, got: {err}");
    assert_eq!(s.hero, Some(0), "failed switch must leave hero mode as it was");
    s.set_hero(None).unwrap();
    assert_eq!(s.seat_frozen, vec![false, true]);
}

/// The one exemption from the frozen-hero refusal: a FULLY ruled seat. Its
/// profile forces every node, so its strategy sums never matter.
#[test]
fn fully_ruled_frozen_seat_allowed_as_hero() {
    let eq = table();
    let mut s = build(hu_limp_config(), eq).unwrap();
    for _ in 0..200 {
        s.iterate();
    }
    // never folds, never raises
    s.set_table(vec![true, false], vec![Some(always("station", 1.0, 0.0)), None]).unwrap();
    for _ in 0..50 {
        s.iterate();
    }
    s.set_hero(Some(0)).unwrap();
    for _ in 0..50 {
        s.iterate();
    }
    s.set_hero(None).unwrap();
    assert_eq!(s.seat_frozen, vec![true, false]);
    // the profile rules the seat again — no uniform fallback possible
    let sigma = s.average_strategy(0);
    let pass = s.nodes[0]
        .actions
        .iter()
        .position(|a| a.kind == PKind::Check || a.kind == PKind::Call)
        .unwrap();
    let aa = class_index(12, 12, false);
    assert!(
        (sigma[pass * NUM_CLASSES + aa].0 - 1.0).abs() < 1e-6,
        "profile must rule the restored frozen seat"
    );
}

/// Hero mode on a fully-ruled seat computes that seat's FREE max exploit:
/// the hero is exempt from its own profile, and the profile snaps back when
/// hero mode ends.
#[test]
fn hero_on_ruled_seat_learns_free_exploit() {
    let eq = table();
    let mut s = build(hu_limp_config(), eq).unwrap();
    for _ in 0..200 {
        s.iterate();
    }
    // never folds, never raises
    s.set_table(vec![false, false], vec![Some(always("whale", 1.0, 0.0)), None]).unwrap();
    for _ in 0..200 {
        s.iterate();
    }
    let ruled = s.average_strategy(0);
    s.set_hero(Some(0)).unwrap();
    assert_eq!(s.iteration, 0, "hero entry resets the exploit solve");
    for _ in 0..200 {
        s.iterate();
    }
    let exploit = s.average_strategy(0);
    let diff = moved(&ruled, &exploit);
    assert!(diff > 0.2, "hero must escape its own profile, max diff {diff}");
    let aa = class_index(12, 12, false);
    let aggression = |s: &Game, sigma: &[F32]| -> f32 {
        s.nodes[0]
            .actions
            .iter()
            .enumerate()
            .filter(|(_, a)| a.kind == PKind::Raise || a.kind == PKind::Jam)
            .map(|(a, _)| sigma[a * NUM_CLASSES + aa].0)
            .sum()
    };
    let aggr_aa = aggression(&s, &exploit);
    assert!(aggr_aa > 0.5, "the exploit raises AA, got {aggr_aa}");
    // hero off: the profile rules the seat again
    s.set_hero(None).unwrap();
    let aggr_back = aggression(&s, &s.average_strategy(0));
    assert!(aggr_back < 0.01, "profile must rule again after hero off");
}

/// What was learnt against other players is dropped when a profile comes or
/// goes; what frozen seats are held to stays.
#[test]
fn reads_start_the_solve_anew() {
    let mut s = build(hu_limp_config(), flat_table()).unwrap();
    for _ in 0..10 {
        s.iterate();
    }
    let bb_node = s.child(0, kind_at(&s, 0, PKind::Call));
    let bb = s.average_strategy(bb_node);
    s.set_table(vec![false, true], vec![None, None]).unwrap();
    assert_eq!(s.iteration, 10, "freezing alone drops nothing");
    let nit = profile_with(BUCKET_VS_3BET, flat_policy(0.1, 0.0), "nit");
    s.set_table(vec![false, true], vec![Some(nit), None]).unwrap();
    assert_eq!(s.iteration, 0);
    assert_eq!(s.average_strategy(bb_node), bb);
    let even = 1.0 / s.nodes[0].actions.len() as f32;
    assert!(s.average_strategy(0).iter().all(|x| x.0 == even));
    // the big blind is still held to its solve: the same table and a hero are fine
    s.set_hero(Some(0)).unwrap();
    assert_eq!(s.pre_hero_frozen, Some(vec![false, true]));
}

/// Locking a node "as currently solved" before any solve would pin it to a
/// uniform random sigma — it must be rejected like set_table/set_hero are.
#[test]
fn lock_point_before_solve_is_rejected() {
    let eq = flat_table();
    let mut s = build(hu_limp_config(), eq).unwrap();
    assert!(s.lock_point(&[], None).is_err(), "as-solved lock needs a solve first");
    assert!(!s.has_overrides());
    // an explicit policy is fine at iteration 0
    s.lock_point(&[], Some(flat_policy(1.0, 0.0))).unwrap();
    assert!(s.has_overrides());
}

#[test]
fn seats_are_refused_for_a_reason() {
    let mut s = build(hu_limp_config(), flat_table()).unwrap();
    let none = || vec![None, None];
    assert_eq!(s.set_table(vec![false], none()), Err(SeatError::SeatCount));
    let odd = SeatProfile { buckets: vec![], ..always("odd", 1.0, 0.0) };
    assert_eq!(s.set_table(vec![false; 2], vec![Some(odd), None]), Err(SeatError::Profile));
    assert_eq!(s.set_table(vec![true, false], none()), Err(SeatError::Unsolved));
    assert_eq!(s.set_hero(Some(0)), Err(SeatError::Unsolved));
    assert_eq!(s.set_hero(Some(2)), Err(SeatError::Seat));
    assert_eq!(SeatError::Seat.message(), "there is no such hero seat");
    // a seat with a policy for everything may be frozen unsolved
    let ruled = vec![Some(always("station", 1.0, 0.0)), None];
    assert_eq!(s.set_table(vec![true, false], ruled), Ok(()));
    assert_eq!(s.set_hero(Some(1)), Ok(()));
    assert_eq!(s.seat_frozen, vec![true, false]);

    let short = BucketPolicy { call: vec![], ..flat_policy(1.0, 0.0) };
    assert_eq!(s.lock_point(&[], Some(short)), Err(PinError::Policy));
    assert_eq!(s.lock_point(&[99], None), Err(PinError::Path));
    assert_eq!(s.lock_point(&[0], None), Err(PinError::NotADecision));
    assert_eq!(s.lock_point(&[], None), Err(PinError::Unsolved));
    assert_eq!(PinError::Unsolved.message(), "solve first: there is no solved strategy to lock");
    assert!(matches!(s.unlock_point(&[99]), Err(PreflopQueryError::BadPath)));
}

/// What a policy comes to: calls check where nothing is owed, raises take
/// the size asked for, and what is left folds.
#[test]
fn policies_become_strategies() {
    let s = build(hu_limp_config(), flat_table()).unwrap();
    let at = |policy: &BucketPolicy<F32>, node: usize| -> Vec<f32> {
        let sigma = policy.strategy(&s.nodes[node].actions);
        sigma.iter().step_by(NUM_CLASSES).map(|x| x.0).collect()
    };
    // Fold, Limp 1, Raise 2.5, Raise 5
    let mut policy = flat_policy(0.5, 0.25);
    assert_eq!(at(&policy, 0), vec![0.25, 0.5, 0.0, 0.25]);
    policy.raise_size = RaiseSize::Min;
    assert_eq!(at(&policy, 0), vec![0.25, 0.5, 0.25, 0.0]);
    // with no jam on offer, jams and jam-sized raises take the largest raise
    policy.raise_size = RaiseSize::Jam;
    policy.jam = vec![F32(0.25); NUM_CLASSES];
    assert_eq!(at(&policy, 0), vec![0.0, 0.5, 0.0, 0.5]);
    // behind a limp the big blind checks what it does not raise
    let limped = s.child(0, 1);
    assert_eq!(s.nodes[limped].actions[0].kind, PKind::Check);
    assert_eq!(at(&flat_policy(0.25, 0.5), limped)[0], 0.5);
    // facing a jam there is nothing left but to call
    let jammed = s.child(s.child(s.child(0, 2), 2), 2);
    assert_eq!(at(&flat_policy(0.0, 1.0), jammed), vec![0.0, 1.0]);
}

/// What a line of play shows.
#[test]
fn node_views_follow_the_line() {
    let s = build(hu_limp_config(), flat_table()).unwrap();
    let limp = kind_at(&s, 0, PKind::Call);
    let v = s.node_view(&[limp]).ok().unwrap();
    assert_eq!(v.kind, "action");
    assert_eq!(v.actor, Some(1));
    assert_eq!(v.actor_pos.as_deref(), Some("BB"));
    assert_eq!(v.pot, F64(2.0));
    assert_eq!(v.live, vec![true, true]);
    assert!(!v.exportable);
    assert_eq!(v.history.len(), 2);
    assert_eq!(v.history[0].chosen, Some(limp));
    assert_eq!(v.history[1].chosen, None);
    // nothing is solved yet: every action is as likely as the others
    let even = 1.0 / v.actions.len() as f32;
    for a in &v.actions {
        assert!((a.freq.0 - even).abs() < 1e-5);
    }
    assert!(v.reach.unwrap().iter().all(|r| (r.0 - 1.0 / 4.0).abs() < 1.0));

    let bb_node = s.child(0, limp);
    let check = kind_at(&s, bb_node, PKind::Check);
    let flop = s.node_view(&[limp, check]).ok().unwrap();
    assert_eq!(flop.kind, "pot_share");
    assert!(flop.exportable);
    assert_eq!(flop.spr, Some(F64(12.0)));
    let ex = s.export_spot(&[limp, check]).ok().unwrap();
    assert_eq!(ex.pot_bb, F64(2.0));
    assert_eq!(ex.eff_stack_bb, F64(24.0));
    assert!(ex.range_ip.starts_with("22:0.250"), "{}", ex.range_ip);

    assert!(matches!(s.node_view(&[99]), Err(PreflopQueryError::BadPath)));
    assert!(matches!(s.export_spot(&[limp]), Err(PreflopQueryError::NotHeadsUp)));
    let fold = kind_at(&s, 0, PKind::Fold);
    let won = s.node_view(&[fold]).ok().unwrap();
    assert_eq!(won.kind, "fold_win");
    assert_eq!(won.live, vec![false, true]);
}

/// Betting goes round until every live seat has met the bet.
#[test]
fn betting_follows_the_rules() {
    let s = build(hu_limp_config(), flat_table()).unwrap();
    let labels = |node: usize| -> Vec<String> {
        s.nodes[node].actions.iter().map(|a| a.label.clone()).collect()
    };
    assert_eq!(labels(0), vec!["Fold", "Limp 1", "Raise 2.5", "Raise 5"]);
    let bb = s.child(0, 2);
    assert_eq!(s.nodes[bb].actor, 1);
    assert_eq!(labels(bb), vec!["Fold", "Call 2.5", "3-bet 7.5"]);
    let sb = s.child(bb, 2);
    assert_eq!(s.nodes[sb].actor, 0);
    assert_eq!(labels(sb), vec!["Fold", "Call 7.5", "All-in 25"]);
    let facing = s.child(sb, 2);
    assert_eq!(labels(facing), vec!["Fold", "Call 25"]);
    let called = s.child(facing, 1);
    assert_eq!(s.nodes[called].kind, KIND_POT_SHARE);
    assert_eq!(s.nodes[called].pot, F64(50.0));
    assert_eq!(s.nodes[called].r, vec![F32(1.0), F32(1.0)], "all-in: equity counts in full");
    let folded = s.child(facing, 0);
    assert_eq!(s.nodes[folded].kind, KIND_FOLD_WIN);
    assert_eq!(s.nodes[folded].winner, 0);
}

/// Trees past their limits are refused before they are built.
#[test]
fn oversized_trees_are_refused() {
    let few = TreeLimits { nodes: 10, arena_mb: F64(2000.0) };
    assert!(matches!(
        Game::new(six_max_config(), flat_table(), &few),
        Err(PreflopError::TooLarge)
    ));
    let small = TreeLimits { nodes: 2_000_000, arena_mb: F64(0.001) };
    assert!(matches!(
        Game::new(hu_limp_config(), flat_table(), &small),
        Err(PreflopError::TooLarge)
    ));
    let est = estimate_tree(&six_max_config(), 10).unwrap();
    let text = size_refusal(&est, &few).unwrap();
    assert!(text.starts_with("preflop tree too large: ~"), "{text}");
    assert!(text.contains("(limits 10 nodes, 2000 MB; env PREFLOP_MAX_NODES"), "{text}");
    assert_eq!(size_refusal(&estimate_tree(&hu_limp_config(), 10_000).unwrap(), &limits()), None);
    let fits = |limits: &TreeLimits<F64>| estimate_fits(&est, limits);
    assert!(!fits(&few) && fits(&limits()));
}

#[test]
fn preflop_games_have_defaults() {
    assert_eq!(default_max_raises(), 4);
    assert_eq!(default_allin_threshold::<F64>(), F64(0.85));
    assert!(default_true());
    assert_eq!(default_realization(), "static");
}
