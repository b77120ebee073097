//! Saves: what is written is read back, and what is damaged is refused.

use solver::cfr::Solver;
use solver::framing::{find_header_end, SaveError};
use solver::game::{Spot, SpotConfig};
use solver::locks::LockMode;
use solver::num::{Num, Single};
use solver::save::{magic, validate_locks, LoadError};
use solver::sizing::parse_sizes;
use solver::store::Storage;
use solver::tree::{BetSize, StreetSizing, TreeConfig, KIND_ACTION};
use solver::vetting::{peek_save, vet_sections};

#[derive(Clone, Copy, Debug, PartialEq, PartialOrd)]
struct F64(f64);

impl Num for F64 {
    fn plus(self, rhs: Self) -> Self {
        F64(self.0 + rhs.0)
    }
    fn minus(self, rhs: Self) -> Self {
        F64(self.0 - rhs.0)
    }
    fn times(self, rhs: Self) -> Self {
        F64(self.0 * rhs.0)
    }
    fn over(self, rhs: Self) -> Self {
        F64(self.0 / rhs.0)
    }
    fn negated(self) -> Self {
        F64(-self.0)
    }
    fn below(self, rhs: Self) -> bool {
        self.0 < rhs.0
    }
    fn at_most(self, rhs: Self) -> bool {
        self.0 <= rhs.0
    }
    fn finite(self) -> bool {
        self.0.is_finite()
    }
    fn decimal(units: i64, places: u8) -> Self {
        if places == 0 {
            return F64(units as f64);
        }
        F64(units as f64 / 10f64.powi(places as i32))
    }
    fn rounded(self) -> Self {
        F64(self.0.round())
    }
    fn root(self) -> Self {
        F64(self.0.sqrt())
    }
    fn floored(self) -> i128 {
        self.0.floor() as i128
    }
    fn nearest(self) -> i64 {
        self.0.round_ties_even() as i64
    }
    fn parse(text: &str) -> Option<Self> {
        text.parse().ok().map(F64)
    }
    fn shown(self) -> String {
        format!("{}", self.0)
    }
    fn fixed(self, places: u8) -> String {
        format!("{:.*}", places as usize, self.0)
    }
}

#[derive(Clone, Copy, Debug, PartialEq, PartialOrd)]
struct F32(f32);

impl Num for F32 {
    fn plus(self, rhs: Self) -> Self {
        F32(self.0 + rhs.0)
    }
    fn minus(self, rhs: Self) -> Self {
        F32(self.0 - rhs.0)
    }
    fn times(self, rhs: Self) -> Self {
        F32(self.0 * rhs.0)
    }
    fn over(self, rhs: Self) -> Self {
        F32(self.0 / rhs.0)
    }
    fn negated(self) -> Self {
        F32(-self.0)
    }
    fn below(self, rhs: Self) -> bool {
        self.0 < rhs.0
    }
    fn at_most(self, rhs: Self) -> bool {
        self.0 <= rhs.0
    }
    fn finite(self) -> bool {
        self.0.is_finite()
    }
    fn decimal(units: i64, places: u8) -> Self {
        if places == 0 {
            return F32(units as f32);
        }
        F32((units as f64 / 10f64.powi(places as i32)) as f32)
    }
    fn rounded(self) -> Self {
        F32(self.0.round())
    }
    fn root(self) -> Self {
        F32(self.0.sqrt())
    }
    fn floored(self) -> i128 {
        self.0.floor() as i128
    }
    fn nearest(self) -> i64 {
        self.0.round_ties_even() as i64
    }
    fn parse(text: &str) -> Option<Self> {
        text.parse().ok().map(F32)
    }
    fn shown(self) -> String {
        format!("{}", self.0)
    }
    fn fixed(self, places: u8) -> String {
        format!("{:.*}", places as usize, self.0)
    }
}

impl Single for F32 {
    type Wide = F64;

    fn widened(self) -> F64 {
        F64(self.0 as f64)
    }
    fn narrowed(wide: F64) -> Self {
        F32(wide.0 as f32)
    }
    fn word(self) -> u32 {
        self.0.to_bits()
    }
    fn of_word(word: u32) -> Self {
        F32(f32::from_bits(word))
    }
}

type Config = SpotConfig<F64>;

fn sizes(s: &str) -> Vec<BetSize<F64>> {
    parse_sizes(s).unwrap()
}

fn sizing(bet: &str, raise: &str) -> StreetSizing<F64> {
    StreetSizing { bet: sizes(bet), raise: sizes(raise), donk: vec![] }
}

fn spot_of(config: Config) -> Spot<F64, F32> {
    Spot::new(config).unwrap()
}

/// Tiny river-only clairvoyance spot: cheap to build and solve.
fn tiny_config() -> Config {
    SpotConfig {
        board: "QcJc9c3d2d".to_string(),
        range_oop: "AcKc,8h7h".to_string(),
        range_ip: "QdQh".to_string(),
        tree: TreeConfig {
            starting_pot: F64(100.0),
            effective_stack: F64(100.0),
            oop: [sizing("", ""), sizing("", ""), sizing("100", "")],
            ip: [sizing("", ""), sizing("", ""), sizing("", "")],
            ..Default::default()
        },
    }
}

fn small_flop_config() -> Config {
    SpotConfig {
        board: "Th9h2c".to_string(),
        range_oop: "QQ,JJ,TT,99,AhKh,AsKs,87s".to_string(),
        range_ip: "AA,KK,AQs,JTs,T9s".to_string(),
        tree: TreeConfig {
            starting_pot: F64(60.0),
            effective_stack: F64(200.0),
            oop: [sizing("50", "60"), sizing("50", ""), sizing("50", "")],
            ip: [sizing("50", "60"), sizing("50", ""), sizing("50", "")],
            ..Default::default()
        },
    }
}

/// The bytes behind the header line of a save.
fn body_of(file: &[u8]) -> &[u8] {
    let at = find_header_end(&magic(), file).unwrap();
    &file[at + 1..]
}

fn solved_tiny() -> Solver<F32> {
    let mut solver = Solver::new(spot_of(tiny_config()));
    for _ in 0..50 {
        solver.iterate();
    }
    solver
}

/// Loads a save whose header has had its locks replaced; returns the error.
fn load_err(solver: &Solver<F32>, locks: Vec<(u32, Vec<F32>)>, what: &str) -> String {
    let file = solver.save(b"{}");
    let mut header = solver.save_header();
    header.locks = locks;
    match Solver::load(header, body_of(&file)) {
        Ok(_) => panic!("{what}: load unexpectedly succeeded"),
        Err(e) => e.message(),
    }
}

/// Save/load roundtrip is exact for the compressed solver, in both directions
/// (compressed -> compressed and compressed -> f32: the file holds full
/// precision).
#[test]
fn save_load_roundtrip_compressed() {
    let mut solver = Solver::with_storage(spot_of(small_flop_config()), Storage::Compressed);
    for _ in 0..4 {
        solver.iterate();
    }
    let e_before = solver.exploitability().0;
    let file = solver.save(b"{}");

    let loaded: Solver<F32> = Solver::load_with_storage(
        solver.save_header(),
        body_of(&file),
        Storage::Compressed,
    )
    .ok()
    .unwrap();
    assert_eq!(loaded.iteration, solver.iteration);
    let e_comp = loaded.exploitability().0;
    assert!(
        (e_before - e_comp).abs() < 1e-9,
        "compressed roundtrip changed exploitability: {e_before} vs {e_comp}"
    );

    // Loading into f32 normalizes strategies from the decoded floats rather
    // than the raw quants, so summation order differs at f32 epsilon level.
    let loaded_f32: Solver<F32> =
        Solver::load_with_storage(solver.save_header(), body_of(&file), Storage::F32)
            .ok()
            .unwrap();
    let e_f32 = loaded_f32.exploitability().0;
    assert!(
        (e_before - e_f32).abs() < 1e-4,
        "compressed->f32 load changed exploitability: {e_before} vs {e_f32}"
    );
}

/// Save/load roundtrip preserves the solution.
#[test]
fn save_load_roundtrip() {
    let mut solver = Solver::new(spot_of(tiny_config()));
    for _ in 0..200 {
        solver.iterate();
    }
    let e_before = solver.exploitability().0;
    let file = solver.save(b"{\"iteration\":200}");
    let loaded: Solver<F32> = Solver::load(solver.save_header(), body_of(&file)).ok().unwrap();
    let e_after = loaded.exploitability().0;
    assert_eq!(loaded.iteration, solver.iteration);
    assert!(
        (e_before - e_after).abs() < 1e-9,
        "exploitability changed after roundtrip: {e_before} vs {e_after}"
    );
}

/// A save whose stored configuration still holds a raise-only token in a bet
/// list: the arenas were sized against the tree without that size. Loading
/// rebuilds that tree leniently, while a strict build keeps refusing the
/// configuration.
#[test]
fn pre_fix_save_with_raise_multiple_in_bet_list_still_loads() {
    let config = SpotConfig {
        range_oop: "QQ,JJ,TT,99".to_string(),
        range_ip: "AA,KK".to_string(),
        ..small_flop_config()
    };
    let mut solver = Solver::new(spot_of(config));
    for _ in 0..10 {
        solver.iterate();
    }
    let e_before = solver.exploitability().0;
    let file = solver.save(b"{}");

    // the stored bet list still CONTAINS the 2.5x token ahead of the 50
    let mut header = solver.save_header();
    header.config.tree.oop[0].bet.insert(0, BetSize::PrevMult(F64(2.5)));
    let stored = header.config.clone();

    let err = Spot::<F64, F32>::new(stored.clone())
        .err()
        .expect("strict build must reject the stored config")
        .message();
    assert!(err.contains("2.5x"), "strict rejection should name the token: {err}");

    let loaded: Solver<F32> =
        Solver::load(header, body_of(&file)).ok().expect("the save must keep loading");
    assert_eq!(loaded.iteration, solver.iteration);
    let e_after = loaded.exploitability().0;
    assert!(
        (e_before - e_after).abs() < 1e-9,
        "loaded solve differs: {e_before} vs {e_after}"
    );

    // the capped lenient constructor must agree with the load on the layout
    let vetted: Spot<F64, F32> = Spot::new_lenient_with_limit(stored, Some(10_000_000))
        .expect("lenient vetting rebuild must succeed");
    assert_eq!(vetted.tree.data_size, loaded.spot.tree.data_size);
    assert_eq!(vetted.tree.nodes.len(), loaded.spot.tree.nodes.len());
}

/// Well-formed locks round-trip, and the loaded solver serves queries.
#[test]
fn lock_survives_save_load_roundtrip() {
    let mut solver = solved_tiny();
    solver.lock_node(&[], LockMode::Freeze, "root".into()).unwrap();
    let file = solver.save(b"{}");

    let loaded: Solver<F32> = Solver::load(solver.save_header(), body_of(&file)).ok().unwrap();
    assert_eq!(loaded.locks.len(), 1);
    for (idx, sigma) in &solver.locks {
        assert_eq!(loaded.locks.get(idx), Some(sigma));
    }
    let view = loaded.node_view(&[]).unwrap();
    assert!(view.locked, "root lock lost in roundtrip");
    loaded.exploit_view(&[], 0).unwrap();
    assert_eq!(loaded.list_locks(), vec!["root".to_string()]);
}

/// An out-of-range node index must be refused at load, not panic at first use.
#[test]
fn load_rejects_out_of_range_lock_index() {
    let solver = solved_tiny();
    let err = load_err(&solver, vec![(999_999, vec![F32(0.25); 4])], "out-of-range lock index");
    assert!(
        err.contains("lock") && err.contains("out of range"),
        "unexpected error: {err}"
    );
}

/// A lock on a non-action (terminal/chance) node must be refused at load.
#[test]
fn load_rejects_non_action_node_lock() {
    let solver = solved_tiny();
    let idx = solver
        .spot
        .tree
        .nodes
        .iter()
        .position(|n| n.kind != KIND_ACTION)
        .expect("tree has terminal nodes") as u32;
    let err = load_err(&solver, vec![(idx, vec![F32(0.5); 2])], "non-action lock");
    assert!(err.contains("not an action node"), "unexpected error: {err}");
}

/// A sigma with the wrong length must be refused.
#[test]
fn load_rejects_wrong_sigma_length() {
    let solver = solved_tiny();
    let err = load_err(&solver, vec![(0, vec![F32(0.5)])], "short lock sigma");
    assert!(
        err.contains("expected") && err.contains("lock"),
        "unexpected error: {err}"
    );
}

/// Negative frequencies must be refused even when the shape is right.
#[test]
fn load_rejects_negative_lock_value() {
    let solver = solved_tiny();
    let root = &solver.spot.tree.nodes[0];
    assert_eq!(root.kind, KIND_ACTION);
    let n = root.num_children as usize * solver.spot.hands[root.player as usize].len();
    let mut sigma = vec![F32(0.5); n];
    sigma[0] = F32(-1.0);
    let err = load_err(&solver, vec![(0, sigma)], "negative lock value");
    assert!(
        err.contains("finite") || err.contains("invalid"),
        "unexpected error: {err}"
    );
}

/// A caller-supplied vector can carry non-finite values: they are rejected.
#[test]
fn validate_locks_rejects_non_finite() {
    let spot = spot_of(tiny_config());
    let root = &spot.tree.nodes[0];
    let n = root.num_children as usize * spot.hands[root.player as usize].len();
    assert!(validate_locks(&spot, &[(0, vec![F32(0.5); n])]).is_ok());
    assert!(validate_locks(&spot, &[(0, vec![F32(f32::NAN); n])]).is_err());
    assert!(validate_locks(&spot, &[(0, vec![F32(f32::INFINITY); n])]).is_err());
}

/// A file starts with its magic line, the header follows, and what is behind
/// the header is found again.
#[test]
fn files_are_framed() {
    let solver = solved_tiny();
    let file = solver.save(b"{\"x\":1}");
    assert!(file.starts_with(b"GTOSOLVE2\n{\"x\":1}\n"));
    assert_eq!(find_header_end(&magic(), &file), Ok(17));
    assert_eq!(find_header_end(&magic(), b"GTOSOLVE1\n{}\n"), Err(SaveError::NotASave));
    assert_eq!(find_header_end(&magic(), b"GTO"), Err(SaveError::Truncated));
    assert_eq!(find_header_end(&magic(), b"GTOSOLVE2\n{}"), Err(SaveError::Truncated));
}

/// Arenas of another size, or cut short, are refused, and the vetting finds
/// the same fault before anything is loaded.
#[test]
fn damaged_arenas_are_refused() {
    let solver = solved_tiny();
    let file = solver.save(b"{}");
    let body = body_of(&file);
    let sizes = solver.spot.tree.data_size;
    assert_eq!(vet_sections(body, sizes), Ok(()));
    let load = |bytes: &[u8]| match Solver::<F32>::load(solver.save_header(), bytes) {
        Err(LoadError::File { error }) => error,
        _ => panic!("a damaged body must not load"),
    };

    let cut = &body[..body.len() - 1];
    assert_eq!(load(cut), SaveError::Truncated);
    assert_eq!(vet_sections(cut, sizes), Err(SaveError::Truncated));

    let mut grown = body.to_vec();
    grown[0] += 1;
    let wrong = SaveError::ArenaSize { file: sizes[0] + 1, expected: sizes[0] };
    assert_eq!(load(&grown), wrong);
    assert_eq!(vet_sections(&grown, sizes), Err(wrong));
    assert!(load(&grown).message().contains("arena size mismatch"));
}

/// Vetting rebuilds the spot within the node budget of the memory cap.
#[test]
fn peeking_rebuilds_the_spot() {
    let solver = solved_tiny();
    let file = solver.save(b"{}");
    let spot = peek_save(solver.save_header(), body_of(&file), F64(1000.0), Storage::F32)
        .ok()
        .expect("the save is sound");
    assert_eq!(spot.tree.nodes.len(), solver.spot.tree.nodes.len());

    let big = Solver::new(spot_of(small_flop_config()));
    let file = big.save(b"{}");
    let refused = peek_save(big.save_header(), body_of(&file), F64(0.0), Storage::F32);
    assert!(matches!(refused, Err(LoadError::Spot { .. })), "no memory, no spot");
}
