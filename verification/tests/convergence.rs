//! End to end: what solving leads to, against known results.

use solver::cards::{card_mask, parse_cards};
use solver::cfr::Solver;
use solver::evaluator::evaluate7;
use solver::game::{Dealt, Spot, SpotConfig};
use solver::inspect::NodeView;
use solver::locks::{HandEdit, LockMode};
use solver::num::{Num, Single};
use solver::path::{PathStep, QueryError};
use solver::profile::PostflopStats;
use solver::sizing::parse_sizes;
use solver::store::Storage;
use solver::tree::{BetSize, StreetSizing, TreeConfig, KIND_ACTION};

#[derive(Clone, Copy, Debug, PartialEq, PartialOrd)]
struct F64(f64);

impl Num for F64 {
    fn plus(self, rhs: Self) -> Self {
        F64(self.0 + rhs.0)
    }
    fn minus(self, rhs: Self) -> Self {
        F64(self.0 - rhs.0)
    }
    fn times(self, rhs: Self) -> Self {
        F64(self.0 * rhs.0)
    }
    fn over(self, rhs: Self) -> Self {
        F64(self.0 / rhs.0)
    }
    fn negated(self) -> Self {
        F64(-self.0)
    }
    fn below(self, rhs: Self) -> bool {
        self.0 < rhs.0
    }
    fn at_most(self, rhs: Self) -> bool {
        self.0 <= rhs.0
    }
    fn finite(self) -> bool {
        self.0.is_finite()
    }
    fn decimal(units: i64, places: u8) -> Self {
        if places == 0 {
            return F64(units as f64);
        }
        F64(units as f64 / 10f64.powi(places as i32))
    }
    fn rounded(self) -> Self {
        F64(self.0.round())
    }
    fn root(self) -> Self {
        F64(self.0.sqrt())
    }
    fn floored(self) -> i128 {
        self.0.floor() as i128
    }
    fn nearest(self) -> i64 {
        self.0.round_ties_even() as i64
    }
    fn parse(text: &str) -> Option<Self> {
        text.parse().ok().map(F64)
    }
    fn shown(self) -> String {
        format!("{}", self.0)
    }
    fn fixed(self, places: u8) -> String {
        format!("{:.*}", places as usize, self.0)
    }
}

#[derive(Clone, Copy, Debug, PartialEq, PartialOrd)]
struct F32(f32);

impl Num for F32 {
    fn plus(self, rhs: Self) -> Self {
        F32(self.0 + rhs.0)
    }
    fn minus(self, rhs: Self) -> Self {
        F32(self.0 - rhs.0)
    }
    fn times(self, rhs: Self) -> Self {
        F32(self.0 * rhs.0)
    }
    fn over(self, rhs: Self) -> Self {
        F32(self.0 / rhs.0)
    }
    fn negated(self) -> Self {
        F32(-self.0)
    }
    fn below(self, rhs: Self) -> bool {
        self.0 < rhs.0
    }
    fn at_most(self, rhs: Self) -> bool {
        self.0 <= rhs.0
    }
    fn finite(self) -> bool {
        self.0.is_finite()
    }
    fn decimal(units: i64, places: u8) -> Self {
        if places == 0 {
            return F32(units as f32);
        }
        F32((units as f64 / 10f64.powi(places as i32)) as f32)
    }
    fn rounded(self) -> Self {
        F32(self.0.round())
    }
    fn root(self) -> Self {
        F32(self.0.sqrt())
    }
    fn floored(self) -> i128 {
        self.0.floor() as i128
    }
    fn nearest(self) -> i64 {
        self.0.round_ties_even() as i64
    }
    fn parse(text: &str) -> Option<Self> {
        text.parse().ok().map(F32)
    }
    fn shown(self) -> String {
        format!("{}", self.0)
    }
    fn fixed(self, places: u8) -> String {
        format!("{:.*}", places as usize, self.0)
    }
}

impl Single for F32 {
    type Wide = F64;

    fn widened(self) -> F64 {
        F64(self.0 as f64)
    }
    fn narrowed(wide: F64) -> Self {
        F32(wide.0 as f32)
    }
    fn word(self) -> u32 {
        self.0.to_bits()
    }
    fn of_word(word: u32) -> Self {
        F32(f32::from_bits(word))
    }
}

type Config = SpotConfig<F64>;

fn sizes(s: &str) -> Vec<BetSize<F64>> {
    parse_sizes(s).unwrap()
}

fn sizing(bet: &str, raise: &str) -> StreetSizing<F64> {
    StreetSizing { bet: sizes(bet), raise: sizes(raise), donk: vec![] }
}

fn spot_of(config: Config) -> Spot<F64, F32> {
    Spot::new(config).unwrap()
}

fn hand_index(spot: &Spot<F64, F32>, p: usize, combo: &str) -> usize {
    let cards = parse_cards(combo).unwrap();
    spot.hands[p]
        .iter()
        .position(|h| {
            (h.c1 == cards[0] && h.c2 == cards[1]) || (h.c1 == cards[1] && h.c2 == cards[0])
        })
        .unwrap_or_else(|| panic!("combo {combo} not found for player {p}"))
}

fn clairvoyance_config() -> Config {
    SpotConfig {
        board: "QcJc9c3d2d".to_string(),
        range_oop: "AcKc,8h7h".to_string(),
        range_ip: "QdQh".to_string(),
        tree: TreeConfig {
            starting_pot: F64(100.0),
            effective_stack: F64(100.0),
            oop: [sizing("", ""), sizing("", ""), sizing("100", "")],
            ip: [sizing("", ""), sizing("", ""), sizing("", "")],
            ..Default::default()
        },
    }
}

fn two_tone_config() -> Config {
    SpotConfig {
        board: "KsQs2d".to_string(),
        range_oop: "TT,99,88,77,AKs,AQs,AJs,JTs,T9s,87s,AKo,KQo".to_string(),
        range_ip: "QQ,JJ,TT,AKs,KQs,QJs,T9s,98s,AQo".to_string(),
        tree: TreeConfig {
            starting_pot: F64(60.0),
            effective_stack: F64(200.0),
            oop: [sizing("50", ""), sizing("50", ""), sizing("50", "")],
            ip: [sizing("50", ""), sizing("50", ""), sizing("50", "")],
            ..Default::default()
        },
    }
}

fn small_flop_config() -> Config {
    SpotConfig {
        board: "Th9h2c".to_string(),
        range_oop: "QQ,JJ,TT,99,AhKh,AsKs,87s".to_string(),
        range_ip: "AA,KK,AQs,JTs,T9s".to_string(),
        tree: TreeConfig {
            starting_pot: F64(60.0),
            effective_stack: F64(200.0),
            oop: [sizing("50", "60"), sizing("50", ""), sizing("50", "")],
            ip: [sizing("50", "60"), sizing("50", ""), sizing("50", "")],
            ..Default::default()
        },
    }
}

fn small_turn_config() -> Config {
    SpotConfig { board: "Th9h2c5d".to_string(), ..small_flop_config() }
}

fn action(index: usize) -> PathStep {
    PathStep::Action { index }
}

fn card(card: &str) -> PathStep {
    PathStep::Card { card: card.to_string() }
}

/// Reach-weighted average EV of a player's range.
fn range_ev(v: &NodeView<F32>, p: usize) -> f64 {
    let (mut n, mut d) = (0f64, 0f64);
    for h in &v.players[p].hands {
        if let Some(ev) = h.ev {
            n += ev.0 as f64 * h.reach.0 as f64;
            d += h.reach.0 as f64;
        }
    }
    n / d
}

/// Classic clairvoyance game: polarized OOP (nuts + air) vs a bluff-catcher,
/// pot-sized bet only. Theory: OOP bets all nuts plus half the air (bluff
/// ratio 1/3 of betting range), IP calls 50%.
#[test]
fn clairvoyance_game_converges_to_theory() {
    let mut solver = Solver::new(spot_of(clairvoyance_config()));
    for _ in 0..3000 {
        solver.iterate();
    }

    let exploit = solver.exploitability().0;
    let exploit_pct = exploit / 100.0 * 100.0;
    assert!(
        exploit_pct < 0.10,
        "exploitability too high: {exploit_pct}% pot"
    );

    // Root: OOP action node with [Check, Bet 100].
    let root = &solver.spot.tree.nodes[0];
    assert_eq!(root.num_children, 2);
    let sigma = solver.average_strategy(0);
    let nh = solver.spot.hands[0].len();
    let nuts = hand_index(&solver.spot, 0, "AcKc");
    let air = hand_index(&solver.spot, 0, "8h7h");
    let bet_nuts = sigma[nh + nuts].0;
    let bet_air = sigma[nh + air].0;
    assert!(bet_nuts > 0.97, "nuts should always bet, got {bet_nuts}");
    assert!(
        (bet_air - 0.5).abs() < 0.05,
        "air should bluff ~50%, got {bet_air}"
    );

    // IP node after bet: [Fold, Call].
    let bet_child = solver.spot.tree.children[root.children_start as usize + 1];
    let ip_node = &solver.spot.tree.nodes[bet_child as usize];
    assert_eq!(ip_node.kind, KIND_ACTION);
    assert_eq!(ip_node.player, 1);
    let sigma_ip = solver.average_strategy(bet_child);
    let nh_ip = solver.spot.hands[1].len();
    let qq = hand_index(&solver.spot, 1, "QdQh");
    let call_freq = sigma_ip[nh_ip + qq].0;
    assert!(
        (call_freq - 0.5).abs() < 0.07,
        "bluff-catcher should call ~50%, got {call_freq}"
    );

    // EVs in pot-share convention via the query API.
    let view = solver.node_view(&[]).unwrap();
    let oop = &view.players[0];
    let nuts_ev = oop.hands[nuts].ev.unwrap().0;
    let air_ev = oop.hands[air].ev.unwrap().0;
    assert!(
        (nuts_ev - 150.0).abs() < 3.0,
        "nuts EV should be ~150, got {nuts_ev}"
    );
    assert!(air_ev.abs() < 2.0, "air EV should be ~0, got {air_ev}");

    // Zero-sum sanity: both players' total EVs sum to the pot.
    let ip_ev = view.players[1].hands[qq].ev.unwrap().0;
    let total = nuts_ev * 0.5 + air_ev * 0.5 + ip_ev;
    assert!(
        (total - 100.0).abs() < 3.0,
        "EVs should sum to pot, got {total}"
    );
}

/// A turn->river spot must converge (exploitability decreasing and reaching
/// < 1% pot).
#[test]
fn small_turn_spot_converges() {
    let mut solver = Solver::new(spot_of(small_turn_config()));
    for _ in 0..20 {
        solver.iterate();
    }
    let e1 = solver.exploitability().0 / 60.0 * 100.0;
    for _ in 0..180 {
        solver.iterate();
    }
    let e2 = solver.exploitability().0 / 60.0 * 100.0;
    assert!(e2 < e1, "exploitability should decrease: {e1} -> {e2}");
    assert!(e2 < 1.0, "exploitability should reach < 1% pot, got {e2}%");
}

/// Equity from the solver's sweep must match brute-force enumeration.
#[test]
fn equity_matches_brute_force() {
    let config = SpotConfig {
        board: "AsKh7d".to_string(),
        range_oop: "AhAd".to_string(),
        range_ip: "KsKc".to_string(),
        tree: TreeConfig {
            starting_pot: F64(10.0),
            effective_stack: F64(100.0),
            oop: [sizing("50", ""), sizing("50", ""), sizing("50", "")],
            ip: [sizing("50", ""), sizing("50", ""), sizing("50", "")],
            ..Default::default()
        },
    };
    let solver = Solver::new(spot_of(config));

    let eq = solver.equity(0, &solver.spot.weights[1], Dealt::default());
    let i = hand_index(&solver.spot, 0, "AhAd");

    // Brute force.
    let board = parse_cards("AsKh7d").unwrap();
    let h0 = parse_cards("AhAd").unwrap();
    let h1 = parse_cards("KsKc").unwrap();
    let mut used = 0u64;
    for &c in board.iter().chain(h0.iter()).chain(h1.iter()) {
        used |= card_mask(c);
    }
    let (mut win, mut tie, mut total) = (0f64, 0f64, 0f64);
    for t in 0..52u8 {
        if used & card_mask(t) != 0 {
            continue;
        }
        for r in (t + 1)..52 {
            if used & card_mask(r) != 0 {
                continue;
            }
            let mut c7a = [board[0], board[1], board[2], t, r, h0[0], h0[1]];
            let v0 = evaluate7(&c7a);
            c7a[5] = h1[0];
            c7a[6] = h1[1];
            let v1 = evaluate7(&c7a);
            total += 1.0;
            if v0 > v1 {
                win += 1.0;
            } else if v0 == v1 {
                tie += 1.0;
            }
        }
    }
    let expected = ((win + tie / 2.0) / total) as f32;
    let got = eq[i].unwrap().0;
    assert!(
        (got - expected).abs() < 1e-4,
        "equity mismatch: solver {got} vs brute force {expected}"
    );
}

/// Node locking: if the bluff-catcher is locked to always call, the
/// polarized player must stop bluffing (and keep value betting).
#[test]
fn locked_always_call_kills_bluffs() {
    let mut solver = Solver::new(spot_of(clairvoyance_config()));
    // Pre-solve so the lock has a strategy to scale, then lock IP's
    // fold/call node to "always call" and re-solve.
    for _ in 0..200 {
        solver.iterate();
    }
    let path = vec![action(1)]; // after OOP bet
    // range mode: 0% fold, 100% call -> every bluff-catcher calls
    solver
        .lock_node(
            &path,
            LockMode::Range { freqs: vec![F32(0.0), F32(1.0)] },
            "ip always calls".to_string(),
        )
        .unwrap();
    for _ in 0..2000 {
        solver.iterate();
    }

    let sigma = solver.average_strategy(0);
    let nh = solver.spot.hands[0].len();
    let nuts = hand_index(&solver.spot, 0, "AcKc");
    let air = hand_index(&solver.spot, 0, "8h7h");
    assert!(
        sigma[nh + nuts].0 > 0.97,
        "nuts should still bet vs station, got {}",
        sigma[nh + nuts].0
    );
    assert!(
        sigma[nh + air].0 < 0.05,
        "air should never bluff vs station, got {}",
        sigma[nh + air].0
    );

    // And the lock itself holds in queries.
    let view = solver.node_view(&path).unwrap();
    assert!(view.locked);
    let qq = hand_index(&solver.spot, 1, "QdQh");
    let st = view.players[1].hands[qq].strategy.as_ref().unwrap();
    assert!(st[1].0 > 0.999, "locked call freq should be 1.0, got {}", st[1].0);
}

/// Lock modes: range targeting is idempotent (re-applying the same target
/// gives the same result — no multiplier compounding), the aggregate matches
/// the requested frequency, and per-hand edits set exact values.
#[test]
fn lock_modes_clean_and_idempotent() {
    let config = SpotConfig {
        board: "Ks7h2d".to_string(),
        range_oop: "AA,KK,QQ,JJ,TT,AKs,AQs,AJs,KQs,JTs,T9s,87s,76s,A5s".to_string(),
        range_ip: "KK,QQ,JJ,TT,99,AQs,AJs,KQs,QJs,JTs,T9s,98s".to_string(),
        tree: TreeConfig {
            starting_pot: F64(60.0),
            effective_stack: F64(200.0),
            oop: [sizing("75", ""), sizing("75", ""), sizing("75", "")],
            ip: [sizing("75", ""), sizing("75", ""), sizing("75", "")],
            ..Default::default()
        },
    };
    let mut solver = Solver::new(spot_of(config));
    for _ in 0..8 {
        solver.iterate();
    }

    // root OOP, actions [Check, Bet 75%]
    let na = solver.spot.tree.nodes[0].num_children as usize;
    assert_eq!(na, 2);

    // reach-weighted aggregate bet frequency at the root for OOP
    let agg_bet = |s: &Solver<F32>| {
        let v = s.node_view(&[]).unwrap();
        let (mut n, mut d) = (0f64, 0f64);
        for h in &v.players[0].hands {
            if let Some(st) = &h.strategy {
                n += st[1].0 as f64 * h.reach.0 as f64;
                d += h.reach.0 as f64;
            }
        }
        n / d
    };
    let range = |a: f32, b: f32| LockMode::Range { freqs: vec![F32(a), F32(b)] };

    // target 30% bet / 70% check
    solver.lock_node(&[], range(0.70, 0.30), "r".into()).unwrap();
    let a1 = agg_bet(&solver);
    assert!((a1 - 0.30).abs() < 0.02, "aggregate bet should be ~30%, got {a1}");

    // re-apply the SAME target: must not compound (idempotent)
    solver.lock_node(&[], range(0.70, 0.30), "r".into()).unwrap();
    let a2 = agg_bet(&solver);
    assert!((a2 - a1).abs() < 1e-3, "re-locking same target compounded: {a1} -> {a2}");

    // change the target up to 65% bet, still from the solved base (not compounded)
    solver.lock_node(&[], range(0.35, 0.65), "r".into()).unwrap();
    let a3 = agg_bet(&solver);
    assert!((a3 - 0.65).abs() < 0.02, "aggregate bet should retarget to ~65%, got {a3}");

    // per-hand edit: force AA to check 100% (action 0), others keep current
    solver
        .lock_node(
            &[],
            LockMode::Hands {
                edits: vec![HandEdit { combo: "AcAd".into(), freqs: vec![F32(1.0), F32(0.0)] }],
            },
            "h".into(),
        )
        .unwrap();
    let v = solver.node_view(&[]).unwrap();
    let aa = hand_index(&solver.spot, 0, "AcAd");
    let st = v.players[0].hands[aa].strategy.as_ref().unwrap();
    assert!(st[0].0 > 0.999, "AcAd should be locked to 100% check, got {}", st[0].0);
}

/// Suit isomorphism must (a) detect the c<->h symmetry on a two-tone board,
/// (b) converge equivalently to the non-isomorphic solver, and (c) produce
/// exactly mirrored strategies on isomorphic runouts once they are in line.
#[test]
fn suit_isomorphism_is_exact_on_a_turn() {
    let config = || SpotConfig { board: "KsQs2d3d".to_string(), ..two_tone_config() };
    let spot = spot_of(config());
    assert_eq!(
        spot.suit_perms.len(),
        2,
        "KsQs2d3d with symmetric ranges should have exactly the c<->h swap"
    );
    let mut iso = Solver::new(spot);
    let mut plain = Solver::new(spot_of(config()));
    plain.use_isomorphism = false;

    for _ in 0..100 {
        iso.iterate();
        plain.iterate();
    }
    let e_iso = iso.exploitability().0 / 60.0 * 100.0;
    let e_plain = plain.exploitability().0 / 60.0 * 100.0;
    assert!(e_iso < 2.0, "iso solver should converge, got {e_iso}%");
    assert!(e_plain < 2.0, "plain solver should converge, got {e_plain}%");
    assert!(
        (e_iso - e_plain).abs() < 0.6,
        "iso and plain exploitability should agree: {e_iso}% vs {e_plain}%"
    );

    // Root EVs agree between the two solvers.
    iso.ensure_symmetric();
    let va = iso.node_view(&[]).unwrap();
    let vb = plain.node_view(&[]).unwrap();
    for p in 0..2 {
        let (a, b) = (range_ev(&va, p), range_ev(&vb, p));
        assert!(
            (a - b).abs() < 1.2,
            "player {p} root EV should agree: iso {a} vs plain {b}"
        );
    }

    // Isomorphic river branches (4c vs 4h after check/check) must mirror
    // exactly once they are in line.
    let path = |c: &str| vec![action(0), action(0), card(c)];
    let vc = iso.node_view(&path("4c")).unwrap();
    let vh = iso.node_view(&path("4h")).unwrap();
    let agg_freq = |v: &NodeView<F32>| {
        let (mut n, mut d) = (0f64, 0f64);
        for h in &v.players[0].hands {
            if let Some(s) = &h.strategy {
                n += s[0].0 as f64 * h.reach.0 as f64;
                d += h.reach.0 as f64;
            }
        }
        n / d
    };
    let (fc, fh) = (agg_freq(&vc), agg_freq(&vh));
    assert!(
        (fc - fh).abs() < 1e-4,
        "isomorphic river strategies should mirror: {fc} vs {fh}"
    );
}

/// The i16/u16 compressed solver must match the f32 solver: exploitability
/// within 0.1% pot after the same number of iterations, and root EVs agree.
#[test]
fn compressed_matches_f32_within_tenth_pct_pot_on_a_turn() {
    let mut plain = Solver::new(spot_of(small_turn_config()));
    let mut comp = Solver::with_storage(spot_of(small_turn_config()), Storage::Compressed);
    for _ in 0..200 {
        plain.iterate();
        comp.iterate();
    }
    let ef = plain.exploitability().0 / 60.0 * 100.0;
    let ec = comp.exploitability().0 / 60.0 * 100.0;
    assert!(ef < 1.0, "f32 solver should converge, got {ef}% pot");
    assert!(ec < 1.0, "compressed solver should converge, got {ec}% pot");
    assert!(
        (ef - ec).abs() < 0.1,
        "compressed exploitability must match f32 within 0.1% pot: {ec}% vs {ef}%"
    );

    // Root EVs (reach-weighted average) agree within 1% of pot.
    let va = plain.node_view(&[]).unwrap();
    let vb = comp.node_view(&[]).unwrap();
    for p in 0..2 {
        let (a, b) = (range_ev(&va, p), range_ev(&vb, p));
        assert!(
            (a - b).abs() < 0.6,
            "player {p} root EV should agree: f32 {a} vs compressed {b}"
        );
    }

    // Compressed arenas actually use less memory. (This tiny spot has very
    // short hand lists, so the per-node scale arrays weigh in at ~10% extra;
    // realistic spots sit at ~50%.)
    assert!(
        comp.arena_bytes() < plain.arena_bytes() * 7 / 10,
        "compressed arenas should be roughly half: {} vs {}",
        comp.arena_bytes(),
        plain.arena_bytes()
    );
}

/// A per-hand lock applied while browsing a non-representative isomorphic
/// runout must land on the suit-mapped combo of the representative branch,
/// so the browsed view shows the edit on exactly the combo the user picked.
#[test]
fn hands_lock_respects_suit_isomorphism() {
    let spot = spot_of(two_tone_config());
    assert_eq!(spot.suit_perms.len(), 2, "expected exactly the c<->h swap");
    let mut solver = Solver::new(spot);
    for _ in 0..6 {
        solver.iterate();
    }
    let path = vec![action(0), action(0), card("4h")];
    // sanity: 4c is the representative, so browsing 4h exercises the remap
    let canon = solver.canonical_path(&path);
    assert!(
        matches!(&canon[2], PathStep::Card { card } if card == "4c"),
        "4c should be the orbit representative of the 4h turn"
    );
    solver
        .lock_node(
            &path,
            LockMode::Hands {
                edits: vec![HandEdit {
                    combo: "AhJh".into(),
                    freqs: vec![F32(0.37), F32(0.63)],
                }],
            },
            "iso hand lock".into(),
        )
        .unwrap();
    for _ in 0..3 {
        solver.iterate();
    }
    solver.ensure_symmetric();
    let v = solver.node_view(&path).unwrap();
    let idx = hand_index(&solver.spot, 0, "AhJh");
    let st = v.players[0].hands[idx].strategy.as_ref().unwrap();
    assert!(
        (st[0].0 - 0.37).abs() < 5e-3,
        "AhJh on the browsed 4h branch should show its own lock (37% check), got {}",
        st[0].0
    );
}

/// Exploit view: the best response against a locked always-caller bets the
/// nuts, never bluffs the air, and per-hand BR EV dominates the current
/// strategy's EV (with a strictly positive average gain, since the solved
/// strategy still bluffs at the equilibrium frequency).
#[test]
fn exploit_view_vs_locked_station() {
    let mut solver = Solver::new(spot_of(clairvoyance_config()));
    for _ in 0..500 {
        solver.iterate();
    }
    // lock IP to always-call the bet
    let bet_path = vec![action(1)];
    solver
        .lock_node(
            &bet_path,
            LockMode::Range { freqs: vec![F32(0.0), F32(1.0)] },
            "station".into(),
        )
        .unwrap();

    let v = solver.exploit_view(&[], 0).unwrap();
    assert_eq!(v.exploiter, 0);
    let nuts = hand_index(&solver.spot, 0, "AcKc");
    let air = hand_index(&solver.spot, 0, "8h7h");
    let st_nuts = v.hands[nuts].br_strategy.as_ref().unwrap();
    let st_air = v.hands[air].br_strategy.as_ref().unwrap();
    assert!(st_nuts[1].0 > 0.999, "BR must always bet the nuts, got {:?}", st_nuts);
    assert!(st_air[0].0 > 0.999, "BR must never bluff vs a station, got {:?}", st_air);
    for h in &v.hands {
        if let (Some(b), Some(c)) = (h.br_ev, h.cur_ev) {
            assert!(b.0 >= c.0 - 1e-3, "BR EV must dominate: {} vs {} ({})", b.0, c.0, h.combo);
        }
    }
    let gain = v.avg_gain.expect("avg gain").0;
    assert!(gain > 0.5, "exploiting a station should gain plainly, got {gain}");
}

/// A quiet solve ends at its target or at its budget.
#[test]
fn quiet_solve_ends_where_it_should() {
    let mut solver = Solver::new(spot_of(clairvoyance_config()));
    let (it, pct) = solver.solve_quiet(3000, F64(1.0));
    assert!(it < 3000 && it % 20 == 0, "stopped at {it}");
    assert!(pct.0 <= 1.0, "target missed: {}", pct.0);
    assert_eq!(it, solver.iteration);

    // no earlier measurement had reached the target
    let mut again = Solver::new(spot_of(clairvoyance_config()));
    for _ in 0..it {
        let pct = again.exploitability().0 / again.spot.tree.config.starting_pot.0 * 100.0;
        assert!(again.iteration % 20 != 0 || again.iteration == 0 || pct > 1.0);
        again.iterate();
    }
    // and every iteration was played
    for node in 0..again.spot.tree.nodes.len() as u32 {
        if again.spot.tree.nodes[node as usize].kind == KIND_ACTION {
            assert_eq!(again.average_strategy(node), solver.average_strategy(node));
        }
    }

    let mut solver = Solver::new(spot_of(clairvoyance_config()));
    let (it, pct) = solver.solve_quiet(30, F64(-1.0));
    assert_eq!(it, 30);
    assert!(pct.0 > -1.0);
}

/// Queries refuse paths that leave the tree, and say why.
#[test]
fn queries_refuse_bad_paths() {
    let mut solver = Solver::new(spot_of(clairvoyance_config()));
    let why = |e: QueryError| e.message();
    let msg = |r: Result<NodeView<F32>, QueryError>| r.err().map(why).unwrap();
    assert_eq!(msg(solver.node_view(&[action(7)])), "action index 7 out of range");
    assert_eq!(msg(solver.node_view(&[card("4c")])), "path step does not match node type");
    assert_eq!(
        why(solver
            .lock_node(&[action(0), action(0)], LockMode::Freeze, "x".into())
            .err()
            .unwrap()),
        "only action nodes can be locked"
    );
    assert_eq!(
        why(solver.exploit_view(&[], 2).err().unwrap()),
        "exploiter must be 0 (OOP) or 1 (IP)"
    );
    assert_eq!(
        why(solver.runouts(&[]).err().unwrap()),
        "runouts report requires a chance (card) node"
    );
    let edits = |combo: &str| LockMode::Hands {
        edits: vec![HandEdit { combo: combo.into(), freqs: vec![F32(1.0), F32(0.0)] }],
    };
    assert_eq!(
        why(solver.lock_node(&[], edits("AdAh"), "x".into()).err().unwrap()),
        "AdAh is not in OOP's range here"
    );
    assert_eq!(
        why(solver.lock_node(&[], edits("AdAhAs"), "x".into()).err().unwrap()),
        "expected a 2-card combo, got \"AdAhAs\""
    );

    let turn = SpotConfig { board: "QcJc9c3d".to_string(), ..clairvoyance_config() };
    let solver = Solver::new(spot_of(turn));
    assert_eq!(
        msg(solver.node_view(&[action(0), action(0), card("Qc")])),
        "card Qc not available here"
    );
}

/// Unlocking takes a lock back, and listing shows what is locked.
#[test]
fn locks_are_listed_and_taken_back() {
    let mut solver = Solver::new(spot_of(clairvoyance_config()));
    for _ in 0..20 {
        solver.iterate();
    }
    let before = solver.average_strategy(0);
    solver.lock_node(&[], LockMode::Freeze, "root".into()).unwrap();
    assert_eq!(solver.list_locks(), vec!["root".to_string()]);
    assert_eq!(solver.average_strategy(0), before, "a frozen strategy stays what it was");
    assert!(solver.unlock_node(&[]).unwrap());
    assert!(!solver.unlock_node(&[]).unwrap(), "there is nothing left to unlock");
    assert!(solver.list_locks().is_empty());
    assert_eq!(solver.average_strategy(0), before);
    solver.lock_node(&[], LockMode::Freeze, "again".into()).unwrap();
    solver.clear_locks();
    assert!(solver.list_locks().is_empty());
}

/// A profile locks a player's decisions, keeps a manual lock, and can be
/// laid again without compounding.
#[test]
fn profiles_lock_and_keep_manual_locks() {
    let config = SpotConfig {
        board: "Th9h2c5d".to_string(),
        range_oop: "QQ,JJ,TT,99,AhKh,87s".to_string(),
        range_ip: "AA,KK,AQs,JTs,T9s".to_string(),
        ..small_flop_config()
    };
    let stats = || PostflopStats {
        cbet: [F32(60.0), F32(40.0), F32(30.0)],
        fold_to_bet: [F32(20.0), F32(20.0), F32(20.0)],
        raise_bet: F32(10.0),
        donk: F32(5.0),
        bet_size: "min".to_string(),
    };
    let mut solver = Solver::new(spot_of(config));
    assert_eq!(
        solver.lock_profile(0, &stats(), None).err().unwrap().message(),
        "solve the spot first — the profile distorts the solved strategy"
    );
    for _ in 0..30 {
        solver.iterate();
    }
    solver.lock_node(&[], LockMode::Freeze, "manual".into()).unwrap();
    let root = solver.average_strategy(0);
    let first = solver.lock_profile(0, &stats(), None).unwrap();
    assert!(first.locked > 0);
    assert_eq!(solver.average_strategy(0), root, "the manual lock stays");
    let again = solver.lock_profile(0, &stats(), None).unwrap();
    assert_eq!(first.locked, again.locked);
    assert_eq!(solver.clear_profile_locks(), first.locked);
    assert_eq!(solver.list_locks(), vec!["manual".to_string()]);
}

/// Runouts list every card that can come.
#[test]
fn runouts_list_every_card() {
    let turn = SpotConfig { board: "QcJc9c3d".to_string(), ..clairvoyance_config() };
    let mut solver = Solver::new(spot_of(turn));
    for _ in 0..10 {
        solver.iterate();
    }
    let report = solver.runouts(&[action(0), action(0)]).unwrap();
    assert_eq!(report.rows.len(), 48);
}

/// Canonical paths stay as they are, and are moved by one renaming of suits.
#[test]
fn canonical_paths_are_settled() {
    let solver = Solver::new(spot_of(two_tone_config()));
    for (turn, river) in [("4h", "5h"), ("4h", "4c"), ("7d", "9h"), ("As", "Ac")] {
        let path = vec![action(0), action(0), card(turn), action(0), action(0), card(river)];
        let (out, _) = solver.canonical_path_with_perm(&path);
        assert_eq!(out.len(), path.len());
        let (again, perm) = solver.canonical_path_with_perm(&out);
        assert_eq!(format!("{again:?}"), format!("{out:?}"));
        assert_eq!(perm, [0, 1, 2, 3]);
    }
}
