//! Building spots: misconfigured sizes, out-of-range rake, and over-budget trees
//! are refused with clear errors.

use solver::game::{Dealt, Spot, SpotConfig, SpotError};
use solver::num::{Num, Single};
use solver::sizing::{parse_sizes, sizes_to_string};
use solver::tree::{Action, BetSize, BuildError, StreetSizing, Strictness, TreeBuilder, TreeConfig};

#[derive(Clone, Copy, Debug, PartialEq, PartialOrd)]
struct F64(f64);

impl Num for F64 {
    fn plus(self, rhs: Self) -> Self {
        F64(self.0 + rhs.0)
    }
    fn minus(self, rhs: Self) -> Self {
        F64(self.0 - rhs.0)
    }
    fn times(self, rhs: Self) -> Self {
        F64(self.0 * rhs.0)
    }
    fn over(self, rhs: Self) -> Self {
        F64(self.0 / rhs.0)
    }
    fn negated(self) -> Self {
        F64(-self.0)
    }
    fn below(self, rhs: Self) -> bool {
        self.0 < rhs.0
    }
    fn at_most(self, rhs: Self) -> bool {
        self.0 <= rhs.0
    }
    fn finite(self) -> bool {
        self.0.is_finite()
    }
    fn decimal(units: i64, places: u8) -> Self {
        if places == 0 {
            return F64(units as f64);
        }
        F64(units as f64 / 10f64.powi(places as i32))
    }
    fn rounded(self) -> Self {
        F64(self.0.round())
    }
    fn root(self) -> Self {
        F64(self.0.sqrt())
    }
    fn floored(self) -> i128 {
        self.0.floor() as i128
    }
    fn nearest(self) -> i64 {
        self.0.round_ties_even() as i64
    }
    fn parse(text: &str) -> Option<Self> {
        text.parse().ok().map(F64)
    }
    fn shown(self) -> String {
        format!("{}", self.0)
    }
    fn fixed(self, places: u8) -> String {
        format!("{:.*}", places as usize, self.0)
    }
}

#[derive(Clone, Copy, Debug, PartialEq, PartialOrd)]
struct F32(f32);

impl Num for F32 {
    fn plus(self, rhs: Self) -> Self {
        F32(self.0 + rhs.0)
    }
    fn minus(self, rhs: Self) -> Self {
        F32(self.0 - rhs.0)
    }
    fn times(self, rhs: Self) -> Self {
        F32(self.0 * rhs.0)
    }
    fn over(self, rhs: Self) -> Self {
        F32(self.0 / rhs.0)
    }
    fn negated(self) -> Self {
        F32(-self.0)
    }
    fn below(self, rhs: Self) -> bool {
        self.0 < rhs.0
    }
    fn at_most(self, rhs: Self) -> bool {
        self.0 <= rhs.0
    }
    fn finite(self) -> bool {
        self.0.is_finite()
    }
    fn decimal(units: i64, places: u8) -> Self {
        if places == 0 {
            return F32(units as f32);
        }
        F32((units as f64 / 10f64.powi(places as i32)) as f32)
    }
    fn rounded(self) -> Self {
        F32(self.0.round())
    }
    fn root(self) -> Self {
        F32(self.0.sqrt())
    }
    fn floored(self) -> i128 {
        self.0.floor() as i128
    }
    fn nearest(self) -> i64 {
        self.0.round_ties_even() as i64
    }
    fn parse(text: &str) -> Option<Self> {
        text.parse().ok().map(F32)
    }
    fn shown(self) -> String {
        format!("{}", self.0)
    }
    fn fixed(self, places: u8) -> String {
        format!("{:.*}", places as usize, self.0)
    }
}

impl Single for F32 {
    type Wide = F64;

    fn widened(self) -> F64 {
        F64(self.0 as f64)
    }
    fn narrowed(wide: F64) -> Self {
        F32(wide.0 as f32)
    }
    fn word(self) -> u32 {
        self.0.to_bits()
    }
    fn of_word(word: u32) -> Self {
        F32(f32::from_bits(word))
    }
}

type Config = SpotConfig<F64>;

fn build(config: Config) -> Result<Spot<F64, F32>, SpotError<F64>> {
    Spot::new(config)
}

fn refusal(config: Config) -> String {
    build(config).err().expect("expected a build error").message()
}

fn sizes(s: &str) -> Vec<BetSize<F64>> {
    parse_sizes(s).unwrap()
}

fn sizing(bet: &str, raise: &str) -> StreetSizing<F64> {
    StreetSizing { bet: sizes(bet), raise: sizes(raise), donk: vec![] }
}

fn flop_config() -> Config {
    SpotConfig {
        board: "Th9h2c".to_string(),
        range_oop: "QQ,JJ,TT,99".to_string(),
        range_ip: "AA,KK".to_string(),
        tree: TreeConfig {
            starting_pot: F64(60.0),
            effective_stack: F64(200.0),
            oop: [sizing("50", "60"), sizing("50", ""), sizing("50", "")],
            ip: [sizing("50", "60"), sizing("50", ""), sizing("50", "")],
            ..Default::default()
        },
    }
}

/// A raise-multiple in a bet list used to be silently dropped at tree build
/// (the c-bet the user configured just vanished); it must be a build error
/// naming the offending field and token.
#[test]
fn raise_multiple_in_bet_list_is_a_build_error() {
    let mut config = flop_config();
    config.tree.oop[0].bet = sizes("2.5x, 50");
    let err = refusal(config);
    assert!(
        err.contains("flop OOP bet") && err.contains("2.5x"),
        "error should name the field and token: {err}"
    );
}

/// Same for donk lists.
#[test]
fn raise_multiple_in_donk_list_is_a_build_error() {
    let mut config = flop_config();
    config.tree.add_allin = true;
    config.tree.oop[1].donk = sizes("3x");
    let err = refusal(config);
    assert!(
        err.contains("turn OOP donk") && err.contains("3x"),
        "error should name the field and token: {err}"
    );
}

/// Positive control: multiples stay valid in raise lists.
#[test]
fn raise_multiples_in_raise_lists_still_build() {
    let mut config = flop_config();
    config.tree.oop[0].raise = sizes("2.5x");
    config.tree.ip[0].raise = sizes("3x, a");
    build(config).expect("multiples are valid raise sizes");
}

/// Lists below the root street are never consumed.
#[test]
fn raise_multiple_below_root_street_is_ignored() {
    let mut config = flop_config();
    config.board = "Th9h2c5d".to_string(); // turn root
    config.tree.oop[0].bet = sizes("2.5x"); // unused flop list
    build(config).expect("flop sizing is unused for a turn root");
}

/// IP can never donk, so the IP donk list is never consumed.
#[test]
fn raise_multiple_in_ip_donk_list_is_ignored() {
    let mut config = flop_config();
    config.tree.ip[1].donk = sizes("2.5x");
    build(config).expect("IP donk list is never consumed");
}

/// Lenient builds drop the raise-only size silently: the layout is identical
/// to a build without it.
#[test]
fn lenient_build_matches_legacy_dropped_size_layout() {
    let with_token = || {
        let mut config = flop_config();
        config.tree.oop[0].bet = sizes("2.5x, 50");
        config
    };
    assert!(
        build(with_token()).is_err(),
        "strict build must keep rejecting the raise-only bet size"
    );
    let lenient: Spot<F64, F32> =
        Spot::new_lenient(with_token()).expect("lenient build must succeed");
    let legacy = build(flop_config()).unwrap();
    assert_eq!(lenient.tree.data_size, legacy.tree.data_size);
    assert_eq!(lenient.tree.children, legacy.tree.children);
    assert_eq!(lenient.tree.actions, legacy.tree.actions);
    assert_eq!(
        format!("{:?}", lenient.tree.nodes),
        format!("{:?}", legacy.tree.nodes),
        "lenient rebuild must be identical to the dropped-size tree"
    );
}

/// With add_allin set, a donk list holding only "3x" degrades to all-in-only
/// donks, NOT to no donks at all.
#[test]
fn lenient_build_matches_legacy_allin_only_donks() {
    let with_token = || {
        let mut config = flop_config();
        config.tree.add_allin = true;
        config.tree.oop[1].donk = sizes("3x");
        config
    };
    let mut legacy = flop_config();
    legacy.tree.add_allin = true;
    legacy.tree.oop[1].donk = sizes("a");

    assert!(build(with_token()).is_err());
    let lenient: Spot<F64, F32> =
        Spot::new_lenient(with_token()).expect("lenient build must succeed");
    let legacy = build(legacy).unwrap();
    assert_eq!(lenient.tree.data_size, legacy.tree.data_size);
    assert_eq!(lenient.tree.children, legacy.tree.children);
    assert_eq!(lenient.tree.actions, legacy.tree.actions);
}

/// Lenient mode relaxes only the sizing check — the node budget must still
/// abort an oversized lenient rebuild.
#[test]
fn lenient_build_still_enforces_node_budget() {
    let mut config = flop_config();
    config.tree.oop[0].bet = sizes("2.5x, 50");
    let err = Spot::<F64, F32>::new_lenient_with_limit(config, Some(10))
        .err()
        .expect("expected a budget error")
        .message();
    assert!(err.contains("max_nodes"), "error should name the budget: {err}");
}

/// Negative rake would pay the winner more than the pot at every terminal.
#[test]
fn negative_rake_pct_is_rejected() {
    let mut config = flop_config();
    config.tree.rake_pct = F64(-0.05);
    let err = refusal(config);
    assert!(err.contains("rake_pct"), "error should name rake_pct: {err}");
}

#[test]
fn negative_rake_cap_is_rejected() {
    let mut config = flop_config();
    config.tree.rake_pct = F64(0.05);
    config.tree.rake_cap = F64(-1.0);
    let err = refusal(config);
    assert!(err.contains("rake_cap"), "error should name rake_cap: {err}");
}

/// Positive control: an ordinary rake config still builds.
#[test]
fn valid_rake_still_builds() {
    let mut config = flop_config();
    config.tree.rake_pct = F64(0.05);
    config.tree.rake_cap = F64(3.0);
    build(config).expect("normal rake config must build");
}

/// The node budget must abort the build with a clear error.
#[test]
fn max_nodes_budget_aborts_oversized_build() {
    let full = build(flop_config()).unwrap();
    assert!(full.tree.nodes.len() > 10);
    let err = Spot::<F64, F32>::new_with_limit(flop_config(), Some(10))
        .err()
        .expect("expected a build error")
        .message();
    assert!(
        err.contains("max_nodes") && err.contains("10"),
        "error should name the budget: {err}"
    );
}

/// A budget the tree fits under must not change the build at all.
#[test]
fn max_nodes_budget_admits_trees_within_it() {
    let n = build(flop_config()).unwrap().tree.nodes.len();
    let spot = Spot::<F64, F32>::new_with_limit(flop_config(), Some(n + 1000))
        .expect("within budget");
    assert_eq!(spot.tree.nodes.len(), n, "budget must not change the tree");
}

#[test]
fn spot_errors_name_what_is_wrong() {
    let with = |change: &dyn Fn(&mut Config)| {
        let mut config = flop_config();
        change(&mut config);
        refusal(config)
    };
    assert!(with(&|c| c.tree.rake_pct = F64(5.0)).contains("FRACTION"));
    assert_eq!(with(&|c| c.board = "Th9h".into()), "board must have 3 to 5 cards");
    assert_eq!(with(&|c| c.board = "ThTh2c".into()), "duplicate card Th");
    assert_eq!(with(&|c| c.board = "Xx9h2c".into()), "a card is a rank and a suit");
    assert_eq!(with(&|c| c.range_ip = "XX".into()), "invalid range token: \"XX\"");
    assert_eq!(
        with(&|c| c.range_oop = "ThTc".into()),
        "OOP range has no combos left after board card removal"
    );
    assert_eq!(
        with(&|c| c.tree.starting_pot = F64(0.0)),
        "pot and stacks must be positive"
    );
}

#[test]
fn sizes_are_read_and_refused() {
    assert_eq!(
        sizes("33 75, 2.5x; A"),
        vec![
            BetSize::PotPct(F64(33.0)),
            BetSize::PotPct(F64(75.0)),
            BetSize::PrevMult(F64(2.5)),
            BetSize::AllIn
        ]
    );
    assert_eq!(sizes_to_string(&sizes("33, 2.5x a")), "33 2.5x a");
    let bad = |s: &str| parse_sizes::<F64>(s).err().unwrap().message();
    assert_eq!(bad("abc"), "invalid size token \"abc\"");
    assert_eq!(bad("1x"), "raise multiple must be > 1: \"1x\"");
    assert_eq!(bad("0"), "bet size must be positive: \"0\"");
}

/// Strengths of every runout are there, and belong to the hands: the table
/// is filled for all turn and river cards at once.
#[test]
fn every_runout_has_its_strengths() {
    let spot = build(flop_config()).unwrap();
    let taken = |c: u8| spot.board_mask & (1u64 << c) != 0;
    let mut runouts = 0;
    for t in 0..52u8 {
        for r in (t + 1)..52u8 {
            if taken(t) || taken(r) {
                continue;
            }
            let dealt = Dealt::default().push(t).push(r);
            let eval = spot.river.get(&dealt);
            runouts += 1;
            for p in 0..2 {
                let free = spot.hands[p]
                    .iter()
                    .filter(|h| h.mask & ((1u64 << t) | (1u64 << r)) == 0)
                    .count();
                assert_eq!(eval.sorted[p].len(), free);
            }
        }
    }
    assert_eq!(runouts, 49 * 48 / 2);
}

#[test]
fn one_suit_symmetry_on_a_two_tone_board() {
    let mut config = flop_config();
    config.board = "KsQs2d".into();
    let spot = build(config).unwrap();
    assert_eq!(spot.suit_perms.len(), 2);
    assert_eq!(spot.suit_perms[0], [0, 1, 2, 3], "the first changes nothing");
    let mut config = flop_config();
    config.board = "Ts9h2c".into();
    assert_eq!(build(config).unwrap().suit_perms.len(), 1, "a rainbow board has none");
}

/// A node budget is kept to the node: the river tree of one bet has six nodes.
#[test]
fn node_budget_is_kept_to_the_node() {
    let none = || StreetSizing { bet: vec![], raise: vec![], donk: vec![] };
    let config = TreeConfig {
        starting_pot: F64(100.0),
        effective_stack: F64(100.0),
        oop: [none(), none(), sizing("100", "")],
        ip: [none(), none(), none()],
        ..Default::default()
    };
    let build = |cap| TreeBuilder::build_with_limit(&config, &[0, 1, 2, 3, 4], [2, 1], cap);
    assert_eq!(build(None).ok().unwrap().nodes.len(), 6);
    assert_eq!(build(Some(6)).ok().unwrap().nodes.len(), 6);
    for cap in 0..6 {
        match build(Some(cap)) {
            Err(BuildError::Budget { cap: named }) => assert_eq!(named, cap),
            _ => panic!("a budget of {cap} nodes must be refused"),
        }
    }
    let message = build(Some(5)).err().unwrap().message();
    assert!(message.contains("max_nodes") && message.contains('5'), "{message}");
}

/// Amounts that are whole are written as integers, also the zero below zero.
#[test]
fn whole_amounts_are_written_as_integers() {
    let bet = |x: f64| Action::Bet(F64(x)).label(F64(50.0), true);
    assert_eq!(bet(-0.0), "All-in 0");
    assert_eq!(bet(-0.0000001), "All-in 0");
    assert_eq!(bet(12.0), "All-in 12");
    assert_eq!(bet(-3.0), "All-in -3");
    assert_eq!(bet(12.345), "All-in 12.35");
}

/// Every node of a tree but its root is named as a child exactly once.
#[test]
fn every_node_has_one_parent() {
    let spot = build(flop_config()).ok().unwrap();
    let mut named = vec![0; spot.tree.nodes.len()];
    for node in &spot.tree.nodes {
        let from = node.children_start as usize;
        for &kid in &spot.tree.children[from..from + node.num_children as usize] {
            if kid != u32::MAX {
                named[kid as usize] += 1;
            }
        }
    }
    assert_eq!(named[0], 0);
    assert!(named[1..].iter().all(|&n| n == 1));
    assert_eq!(spot.tree.nodes[0].player, 0);
}

/// Dropping raise-only sizes while loading and leaving them out beforehand are
/// refused together, and else build the same tree.
#[test]
fn dropped_sizes_make_no_difference() {
    let config = |bet: &str| TreeConfig {
        starting_pot: F64(100.0),
        effective_stack: F64(100.0),
        oop: [sizing("", ""), sizing("", ""), sizing(bet, "")],
        ip: [sizing("", ""), sizing("", ""), sizing("50", "3x")],
        ..Default::default()
    };
    let (with, without) = (config("2.5x 50"), config("50"));
    let mut built = 0;
    for cap in 0..40 {
        let build = |config, how| {
            TreeBuilder::build_with_options(config, &[0, 1, 2, 3, 4], [2, 1], Some(cap), how)
        };
        let a = build(&with, Strictness::LenientLoad);
        let b = build(&without, Strictness::Strict);
        match (&a, &b) {
            (Ok(a), Ok(b)) => {
                assert_eq!(a.nodes.len(), b.nodes.len());
                assert_eq!(a.children, b.children);
                assert_eq!(a.data_size, b.data_size);
                built += 1;
            }
            (Err(a), Err(b)) => assert_eq!(a, b),
            _ => panic!("one build was refused under {cap} nodes"),
        }
    }
    assert!(0 < built && built < 40);
}
