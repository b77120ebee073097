//! Exact numbers and texts.

use solver::cfr::Solver;
use solver::game::{Dealt, HandInfo, Spot, SpotConfig};
use solver::locks::LockMode;
use solver::messages::write_count;
use solver::nano::Nano;
use solver::num::Num;
use solver::path::PathStep;
use solver::rake::rake_to_target;
use solver::range::Range;
use solver::runouts::action_frequencies;
use solver::store::{decode_i16, decode_u16, encode_i16, encode_u16};
use solver::strategy::normalize;
use solver::text::{sort_texts, starts_with, to_lower, trim};
use solver::tree::{BetSize, StreetSizing, TreeConfig, KIND_TERM_FOLD, KIND_TERM_SHOWDOWN};

fn nano(units: i64, places: u8) -> Nano {
    Nano::decimal(units, places)
}

#[test]
fn fixed_point_numbers_are_exact() {
    let tenth = nano(1, 1);
    assert_eq!(tenth.count, 100_000_000);
    assert_eq!(tenth.plus(nano(2, 1)), nano(3, 1));
    assert_eq!(tenth.minus(nano(2, 1)), nano(-1, 1));
    assert_eq!(nano(15, 1).times(nano(-2, 0)), nano(-3, 0));
    assert_eq!(nano(1, 0).over(nano(3, 0)).count, 333_333_333);
    assert_eq!(nano(-1, 0).over(nano(3, 0)).count, -333_333_333);
    assert_eq!(nano(1, 0).over(nano(0, 0)), nano(0, 0));
    assert_eq!(tenth.negated(), nano(-1, 1));
    assert!(tenth.below(nano(2, 1)) && !tenth.below(tenth) && tenth.at_most(tenth));
    assert!(tenth.finite());
    assert_eq!(nano(i64::MAX, 0).count, i64::MAX);
    assert_eq!(nano(-25, 1).rounded(), nano(-3, 0));
    assert_eq!(nano(24, 1).rounded(), nano(2, 0));
    assert_eq!(nano(25, 1).nearest(), 2);
    assert_eq!(nano(35, 1).nearest(), 4);
    assert_eq!(nano(-25, 1).floored(), -3);
    assert_eq!(nano(225, 2).root(), nano(15, 1));
    assert_eq!(nano(2, 0).root().count, 1_414_213_562);
}

#[test]
fn fixed_point_numbers_are_read_and_written() {
    assert_eq!(Nano::parse("2.5"), Some(nano(25, 1)));
    assert_eq!(Nano::parse("-.5"), Some(nano(-5, 1)));
    assert_eq!(Nano::parse("7."), Some(nano(7, 0)));
    assert_eq!(Nano::parse("."), None);
    assert_eq!(Nano::parse("1e3"), None);
    assert_eq!(nano(25, 1).shown(), "2.5");
    assert_eq!(nano(-3, 0).shown(), "-3");
    assert_eq!(nano(12345, 4).fixed(2), "1.23");
    assert_eq!(nano(1999, 3).fixed(2), "2.00");
}

#[test]
fn texts_are_trimmed_and_sorted() {
    let v: Vec<char> = " \u{2003}a b\t".chars().collect();
    assert_eq!(trim(&v), vec!['a', ' ', 'b']);
    assert_eq!(trim(&[' ']), Vec::<char>::new());
    let names = |v: &[&str]| -> Vec<String> { v.iter().map(|s| s.to_string()).collect() };
    assert_eq!(sort_texts(&names(&["b", "", "ab", "a"])), names(&["", "a", "ab", "b"]));
    assert!(starts_with("check", "ch") && !starts_with("c", "ch"));
    assert_eq!(to_lower('K'), 'k');
    assert_eq!(write_count(0), vec!['0']);
    assert_eq!(write_count(1755), vec!['1', '7', '5', '5']);
}

/// What one player wins the other loses, but for the rake.
#[test]
fn chips_leave_only_as_rake() {
    let sizing = || StreetSizing {
        bet: vec![BetSize::PotPct(nano(50, 0))],
        raise: vec![],
        donk: vec![],
    };
    let config = SpotConfig {
        board: "2c3d4h5s9c".into(),
        range_oop: "KK".into(),
        range_ip: "QQ".into(),
        tree: TreeConfig {
            starting_pot: nano(10, 0),
            effective_stack: nano(20, 0),
            rake_pct: nano(5, 2),
            rake_cap: nano(8, 1),
            oop: [sizing(), sizing(), sizing()],
            ip: [sizing(), sizing(), sizing()],
            allin_threshold: nano(85, 2),
            add_allin: false,
            max_raises: 3,
        },
    };
    let spot = Spot::<Nano, Nano>::new(config).ok().unwrap();
    let (mut folds, mut showdowns) = (0, 0);
    for node in &spot.tree.nodes {
        let lost = -(node.t_win.count + node.t_lose.count);
        if node.kind == KIND_TERM_FOLD {
            // five percent of a pot of 10
            assert_eq!(lost, nano(5, 1).count);
            folds += 1;
        } else if node.kind == KIND_TERM_SHOWDOWN {
            let pot = node.put[0].count + node.put[1].count;
            assert_eq!(lost, (pot / 20).min(nano(8, 1).count));
            assert_eq!(2 * node.t_tie.count, -lost);
            showdowns += 1;
        }
    }
    assert!(folds > 0 && showdowns > 1);
}

/// The compact text of a range is read back, to the billionth.
#[test]
fn compact_texts_are_read_back() {
    let text = "AA:0.5,AKs,72o:0.125,AhQh:0.25,QQ:0.999,JcJd";
    let range = Range::<Nano>::parse(text).ok().unwrap();
    let compact = range.to_string_compact();
    assert_eq!(compact, "AA:0.5,AKs,AhQh:0.25,QQ:0.999,JdJc,72o:0.125");
    let back = Range::<Nano>::parse(&compact).ok().unwrap();
    assert_eq!(back.weights, range.weights);
}

/// A whole solve in exact numbers: half the pot each, to the billionth.
#[test]
fn exact_numbers_solve_a_river() {
    let sizing = || StreetSizing { bet: vec![], raise: vec![], donk: vec![] };
    let config = SpotConfig {
        board: "2c3d4h5s9c".into(),
        range_oop: "KK".into(),
        range_ip: "QQ".into(),
        tree: TreeConfig {
            starting_pot: nano(10, 0),
            effective_stack: nano(20, 0),
            rake_pct: nano(0, 0),
            rake_cap: nano(0, 0),
            oop: [sizing(), sizing(), sizing()],
            ip: [sizing(), sizing(), sizing()],
            allin_threshold: nano(85, 2),
            add_allin: false,
            max_raises: 3,
        },
    };
    let spot = Spot::<Nano, Nano>::new(config).ok().unwrap();
    let mut solver = Solver::new(spot);
    solver.iterate();
    // nothing to decide: nothing to gain
    assert_eq!(solver.exploitability().count, 0);
    let view = solver.node_view(&[]).ok().unwrap();
    for h in &view.players[0].hands {
        assert_eq!(h.eq, Some(nano(1, 0)));
        assert_eq!(h.ev, Some(nano(10, 0)));
    }
    for h in &view.players[1].hands {
        assert_eq!(h.eq, Some(nano(0, 0)));
        assert_eq!(h.ev, Some(nano(0, 0)));
    }
}

/// A river spot with a pot-sized bet and a raise for each player.
fn river_solver() -> Solver<Nano> {
    let sizing = || StreetSizing {
        bet: vec![BetSize::PotPct(nano(100, 0))],
        raise: vec![BetSize::PrevMult(nano(25, 1))],
        donk: vec![],
    };
    let config = SpotConfig {
        board: "2c3d4h5s9c".into(),
        range_oop: "AA,QQ,T8s".into(),
        range_ip: "KK,JJ:0.5,99".into(),
        tree: TreeConfig {
            starting_pot: nano(10, 0),
            effective_stack: nano(80, 0),
            rake_pct: nano(0, 0),
            rake_cap: nano(0, 0),
            oop: [sizing(), sizing(), sizing()],
            ip: [sizing(), sizing(), sizing()],
            allin_threshold: nano(85, 2),
            add_allin: true,
            max_raises: 3,
        },
    };
    Solver::new(Spot::<Nano, Nano>::new(config).ok().unwrap())
}

/// Hands are shown down for equal contributions, and no one puts in more than
/// the stack.
#[test]
fn contributions_are_fair() {
    let solver = river_solver();
    let mut most = 0;
    for node in &solver.spot.tree.nodes {
        let (a, b) = (node.put[0].count, node.put[1].count);
        assert!(nano(5, 0).count <= a.min(b) && a.max(b) <= nano(85, 0).count);
        most = most.max(a);
        if node.kind == KIND_TERM_SHOWDOWN {
            assert_eq!(a, b);
        } else if node.kind == KIND_TERM_FOLD {
            let folded = node.player as usize;
            assert!(node.put[folded].count < node.put[1 - folded].count);
        }
    }
    assert_eq!(most, nano(85, 0).count);
}

/// A best response is worth at least what is played, hand by hand.
#[test]
fn best_responses_are_no_worse() {
    let mut solver = river_solver();
    for _ in 0..30 {
        solver.iterate();
    }
    let mut gained = 0;
    for p in 0..2 {
        let reach: Vec<Nano> = solver.spot.hands[1 - p].iter().map(|h| h.weight).collect();
        let avg = solver.traverse_avg(0, p, &reach, Dealt::default());
        let best = solver.traverse_br(0, p, &reach, Dealt::default());
        assert_eq!(avg.len(), best.len());
        for (a, b) in avg.iter().zip(&best) {
            assert!(a.count <= b.count + 1000);
            gained += b.count - a.count;
        }
    }
    assert!(gained > 0);
}

/// Strategies share one, down to the billionths that thirds leave.
#[test]
fn strategies_share_one() {
    let count = |v: &[Nano]| v.iter().map(|x| x.count).sum::<i64>();
    // three actions, two hands: one that has learnt, one that has not
    let block = [nano(2, 0), nano(0, 0), nano(3, 0), nano(0, 0), nano(2, 0), nano(0, 0)];
    let played = normalize(&block, 3, 2);
    let first = [played[0], played[2], played[4]];
    assert_eq!(first.map(|x| x.count), [285_714_285, 428_571_428, 285_714_285]);
    assert_eq!(count(&first), 999_999_998);
    let second = [played[1], played[3], played[5]];
    assert_eq!(second.map(|x| x.count), [333_333_333; 3]);

    let reach = [nano(1, 0), nano(25, 2)];
    let freqs = action_frequencies(&reach, &played, 3);
    assert_eq!(freqs.len(), 3);
    assert!(freqs.iter().all(|f| f.count >= 0));
    assert!((999_999_990..=1_000_000_000).contains(&count(&freqs)));

    let mut raked = played.clone();
    rake_to_target(&mut raked, 3, 2, &reach, &[nano(5, 1), nano(5, 1), nano(0, 0)]);
    for i in 0..2 {
        let hand = [raked[i], raked[2 + i], raked[4 + i]];
        assert!(hand.iter().all(|x| x.count >= 0));
        assert!((999_999_998..=1_000_000_000).contains(&count(&hand)));
        assert_eq!(hand[2].count, 0);
    }
}

/// Quantized blocks come back within half a step, and are stable.
#[test]
fn quantized_blocks_are_near_and_stable() {
    let src: Vec<Nano> = (-40..=50).map(|i| nano(i * 12_345, 3)).collect();
    let (q, scale) = encode_i16(&src);
    assert_eq!(scale, nano(617_250, 3));
    assert_eq!(q[90], 32767);
    let back = decode_i16(&q, scale);
    for (a, b) in src.iter().zip(&back) {
        // half of 617.25 / 32767, and a billionth for each step
        assert!((a.count - b.count).abs() <= 9_418_775 + 1 + 32767);
    }
    let (again, rescaled) = encode_i16(&back);
    assert_eq!(again, q);
    assert_eq!(decode_i16(&again, rescaled), back);

    let (q, scale) = encode_u16(&src);
    assert_eq!((q[0], q[90]), (0, 65535));
    let back = decode_u16(&q, scale);
    for (a, b) in src.iter().zip(&back) {
        assert!((a.count.max(0) - b.count).abs() <= 4_709_315 + 1 + 65535);
    }
    let (again, rescaled) = encode_u16(&back);
    assert_eq!(again, q);
    assert_eq!(decode_u16(&again, rescaled), back);
}

/// What a hand meets is the reach of the hands that share no card with it.
#[test]
fn card_removal_is_exact() {
    let config = SpotConfig {
        board: "2c3d4h5s9c".into(),
        range_oop: "AA,AKs,KQo:0.3,77".into(),
        range_ip: "AA:0.7,AKo,KQs,88:0.25".into(),
        tree: river_solver().spot.config.tree,
    };
    let solver = Solver::new(Spot::<Nano, Nano>::new(config).ok().unwrap());
    for p in 0..2 {
        let reach: Vec<Nano> = solver.spot.hands[1 - p].iter().map(|h| h.weight).collect();
        let met = solver.valid_opp_sum(p, &reach);
        for (i, h) in solver.spot.hands[p].iter().enumerate() {
            let apart = |g: &&HandInfo<Nano>| {
                g.c1 != h.c1 && g.c1 != h.c2 && g.c2 != h.c1 && g.c2 != h.c2
            };
            let want: i64 =
                solver.spot.hands[1 - p].iter().filter(apart).map(|g| g.weight.count).sum();
            assert_eq!(met[i].count, want);
        }
    }
}

/// Where no rake is taken, the shown values share the pot.
#[test]
fn shown_values_share_the_pot() {
    let mut solver = river_solver();
    for _ in 0..25 {
        solver.iterate();
    }
    let bet = [PathStep::Action { index: 1 }];
    let check = [PathStep::Action { index: 0 }];
    for path in [&bet[..0], &bet[..], &check[..]] {
        let view = solver.node_view(path).ok().unwrap();
        let weight = |p: usize| -> i128 {
            let hands = view.players[p].hands.iter();
            hands.map(|h| h.reach.count as i128 * h.valid.count as i128).sum()
        };
        let shown = |p: usize| -> i128 {
            let hands = view.players[p].hands.iter();
            hands
                .filter_map(|h| {
                    let ev = h.ev?.count as i128;
                    Some(h.reach.count as i128 * h.valid.count as i128 / 1_000_000_000 * ev)
                })
                .sum()
        };
        assert_eq!(weight(0), weight(1));
        let pot = (view.put[0].count + view.put[1].count) as i128;
        let average = (shown(0) + shown(1)) / (weight(0) / 1_000_000_000);
        assert!((average - pot).abs() < 10_000, "{average} of {pot}");
    }
}

/// A lock that is taken back leaves what there was.
#[test]
fn unlocking_undoes_a_lock() {
    let mut solver = river_solver();
    solver.iterate();
    let path = [PathStep::Action { index: 0 }];
    assert!(solver.lock_node(&path, LockMode::Freeze, "mine".into()).is_ok());
    assert_eq!(solver.list_locks(), vec!["mine".to_string()]);
    assert_eq!(solver.unlock_node(&path).ok(), Some(true));
    assert!(solver.list_locks().is_empty() && solver.locks.is_empty());
    assert_eq!(solver.unlock_node(&path).ok(), Some(false));
}
