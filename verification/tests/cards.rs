//! Cards, combos, classes and flops.

use solver::cards::{
    canonical_flops, canonical_flops_subset, card_from_str, card_to_string, combo_from_index,
    combo_index, parse_cards, NUM_COMBOS,
};
use solver::classes::{class_index, class_label, class_of, class_prob, NUM_CLASSES};
use solver::evaluator::evaluate7;
use solver::nano::Nano;

#[test]
fn canonical_flops_are_1755() {
    let flops = canonical_flops();
    assert_eq!(flops.len(), 1755);
    assert_eq!(flops.iter().map(|x| x.1 as u64).sum::<u64>(), 22100);
    assert_eq!(flops, canonical_flops(), "must be deterministic");
}

#[test]
fn flop_subsets_are_evenly_spaced() {
    let all = canonical_flops();
    assert_eq!(canonical_flops_subset(0), vec![]);
    assert_eq!(canonical_flops_subset(5000), all);
    let some = canonical_flops_subset(95);
    assert_eq!(some.len(), 95);
    assert_eq!(some[0], all[0]);
    assert_eq!(some[94], all[94 * 1755 / 95]);
}

#[test]
fn cards_are_read_and_written() {
    assert_eq!(parse_cards("AsKh7d").unwrap(), vec![51, 46, 21]);
    assert_eq!(parse_cards("As Kh").unwrap(), vec![51, 46]);
    assert_eq!(parse_cards("AsAs").err().unwrap().message(), "duplicate card As");
    assert_eq!(parse_cards("As1").err().unwrap().message(), "a card is a rank and a suit");
    for c in 0..52u8 {
        assert_eq!(card_from_str(&card_to_string(c)).ok(), Some(c));
    }
}

#[test]
fn combos_are_numbered() {
    for i in 0..NUM_COMBOS {
        let (a, b) = combo_from_index(i);
        assert_eq!(combo_index(a, b), i);
        assert_eq!(combo_index(b, a), i);
    }
}

#[test]
fn classes_are_numbered_and_named() {
    assert_eq!(class_label(class_index(12, 12, false)), "AA");
    assert_eq!(class_label(class_index(12, 11, true)), "AKs");
    assert_eq!(class_label(class_index(12, 11, false)), "AKo");
    assert_eq!(class_index(12, 12, true), class_index(12, 12, false));
    let mut combos = vec![0u32; NUM_CLASSES];
    for i in 0..NUM_COMBOS {
        let (a, b) = combo_from_index(i);
        combos[class_of(a, b)] += 1;
    }
    for h in 0..NUM_CLASSES {
        let share: Nano = class_prob(h);
        assert_eq!(share.count, combos[h] as i64 * 1_000_000_000 / 1326);
    }
    assert_eq!(combos.iter().sum::<u32>(), 1326);
}

#[test]
fn hands_are_ranked() {
    let v = |s: &str| {
        let c = parse_cards(s).unwrap();
        evaluate7(&[c[0], c[1], c[2], c[3], c[4], c[5], c[6]])
    };
    let ladder = [
        "AsKhQd9c7s5h3d", // high card
        "AsAhQd9c7s5h3d", // pair
        "AsAhQdQc7s5h3d", // two pair
        "AsAhAdQc7s5h3d", // three of a kind
        "5s4h3d2cAsKhKd", // wheel straight
        "6s5h4d3c2sKhKd", // six-high straight
        "As9s7s5s3sKhKd", // flush
        "AsAhAdKcKs5h3d", // full house
        "AsAhAdAcKs5h3d", // four of a kind
        "5s4s3s2sAsKhKd", // steel wheel
        "9s8s7s6s5sKhKd", // straight flush
    ];
    for pair in ladder.windows(2) {
        assert!(v(pair[0]) < v(pair[1]), "{} should lose to {}", pair[0], pair[1]);
    }
    assert_eq!(v("AsKhQd9c7s5h3d"), v("AcKdQh9s7h5d2s"), "only five cards count");
}
