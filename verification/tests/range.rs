//! Range texts.

use solver::cards::{combo_index, make_card, NUM_COMBOS};
use solver::nano::Nano;
use solver::num::{Num, Single};
use solver::range::{class_combo_list, Range, RangeFault, Suitedness};
use solver::sizing::{parse_sizes, sizes_to_string};
use solver::tree::BetSize;

#[derive(Clone, Copy, Debug, PartialEq, PartialOrd)]
struct F64(f64);

impl Num for F64 {
    fn plus(self, rhs: Self) -> Self {
        F64(self.0 + rhs.0)
    }
    fn minus(self, rhs: Self) -> Self {
        F64(self.0 - rhs.0)
    }
    fn times(self, rhs: Self) -> Self {
        F64(self.0 * rhs.0)
    }
    fn over(self, rhs: Self) -> Self {
        F64(self.0 / rhs.0)
    }
    fn negated(self) -> Self {
        F64(-self.0)
    }
    fn below(self, rhs: Self) -> bool {
        self.0 < rhs.0
    }
    fn at_most(self, rhs: Self) -> bool {
        self.0 <= rhs.0
    }
    fn finite(self) -> bool {
        self.0.is_finite()
    }
    fn decimal(units: i64, places: u8) -> Self {
        if places == 0 {
            return F64(units as f64);
        }
        F64(units as f64 / 10f64.powi(places as i32))
    }
    fn rounded(self) -> Self {
        F64(self.0.round())
    }
    fn root(self) -> Self {
        F64(self.0.sqrt())
    }
    fn floored(self) -> i128 {
        self.0.floor() as i128
    }
    fn nearest(self) -> i64 {
        self.0.round_ties_even() as i64
    }
    fn parse(text: &str) -> Option<Self> {
        text.parse().ok().map(F64)
    }
    fn shown(self) -> String {
        format!("{}", self.0)
    }
    fn fixed(self, places: u8) -> String {
        format!("{:.*}", places as usize, self.0)
    }
}

#[derive(Clone, Copy, Debug, PartialEq, PartialOrd)]
struct F32(f32);

impl Num for F32 {
    fn plus(self, rhs: Self) -> Self {
        F32(self.0 + rhs.0)
    }
    fn minus(self, rhs: Self) -> Self {
        F32(self.0 - rhs.0)
    }
    fn times(self, rhs: Self) -> Self {
        F32(self.0 * rhs.0)
    }
    fn over(self, rhs: Self) -> Self {
        F32(self.0 / rhs.0)
    }
    fn negated(self) -> Self {
        F32(-self.0)
    }
    fn below(self, rhs: Self) -> bool {
        self.0 < rhs.0
    }
    fn at_most(self, rhs: Self) -> bool {
        self.0 <= rhs.0
    }
    fn finite(self) -> bool {
        self.0.is_finite()
    }
    fn decimal(units: i64, places: u8) -> Self {
        if places == 0 {
            return F32(units as f32);
        }
        F32((units as f64 / 10f64.powi(places as i32)) as f32)
    }
    fn rounded(self) -> Self {
        F32(self.0.round())
    }
    fn root(self) -> Self {
        F32(self.0.sqrt())
    }
    fn floored(self) -> i128 {
        self.0.floor() as i128
    }
    fn nearest(self) -> i64 {
        self.0.round_ties_even() as i64
    }
    fn parse(text: &str) -> Option<Self> {
        text.parse().ok().map(F32)
    }
    fn shown(self) -> String {
        format!("{}", self.0)
    }
    fn fixed(self, places: u8) -> String {
        format!("{:.*}", places as usize, self.0)
    }
}

impl Single for F32 {
    type Wide = F64;

    fn widened(self) -> F64 {
        F64(self.0 as f64)
    }
    fn narrowed(wide: F64) -> Self {
        F32(wide.0 as f32)
    }
    fn word(self) -> u32 {
        self.0.to_bits()
    }
    fn of_word(word: u32) -> Self {
        F32(f32::from_bits(word))
    }
}

fn count(s: &str) -> f32 {
    Range::<F32>::parse(s).unwrap().num_combos().0
}

fn at(r: &Range<F32>, c1: u8, c2: u8) -> f32 {
    r.weights[combo_index(c1, c2)].0
}

#[test]
fn combo_counts() {
    assert_eq!(count("AA"), 6.0);
    assert_eq!(count("AKs"), 4.0);
    assert_eq!(count("AKo"), 12.0);
    assert_eq!(count("AK"), 16.0);
    assert_eq!(count("AhKh"), 1.0);
    assert_eq!(count("TT+"), 30.0); // TT JJ QQ KK AA
    assert_eq!(count("ATs+"), 16.0); // ATs AJs AQs AKs
    assert_eq!(count("99-66"), 24.0);
    assert_eq!(count("A5s-A2s"), 16.0);
    assert_eq!(count("T9s-87s"), 12.0); // T9s 98s 87s
    assert_eq!(count("AA,KK,QQ"), 18.0);
}

#[test]
fn weights() {
    let r = Range::<F32>::parse("AA:0.5,KK").unwrap();
    let (a1, a2) = (make_card(12, 0), make_card(12, 1));
    let (k1, k2) = (make_card(11, 0), make_card(11, 1));
    assert!((at(&r, a1, a2) - 0.5).abs() < 1e-6);
    assert!((at(&r, k1, k2) - 1.0).abs() < 1e-6);
    // percentage form
    let r2 = Range::<F32>::parse("AA:50").unwrap();
    assert!((at(&r2, a1, a2) - 0.5).abs() < 1e-6);
}

#[test]
fn overwrite_later_tokens() {
    let r = Range::<F32>::parse("AA,AA:0.25").unwrap();
    let (a1, a2) = (make_card(12, 0), make_card(12, 1));
    assert!((at(&r, a1, a2) - 0.25).abs() < 1e-6);
}

#[test]
fn roundtrip_compact() {
    let src = "AA,KK:0.5,AKs,A5s-A2s,KQo:0.3,76s,AhQh:0.77";
    let r = Range::<F32>::parse(src).unwrap();
    let s = r.to_string_compact();
    let r2 = Range::<F32>::parse(&s).unwrap();
    for i in 0..NUM_COMBOS {
        assert!(
            (r.weights[i].0 - r2.weights[i].0).abs() < 1e-3,
            "mismatch at {i}: {} vs {} ({s})",
            r.weights[i].0,
            r2.weights[i].0
        );
    }
}

#[test]
fn rejects_garbage() {
    assert!(Range::<F32>::parse("XX").is_err());
    assert!(Range::<F32>::parse("AAs").is_err());
    assert!(Range::<F32>::parse("AKs:abc").is_err());
}

#[test]
fn weight_above_one_is_percent() {
    let r = Range::<F32>::parse("AKs:1.5").unwrap(); // interpreted as 1.5%
    let c1 = make_card(12, 0);
    let c2 = make_card(11, 0);
    assert!((at(&r, c1, c2) - 0.015).abs() < 1e-6);
}

#[test]
fn range_errors_name_what_is_wrong() {
    let fault = |s: &str| Range::<F32>::parse(s).err().unwrap();
    assert!(matches!(fault("AKs:abc").fault, RangeFault::BadWeight));
    assert!(matches!(fault("AKs:-1").fault, RangeFault::WeightOutOfRange));
    assert!(matches!(fault("AKs:101").fault, RangeFault::WeightOutOfRange));
    assert!(matches!(fault("AhAh").fault, RangeFault::RepeatedCard));
    assert!(matches!(fault("XX-66").fault, RangeFault::BadSpanStart));
    assert!(matches!(fault("99-XX").fault, RangeFault::BadSpanEnd));
    assert!(matches!(fault("AKs-AQo").fault, RangeFault::MixedSuitedness));
    assert!(matches!(fault("AKs-75s").fault, RangeFault::UnsupportedSpan));
    assert!(matches!(fault("XX+").fault, RangeFault::BadItem));
    assert!(matches!(fault("XX").fault, RangeFault::BadToken));
    assert!(matches!(fault("AAs").fault, RangeFault::PairMarker));
    assert_eq!(fault("XX").message(), "invalid range token: \"XX\"");
    assert_eq!(fault("AKs:101").message(), "weight out of range in token \"AKs:101\"");
}

#[test]
fn empty_range_has_no_combos() {
    let r = Range::<F32>::parse("").unwrap();
    assert!(r.is_empty());
    assert_eq!(r.num_combos().0, 0.0);
    assert_eq!(r.to_string_compact(), "");
    assert!(!Range::<F32>::parse("22").unwrap().is_empty());
}

#[test]
fn compact_text_groups_classes() {
    let text = |s: &str| Range::<F32>::parse(s).unwrap().to_string_compact();
    assert_eq!(text("AA"), "AA");
    assert_eq!(text("AKs:0.5"), "AKs:0.5");
    assert_eq!(text("AhKh"), "AhKh");
}

#[test]
fn exact_weights_stay_exact() {
    let r = Range::<Nano>::parse("AA:0.25,KK:50").unwrap();
    let (a1, a2) = (make_card(12, 0), make_card(12, 1));
    let (k1, k2) = (make_card(11, 0), make_card(11, 1));
    assert_eq!(r.weights[combo_index(a1, a2)].count, 250_000_000);
    assert_eq!(r.weights[combo_index(k1, k2)].count, 500_000_000);
    assert_eq!(r.num_combos().count, 4_500_000_000);
}

/// The two ends of a span may stand in either order.
#[test]
fn span_ends_may_swap() {
    for (a, b) in [("99", "66"), ("A5s", "A2s"), ("T9s", "54s"), ("KTo", " K8o")] {
        let one = Range::<F32>::parse(&format!("{a}-{}", b.trim())).ok().unwrap();
        let other = Range::<F32>::parse(&format!("{}-{a}", b.trim())).ok().unwrap();
        assert!(one.weights == other.weights);
    }
    assert!(Range::<F32>::parse("AKs-75s").is_err() && Range::<F32>::parse("75s-AKs").is_err());
}

/// A text behind another is laid over it, token by token.
#[test]
fn later_texts_overwrite() {
    let (a, b) = ("AA,KK:0.5,QQ", "KK:0,QQ:0.25");
    let first = Range::<F32>::parse(a).ok().unwrap();
    let second = Range::<F32>::parse(b).ok().unwrap();
    let named = Range::<F32>::parse("KK,QQ").ok().unwrap();
    for sep in [",", " ", ";", "\t", "\n"] {
        let both = Range::<F32>::parse(&format!("{a}{sep}{b}")).ok().unwrap();
        for i in 0..NUM_COMBOS {
            let want = if named.weights[i].0 > 0.0 { &second } else { &first };
            assert!(both.weights[i] == want.weights[i]);
        }
    }
}

/// The classes of two ranks split the deck's combos.
#[test]
fn classes_split_the_combos() {
    let mut seen = vec![0; NUM_COMBOS];
    let mut lists = 0;
    for hi in 0..13u8 {
        for lo in 0..=hi {
            for s in [Suitedness::Pair, Suitedness::Suited, Suitedness::Offsuit] {
                let list = class_combo_list(hi, lo, s);
                lists += usize::from(!list.is_empty());
                for (c1, c2) in list {
                    seen[combo_index(c1, c2)] += 1;
                }
            }
        }
    }
    assert_eq!(lists, 169);
    assert!(seen.iter().all(|&n| n == 1));
}

/// A compact text is read back to within a thousandth, whatever the weights.
#[test]
fn compact_texts_are_read_near() {
    let mut range = Range::<Nano>::parse("22+,A2s+").ok().unwrap();
    for (i, w) in range.weights.iter_mut().enumerate() {
        if w.count > 0 {
            w.count = (i as i64 * 7_654_321) % 1_000_000_001;
        }
    }
    let back = Range::<Nano>::parse(&range.to_string_compact()).ok().unwrap();
    for i in 0..NUM_COMBOS {
        assert!((back.weights[i].count - range.weights[i].count).abs() < 1_000_000);
    }
}

/// Sizes are read back as they were written.
#[test]
fn sizes_are_read_back() {
    let pct = |units, places| BetSize::PotPct(Nano::decimal(units, places));
    let sizes = vec![
        pct(33, 0),
        pct(66_666_667, 6),
        BetSize::PrevMult(Nano::decimal(25, 1)),
        BetSize::AllIn,
        pct(100, 0),
    ];
    let text = sizes_to_string(&sizes);
    assert_eq!(text, "33 66.666667 2.5x a 100");
    assert!(parse_sizes::<Nano>(&text).ok().unwrap() == sizes);
    assert_eq!(sizes_to_string::<Nano>(&[]), "");
    assert!(parse_sizes::<Nano>("").ok().unwrap().is_empty());
}
