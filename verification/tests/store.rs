//! Arenas and frequencies.

use solver::num::{Num, Single};
use solver::rake::{normalize_freqs, rake_to_target, FreqError};
use solver::store::{decode_i16, decode_u16, encode_i16, encode_u16, Store};

#[derive(Clone, Copy, Debug, PartialEq, PartialOrd)]
struct F64(f64);

impl Num for F64 {
    fn plus(self, rhs: Self) -> Self {
        F64(self.0 + rhs.0)
    }
    fn minus(self, rhs: Self) -> Self {
        F64(self.0 - rhs.0)
    }
    fn times(self, rhs: Self) -> Self {
        F64(self.0 * rhs.0)
    }
    fn over(self, rhs: Self) -> Self {
        F64(self.0 / rhs.0)
    }
    fn negated(self) -> Self {
        F64(-self.0)
    }
    fn below(self, rhs: Self) -> bool {
        self.0 < rhs.0
    }
    fn at_most(self, rhs: Self) -> bool {
        self.0 <= rhs.0
    }
    fn finite(self) -> bool {
        self.0.is_finite()
    }
    fn decimal(units: i64, places: u8) -> Self {
        if places == 0 {
            return F64(units as f64);
        }
        F64(units as f64 / 10f64.powi(places as i32))
    }
    fn rounded(self) -> Self {
        F64(self.0.round())
    }
    fn root(self) -> Self {
        F64(self.0.sqrt())
    }
    fn floored(self) -> i128 {
        self.0.floor() as i128
    }
    fn nearest(self) -> i64 {
        self.0.round_ties_even() as i64
    }
    fn parse(text: &str) -> Option<Self> {
        text.parse().ok().map(F64)
    }
    fn shown(self) -> String {
        format!("{}", self.0)
    }
    fn fixed(self, places: u8) -> String {
        format!("{:.*}", places as usize, self.0)
    }
}

#[derive(Clone, Copy, Debug, PartialEq, PartialOrd)]
struct F32(f32);

impl Num for F32 {
    fn plus(self, rhs: Self) -> Self {
        F32(self.0 + rhs.0)
    }
    fn minus(self, rhs: Self) -> Self {
        F32(self.0 - rhs.0)
    }
    fn times(self, rhs: Self) -> Self {
        F32(self.0 * rhs.0)
    }
    fn over(self, rhs: Self) -> Self {
        F32(self.0 / rhs.0)
    }
    fn negated(self) -> Self {
        F32(-self.0)
    }
    fn below(self, rhs: Self) -> bool {
        self.0 < rhs.0
    }
    fn at_most(self, rhs: Self) -> bool {
        self.0 <= rhs.0
    }
    fn finite(self) -> bool {
        self.0.is_finite()
    }
    fn decimal(units: i64, places: u8) -> Self {
        if places == 0 {
            return F32(units as f32);
        }
        F32((units as f64 / 10f64.powi(places as i32)) as f32)
    }
    fn rounded(self) -> Self {
        F32(self.0.round())
    }
    fn root(self) -> Self {
        F32(self.0.sqrt())
    }
    fn floored(self) -> i128 {
        self.0.floor() as i128
    }
    fn nearest(self) -> i64 {
        self.0.round_ties_even() as i64
    }
    fn parse(text: &str) -> Option<Self> {
        text.parse().ok().map(F32)
    }
    fn shown(self) -> String {
        format!("{}", self.0)
    }
    fn fixed(self, places: u8) -> String {
        format!("{:.*}", places as usize, self.0)
    }
}

impl Single for F32 {
    type Wide = F64;

    fn widened(self) -> F64 {
        F64(self.0 as f64)
    }
    fn narrowed(wide: F64) -> Self {
        F32(wide.0 as f32)
    }
    fn word(self) -> u32 {
        self.0.to_bits()
    }
    fn of_word(word: u32) -> Self {
        F32(f32::from_bits(word))
    }
}

fn wrap(v: &[f32]) -> Vec<F32> {
    v.iter().map(|&x| F32(x)).collect()
}

#[test]
fn i16_roundtrip_accuracy() {
    let src: Vec<f32> = (0..1000)
        .map(|i| ((i as f32 * 0.7).sin() * 1500.0) - 200.0)
        .collect();
    let (q, scale) = encode_i16(&wrap(&src));
    let back = decode_i16(&q, scale);
    let tol = scale.0 / 32767.0 * 0.5 + 1e-6;
    for (a, b) in src.iter().zip(back.iter()) {
        assert!((a - b.0).abs() <= tol, "roundtrip error {a} vs {} (tol {tol})", b.0);
    }
    // re-encoding the decoded values is exactly stable
    let (q2, scale2) = encode_i16(&back);
    assert_eq!(scale, scale2);
    assert_eq!(q, q2);
}

#[test]
fn u16_roundtrip_accuracy() {
    let src: Vec<f32> = (0..1000).map(|i| (i as f32 * 0.37).cos().abs() * 9.5).collect();
    let (q, scale) = encode_u16(&wrap(&src));
    let back = decode_u16(&q, scale);
    let tol = scale.0 / 65535.0 * 0.5 + 1e-6;
    for (a, b) in src.iter().zip(back.iter()) {
        assert!((a - b.0).abs() <= tol, "roundtrip error {a} vs {} (tol {tol})", b.0);
    }
}

#[test]
fn zero_and_nonfinite_blocks() {
    let (q, scale) = encode_i16(&wrap(&[0.0; 4]));
    assert_eq!(scale.0, 0.0);
    assert_eq!(q, vec![0; 4]);
    let (q, scale) = encode_i16(&wrap(&[f32::NAN, f32::INFINITY]));
    assert_eq!(scale.0, 0.0);
    assert_eq!(q, vec![0; 2]);
}

#[test]
fn a_written_block_is_read_back() {
    let src = wrap(&[1.0, -2.0, 0.5]);
    let mut full: Store<F32> = Store::full(8);
    full.write_f32(1, 3, &src);
    assert_eq!(full.read_f32(1, 3, 3), src);
    assert_eq!(full.read_f32(0, 0, 3), wrap(&[0.0, 0.0, 0.0]));

    let mut packed: Store<F32> = Store::i16(8, 4);
    packed.write_f32(1, 3, &src);
    let back = packed.read_f32(1, 3, 3);
    for (a, b) in src.iter().zip(back.iter()) {
        assert!((a.0 - b.0).abs() <= 2.0 / 32767.0);
    }
    assert_eq!(packed.read_f32(0, 0, 3), wrap(&[0.0, 0.0, 0.0]));
}

#[test]
fn stores_count_their_bytes() {
    let full: Store<F32> = Store::full(10);
    assert_eq!(full.bytes(), 40);
    let packed: Store<F32> = Store::u16(10, 3);
    assert_eq!(packed.bytes(), 32);
    assert_eq!(packed.len(), 10);
}

/// A hand whose entire solved mass sits on zero-target actions can't be
/// raked; it must be assigned the target distribution — never uniform over
/// all actions, which would leak forbidden actions into the lock.
#[test]
fn rake_assigns_target_to_unrakeable_hands() {
    // 2 actions x 3 hands; hand 2 is pure on action 1 (the forbidden one)
    let mut sigma = wrap(&[
        0.6, 0.3, 0.0, // action 0
        0.4, 0.7, 1.0, // action 1
    ]);
    let reach = wrap(&[1.0, 1.0, 1.0]);
    let target = wrap(&[1.0, 0.0]);
    rake_to_target(&mut sigma, 2, 3, &reach, &target);
    for i in 0..3 {
        assert!(
            (sigma[i].0 - 1.0).abs() < 1e-6,
            "hand {i} action0 should be 1.0, got {}",
            sigma[i].0
        );
        assert!(
            sigma[3 + i].0.abs() < 1e-6,
            "hand {i} action1 should be 0.0, got {}",
            sigma[3 + i].0
        );
    }
}

#[test]
fn frequencies_are_scaled_or_refused() {
    assert_eq!(normalize_freqs(&wrap(&[1.0, 3.0]), 2).unwrap(), wrap(&[0.25, 0.75]));
    assert_eq!(
        normalize_freqs(&wrap(&[1.0]), 2).err().unwrap().message(),
        "expected 2 action frequencies, got 1"
    );
    assert!(matches!(normalize_freqs(&wrap(&[-1.0, 1.0]), 2), Err(FreqError::Invalid)));
    assert!(matches!(normalize_freqs(&wrap(&[f32::NAN, 1.0]), 2), Err(FreqError::Invalid)));
    assert!(matches!(normalize_freqs(&wrap(&[0.0, 0.0]), 2), Err(FreqError::AllZero)));
}
