//! The 169 canonical starting hands: pairs, suited and offsuit hands.
//!
//! Class `hi * 13 + lo` is the suited hand of two ranks (the pair, where they
//! are the same), and class `lo * 13 + hi` the offsuit hand.

use crate::cards;
use crate::cards::{rank, rank_char, suit, Card};
use crate::num::Num;
use crate::text::string_of;
use vstd::prelude::*;

verus! {

pub const NUM_CLASSES: usize = 169;

/// The class of two ranks, the higher one first.
pub open spec fn class_number(hi: int, lo: int, suited: bool) -> int {
    if suited {
        hi * 13 + lo
    } else {
        lo * 13 + hi
    }
}

pub fn class_index(hi: u8, lo: u8, suited: bool) -> (r: usize)
    requires
        lo <= hi < 13,
    ensures
        r == class_number(hi as int, lo as int, suited),
        r < NUM_CLASSES,
{
    if suited {
        hi as usize * 13 + lo as usize
    } else {
        lo as usize * 13 + hi as usize
    }
}

/// The class of a hand.
pub open spec fn class_of_cards(c1: int, c2: int) -> int {
    let r1 = c1 / 4;
    let r2 = c2 / 4;
    let suited = c1 % 4 == c2 % 4;
    if r1 >= r2 {
        class_number(r1, r2, suited)
    } else {
        class_number(r2, r1, suited)
    }
}

pub fn class_of(c1: Card, c2: Card) -> (r: usize)
    requires
        c1 < 52,
        c2 < 52,
    ensures
        r == class_of_cards(c1 as int, c2 as int),
        r < NUM_CLASSES,
{
    let r1: u8 = rank(c1);
    let r2: u8 = rank(c2);
    let suited: bool = suit(c1) == suit(c2);
    if r1 >= r2 {
        class_index(r1, r2, suited)
    } else {
        class_index(r2, r1, suited)
    }
}

/// The ranks of a class, the higher one first, and whether they are suited.
pub fn class_parts(k: usize) -> (r: (u8, u8, bool))
    requires
        k < NUM_CLASSES,
    ensures
        r.1 <= r.0 < 13,
        r.2 ==> r.1 < r.0,
        k == class_number(r.0 as int, r.1 as int, r.2),
{
    let a: u8 = (k / 13) as u8;
    let b: u8 = (k % 13) as u8;
    if a > b {
        (a, b, true)
    } else {
        (b, a, false)
    }
}

/// What a class is called: "AA", "AKs", "AKo".
pub open spec fn class_text(k: int) -> Seq<char> {
    let a = k / 13;
    let b = k % 13;
    if a == b {
        seq![cards::rank_name(a), cards::rank_name(b)]
    } else if a > b {
        seq![cards::rank_name(a), cards::rank_name(b), 's']
    } else {
        seq![cards::rank_name(b), cards::rank_name(a), 'o']
    }
}

pub fn class_label(k: usize) -> (r: String)
    requires
        k < NUM_CLASSES,
    ensures
        r@ == class_text(k as int),
{
    let a: u8 = (k / 13) as u8;
    let b: u8 = (k % 13) as u8;
    let mut out: Vec<char> = Vec::new();
    if a == b {
        out.push(rank_char(a));
        out.push(rank_char(b));
    } else if a > b {
        out.push(rank_char(a));
        out.push(rank_char(b));
        out.push('s');
    } else {
        out.push(rank_char(b));
        out.push(rank_char(a));
        out.push('o');
    }
    assert(out@ =~= class_text(k as int));
    string_of(out.as_slice())
}

/// How many combos a class has.
pub open spec fn class_combos(k: int) -> int {
    if k / 13 == k % 13 {
        6
    } else if k / 13 > k % 13 {
        4
    } else {
        12
    }
}

/// How likely a class is to be dealt.
pub open spec fn class_chance<S: Num>(k: int) -> S {
    S::decimal_spec(class_combos(k) as i64, 0).over_spec(S::decimal_spec(1326, 0))
}

pub fn class_prob<S: Num>(k: usize) -> (r: S)
    requires
        k < NUM_CLASSES,
    ensures
        r == class_chance::<S>(k as int),
{
    let a: usize = k / 13;
    let b: usize = k % 13;
    let combos: i64 = if a == b {
        6
    } else if a > b {
        4
    } else {
        12
    };
    S::decimal(combos, 0).over(S::decimal(1326, 0))
}

/// Law: different hands of two ranks have different classes, and each class
/// is that of such a hand.
pub proof fn law_class_number_is_injective(
    hi: int,
    lo: int,
    suited: bool,
    hi2: int,
    lo2: int,
    suited2: bool,
)
    requires
        0 <= lo <= hi < 13,
        0 <= lo2 <= hi2 < 13,
        suited ==> lo < hi,
        suited2 ==> lo2 < hi2,
        class_number(hi, lo, suited) == class_number(hi2, lo2, suited2),
    ensures
        hi == hi2,
        lo == lo2,
        suited == suited2,
{
}

/// The combos of the first `n` classes.
pub open spec fn combos_below(n: int) -> int
    decreases n,
{
    if n <= 0 {
        0
    } else {
        combos_below(n - 1) + class_combos(n - 1)
    }
}

/// Law: the classes hold all 1326 combos.
pub proof fn law_classes_hold_all_combos()
    ensures
        combos_below(169) == 1326,
{
    lemma_row(0);
    lemma_row(1);
    lemma_row(2);
    lemma_row(3);
    lemma_row(4);
    lemma_row(5);
    lemma_row(6);
    lemma_row(7);
    lemma_row(8);
    lemma_row(9);
    lemma_row(10);
    lemma_row(11);
    lemma_row(12);
}

proof fn lemma_row(a: int)
    requires
        0 <= a < 13,
    ensures
        combos_below(13 * (a + 1)) == combos_below(13 * a) + 4 * a + 6 + 12 * (12 - a),
{
    reveal_with_fuel(combos_below, 14);
    assert forall|b: int| 0 <= b < 13 implies #[trigger] class_combos(13 * a + b) == if a == b {
        6int
    } else if a > b {
        4
    } else {
        12
    } by {
        vstd::arithmetic::div_mod::lemma_fundamental_div_mod_converse(13 * a + b, 13, a, b);
    }
    assert(class_combos(13 * a + 12) + class_combos(13 * a + 11) + class_combos(13 * a + 10)
        + class_combos(13 * a + 9) + class_combos(13 * a + 8) + class_combos(13 * a + 7)
        + class_combos(13 * a + 6) + class_combos(13 * a + 5) + class_combos(13 * a + 4)
        + class_combos(13 * a + 3) + class_combos(13 * a + 2) + class_combos(13 * a + 1)
        + class_combos(13 * a + 0) == 4 * a + 6 + 12 * (12 - a));
}

} // verus!
