//! Range parsing and formatting (standard solver text syntax: AA, ATs+, QQ:0.5).
//!
//! Supported tokens (comma or whitespace separated, each with optional `:weight`):
//! - Pairs: `AA`, `TT+`, `99-66`
//! - Suited/offsuit/both: `AKs`, `AKo`, `AK`, `ATs+`, `A5s-A2s`, `T9s-54s` (same-gap run)
//! - Specific combos: `AhKh`, `AsAd`
//! - Weights: `AA:0.5` or `AA:50` (values > 1 are treated as percentages)
//!
//! Later tokens overwrite earlier ones for the combos they cover.

use crate::cards::{
    combo_index, combo_to_string, make_card, rank_char, rank_from_char, suit_from_char, Card,
    NUM_COMBOS,
};
use crate::cards;
use crate::num::{magnitude, total, Num};
use crate::num;
use crate::text::{
    chars_of, find_first, find_last, part, push_all, string_of, strip, to_lower, trim,
};
use crate::text;
use vstd::prelude::*;

verus! {

/// What is wrong with a range text.
#[derive(Clone, Copy, Debug, PartialEq, Eq, Structural)]
pub enum RangeFault {
    /// The weight is not a number.
    BadWeight,
    /// The weight is not between 0 and 1 (or 0 and 100 as a percentage).
    WeightOutOfRange,
    /// A combo names one card twice.
    RepeatedCard,
    /// The start of a span is no hand class.
    BadSpanStart,
    /// The end of a span is no hand class.
    BadSpanEnd,
    /// The two ends of a span differ in suitedness.
    MixedSuitedness,
    /// The two ends of a span are not connected in a supported way.
    UnsupportedSpan,
    /// What stands before `+` is no hand class.
    BadItem,
    /// The token is no hand class.
    BadToken,
    /// A pair carries a suitedness marker.
    PairMarker,
    /// A suitedness marker is neither `s` nor `o`.
    BadMarker,
}

/// A fault, with the text it was found in.
#[derive(Debug)]
pub struct RangeError {
    pub fault: RangeFault,
    pub text: String,
}

/// The cards of a combo.
pub type Combo = (Card, Card);

/// What reading a text leads to: a value, or a fault and the text it is in.
pub type Read<T> = Result<T, (RangeFault, Seq<char>)>;

#[derive(Clone, Copy, Debug, PartialEq, Eq, Structural)]
pub enum Suitedness {
    Pair,
    Suited,
    Offsuit,
}

/// The suits of the combos of a class, in order.
pub open spec fn suit_pairs(s: Suitedness) -> Seq<(int, int)> {
    match s {
        Suitedness::Pair => seq![(1int, 0int), (2, 0), (2, 1), (3, 0), (3, 1), (3, 2)],
        Suitedness::Suited => seq![(0int, 0int), (1, 1), (2, 2), (3, 3)],
        Suitedness::Offsuit => seq![
            (0int, 1int),
            (0, 2),
            (0, 3),
            (1, 0),
            (1, 2),
            (1, 3),
            (2, 0),
            (2, 1),
            (2, 3),
            (3, 0),
            (3, 1),
            (3, 2),
        ],
    }
}

/// The combos of a class. There are none of a pair of two ranks, nor of a
/// suited or offsuit hand of one rank.
pub open spec fn class_combos(hi: int, lo: int, s: Suitedness) -> Seq<Combo> {
    if (s == Suitedness::Pair) == (hi == lo) {
        let pairs = suit_pairs(s);
        Seq::new(
            pairs.len(),
            |i: int| ((hi * 4 + pairs[i].0) as u8, (lo * 4 + pairs[i].1) as u8),
        )
    } else {
        Seq::empty()
    }
}

/// The name of a class.
pub open spec fn class_name(hi: int, lo: int, s: Suitedness) -> Seq<char> {
    match s {
        Suitedness::Pair => seq![cards::rank_name(hi), cards::rank_name(lo)],
        Suitedness::Suited => seq![cards::rank_name(hi), cards::rank_name(lo), 's'],
        Suitedness::Offsuit => seq![cards::rank_name(hi), cards::rank_name(lo), 'o'],
    }
}

/// The name of a class, such as "AKs".
pub fn class_label(hi: u8, lo: u8, s: Suitedness) -> (r: String)
    requires
        hi < 13,
        lo < 13,
    ensures
        r@ == class_name(hi as int, lo as int, s),
{
    let mut out = String::new();
    out.push(rank_char(hi));
    out.push(rank_char(lo));
    match s {
        Suitedness::Pair => {},
        Suitedness::Suited => out.push('s'),
        Suitedness::Offsuit => out.push('o'),
    }
    assert(out@ =~= class_name(hi as int, lo as int, s));
    out
}

/// All combos of a hand class. Empty if the class is invalid (e.g. suited pair).
pub fn class_combo_list(hi: u8, lo: u8, s: Suitedness) -> (r: Vec<Combo>)
    requires
        hi < 13,
        lo < 13,
    ensures
        r@ == class_combos(hi as int, lo as int, s),
{
    let mut out: Vec<Combo> = Vec::new();
    match s {
        Suitedness::Pair => {
            if hi != lo {
                return out;
            }
            let t: [(u8, u8); 6] = [(1, 0), (2, 0), (2, 1), (3, 0), (3, 1), (3, 2)];
            push_suits(&mut out, hi, lo, t.as_slice());
        },
        Suitedness::Suited => {
            if hi == lo {
                return out;
            }
            let t: [(u8, u8); 4] = [(0, 0), (1, 1), (2, 2), (3, 3)];
            push_suits(&mut out, hi, lo, t.as_slice());
        },
        Suitedness::Offsuit => {
            if hi == lo {
                return out;
            }
            let t: [(u8, u8); 12] = [
                (0, 1),
                (0, 2),
                (0, 3),
                (1, 0),
                (1, 2),
                (1, 3),
                (2, 0),
                (2, 1),
                (2, 3),
                (3, 0),
                (3, 1),
                (3, 2),
            ];
            push_suits(&mut out, hi, lo, t.as_slice());
        },
    }
    assert(out@ =~= class_combos(hi as int, lo as int, s));
    out
}

fn push_suits(out: &mut Vec<Combo>, hi: u8, lo: u8, suits: &[(u8, u8)])
    requires
        hi < 13,
        lo < 13,
        forall|i: int| 0 <= i < suits@.len() ==> (#[trigger] suits@[i]).0 < 4 && suits@[i].1 < 4,
        old(out)@.len() == 0,
    ensures
        final(out)@ == Seq::new(
            suits@.len(),
            |i: int| ((hi * 4 + suits@[i].0) as u8, (lo * 4 + suits@[i].1) as u8),
        ),
{
    let mut i: usize = 0;
    while i < suits.len()
        invariant
            i <= suits@.len(),
            hi < 13,
            lo < 13,
            forall|i: int|
                0 <= i < suits@.len() ==> (#[trigger] suits@[i]).0 < 4 && suits@[i].1 < 4,
            out@.len() == i,
            forall|k: int|
                0 <= k < i ==> #[trigger] out@[k] == (
                    (hi * 4 + suits@[k].0) as u8,
                    (lo * 4 + suits@[k].1) as u8,
                ),
        decreases suits@.len() - i,
    {
        out.push((make_card(hi, suits[i].0), make_card(lo, suits[i].1)));
        i = i + 1;
    }
    assert(out@ =~= Seq::new(
        suits@.len(),
        |i: int| ((hi * 4 + suits@[i].0) as u8, (lo * 4 + suits@[i].1) as u8),
    ));
}

// ---------------------------------------------------------------------------
// Reading one item
// ---------------------------------------------------------------------------

/// The combos that a class with an optional marker stands for. A class of two
/// ranks without a marker stands for its suited and its offsuit combos.
pub open spec fn marked_combos(hi: int, lo: int, marker: Option<char>) -> Read<Seq<Combo>> {
    if hi == lo {
        if marker is Some {
            Err((RangeFault::PairMarker, seq![cards::rank_name(hi), cards::rank_name(lo)]))
        } else {
            Ok(class_combos(hi, lo, Suitedness::Pair))
        }
    } else {
        match marker {
            None => Ok(
                class_combos(hi, lo, Suitedness::Suited) + class_combos(
                    hi,
                    lo,
                    Suitedness::Offsuit,
                ),
            ),
            Some(c) => if c == 's' {
                Ok(class_combos(hi, lo, Suitedness::Suited))
            } else if c == 'o' {
                Ok(class_combos(hi, lo, Suitedness::Offsuit))
            } else {
                Err((RangeFault::BadMarker, seq![c]))
            },
        }
    }
}

/// A hand class as written: the higher rank, the lower rank and the marker.
pub type Class = (u8, u8, Option<char>);

/// The hand class that a text such as "AKs" or "TT" names.
pub open spec fn class_named(s: Seq<char>) -> Option<Class> {
    if s.len() < 2 || s.len() > 3 {
        None
    } else {
        match (cards::rank_named(s[0]), cards::rank_named(s[1])) {
            (Some(a), Some(b)) => {
                let hi = if a >= b {
                    a
                } else {
                    b
                };
                let lo = if a >= b {
                    b
                } else {
                    a
                };
                if s.len() == 2 {
                    Some((hi, lo, None))
                } else if text::lower(s[2]) == 's' || text::lower(s[2]) == 'o' {
                    Some((hi, lo, Some(text::lower(s[2]))))
                } else {
                    None
                }
            },
            _ => None,
        }
    }
}

/// How the classes of a run follow from one another.
#[derive(Clone, Copy)]
pub enum Run {
    /// Pairs.
    Pairs,
    /// One high card with varying low cards; the pair is left out.
    Under { hi: u8 },
    /// Two ranks at a fixed distance.
    Gap { gap: u8 },
}

/// The combos of the class with number `r` of a run.
pub open spec fn run_class(run: Run, r: int, marker: Option<char>) -> Read<Seq<Combo>> {
    match run {
        Run::Pairs => marked_combos(r, r, marker),
        Run::Under { hi } => if r == hi {
            Ok(Seq::empty())
        } else {
            marked_combos(hi as int, r, marker)
        },
        Run::Gap { gap } => marked_combos(r, r - gap, marker),
    }
}

/// The combos of the classes `from` up to, not including, `to`.
pub open spec fn run_combos(run: Run, from: int, to: int, marker: Option<char>) -> Read<Seq<Combo>>
    decreases to - from,
{
    if to <= from {
        Ok(Seq::empty())
    } else {
        match run_combos(run, from, to - 1, marker) {
            Err(e) => Err(e),
            Ok(rest) => match run_class(run, to - 1, marker) {
                Err(e) => Err(e),
                Ok(more) => Ok(rest + more),
            },
        }
    }
}

pub open spec fn least(a: u8, b: u8) -> int {
    if a >= b {
        b as int
    } else {
        a as int
    }
}

pub open spec fn most(a: u8, b: u8) -> int {
    if a >= b {
        a as int
    } else {
        b as int
    }
}

/// The combos between two classes: from pair to pair, from low card to low
/// card under one high card, or along a fixed gap.
pub open spec fn span_combos(a: Class, b: Class, item: Seq<char>) -> Read<Seq<Combo>> {
    let (h1, l1, m1) = a;
    let (h2, l2, m2) = b;
    if m1 != m2 {
        Err((RangeFault::MixedSuitedness, item))
    } else if h1 == l1 && h2 == l2 {
        run_combos(Run::Pairs, least(h1, h2), most(h1, h2) + 1, m1)
    } else if h1 == h2 {
        run_combos(Run::Under { hi: h1 }, least(l1, l2), most(l1, l2) + 1, m1)
    } else if h1 - l1 == h2 - l2 {
        run_combos(Run::Gap { gap: (h1 - l1) as u8 }, least(h1, h2), most(h1, h2) + 1, m1)
    } else {
        Err((RangeFault::UnsupportedSpan, item))
    }
}

/// Whether a text is a specific combo such as "AhKh".
pub open spec fn is_combo_text(s: Seq<char>) -> bool {
    &&& s.len() == 4
    &&& cards::rank_named(s[0]) is Some
    &&& cards::suit_named(s[1]) is Some
    &&& cards::rank_named(s[2]) is Some
    &&& cards::suit_named(s[3]) is Some
}

/// The combos that an item stands for.
pub open spec fn item_combos(text: Seq<char>) -> Read<Seq<Combo>> {
    let item = text::trimmed(text);
    let dash = text::first_of(item, '-');
    if is_combo_text(item) {
        let c1 = cards::card_named(item[0], item[1])->Some_0;
        let c2 = cards::card_named(item[2], item[3])->Some_0;
        if c1 == c2 {
            Err((RangeFault::RepeatedCard, item))
        } else {
            Ok(seq![(c1, c2)])
        }
    } else if dash < item.len() {
        match (class_named(text::trimmed(item.take(dash))), class_named(text::trimmed(item.skip(dash + 1)))) {
            (None, _) => Err((RangeFault::BadSpanStart, item)),
            (_, None) => Err((RangeFault::BadSpanEnd, item)),
            (Some(a), Some(b)) => span_combos(a, b, item),
        }
    } else if item.len() > 0 && item.last() == '+' {
        match class_named(text::trimmed(item.drop_last())) {
            None => Err((RangeFault::BadItem, item)),
            Some((hi, lo, marker)) => if hi == lo {
                run_combos(Run::Pairs, hi as int, 13, marker)
            } else {
                run_combos(Run::Under { hi }, lo as int, hi as int, marker)
            },
        }
    } else {
        match class_named(item) {
            None => Err((RangeFault::BadToken, item)),
            Some((hi, lo, marker)) => marked_combos(hi as int, lo as int, marker),
        }
    }
}

/// Whether exec result and spec result agree.
pub open spec fn reads_as(r: Result<Vec<Combo>, RangeError>, g: Read<Seq<Combo>>) -> bool {
    match r {
        Ok(v) => g == Read::<Seq<Combo>>::Ok(v@),
        Err(e) => g == Read::<Seq<Combo>>::Err((e.fault, e.text@)),
    }
}

/// Every combo consists of two different cards.
pub open spec fn real_combos(s: Seq<Combo>) -> bool {
    forall|i: int|
        0 <= i < s.len() ==> cards::is_card((#[trigger] s[i]).0 as int) && cards::is_card(s[i].1 as int) && s[i].0
            != s[i].1
}

/// The combos of a class are combos of two different cards.
pub proof fn lemma_class_real(hi: int, lo: int, s: Suitedness)
    requires
        0 <= hi < 13,
        0 <= lo < 13,
    ensures
        real_combos(class_combos(hi, lo, s)),
{
}

/// The combos of a marked class are combos of two different cards.
pub proof fn lemma_marked_real(hi: int, lo: int, marker: Option<char>)
    requires
        0 <= hi < 13,
        0 <= lo < 13,
    ensures
        marked_combos(hi, lo, marker) matches Ok(v) ==> real_combos(v),
{
    lemma_class_real(hi, lo, Suitedness::Pair);
    lemma_class_real(hi, lo, Suitedness::Suited);
    lemma_class_real(hi, lo, Suitedness::Offsuit);
}

fn fail(fault: RangeFault, text: &Vec<char>) -> (r: Result<Vec<Combo>, RangeError>)
    ensures
        reads_as(r, Err((fault, text@))),
{
    Err(RangeError { fault, text: string_of(text) })
}

/// The combos that a class with an optional marker stands for.
pub fn expand_class(hi: u8, lo: u8, marker: Option<char>) -> (r: Result<Vec<Combo>, RangeError>)
    requires
        hi < 13,
        lo < 13,
    ensures
        reads_as(r, marked_combos(hi as int, lo as int, marker)),
        r matches Ok(v) ==> real_combos(v@),
{
    proof {
        lemma_marked_real(hi as int, lo as int, marker);
    }
    if hi == lo {
        if marker.is_some() {
            let mut t: Vec<char> = Vec::new();
            t.push(rank_char(hi));
            t.push(rank_char(lo));
            assert(t@ =~= seq![cards::rank_name(hi as int), cards::rank_name(lo as int)]);
            return fail(RangeFault::PairMarker, &t);
        }
        return Ok(class_combo_list(hi, lo, Suitedness::Pair));
    }
    match marker {
        None => {
            let mut out = class_combo_list(hi, lo, Suitedness::Suited);
            let mut more = class_combo_list(hi, lo, Suitedness::Offsuit);
            out.append(&mut more);
            Ok(out)
        },
        Some(c) => if c == 's' {
            Ok(class_combo_list(hi, lo, Suitedness::Suited))
        } else if c == 'o' {
            Ok(class_combo_list(hi, lo, Suitedness::Offsuit))
        } else {
            let mut t: Vec<char> = Vec::new();
            t.push(c);
            assert(t@ =~= seq![c]);
            fail(RangeFault::BadMarker, &t)
        },
    }
}

/// The hand class that a text such as "AKs" or "TT" names.
pub fn parse_class(s: &[char]) -> (r: Option<Class>)
    ensures
        r == class_named(s@),
        r matches Some((hi, lo, m)) ==> lo <= hi < 13,
{
    if s.len() < 2 || s.len() > 3 {
        return None;
    }
    let a: u8 = match rank_from_char(s[0]) {
        Some(a) => a,
        None => return None,
    };
    let b: u8 = match rank_from_char(s[1]) {
        Some(b) => b,
        None => return None,
    };
    let (hi, lo) = if a >= b {
        (a, b)
    } else {
        (b, a)
    };
    if s.len() == 2 {
        return Some((hi, lo, None));
    }
    let m: char = to_lower(s[2]);
    if m != 's' && m != 'o' {
        return None;
    }
    Some((hi, lo, Some(m)))
}

proof fn lemma_run_stop(run: Run, from: int, k: int, to: int, marker: Option<char>)
    requires
        k <= to,
        run_combos(run, from, k, marker) is Err,
    ensures
        run_combos(run, from, to, marker) == run_combos(run, from, k, marker),
    decreases to - k,
{
    if k < to {
        lemma_run_stop(run, from, k, to - 1, marker);
    }
}

fn expand_run(run: Run, from: u8, to: u8, marker: Option<char>) -> (r: Result<
    Vec<Combo>,
    RangeError,
>)
    requires
        from <= to <= 13,
        match run {
            Run::Pairs => true,
            Run::Under { hi } => hi < 13,
            Run::Gap { gap } => gap <= from,
        },
    ensures
        reads_as(r, run_combos(run, from as int, to as int, marker)),
        r matches Ok(v) ==> real_combos(v@),
{
    let mut out: Vec<Combo> = Vec::new();
    let mut k: u8 = from;
    while k < to
        invariant
            from <= k <= to <= 13,
            match run {
                Run::Pairs => true,
                Run::Under { hi } => hi < 13,
                Run::Gap { gap } => gap <= from,
            },
            run_combos(run, from as int, k as int, marker) == Read::<Seq<Combo>>::Ok(out@),
            real_combos(out@),
        decreases to - k,
    {
        let step = match run {
            Run::Pairs => expand_class(k, k, marker),
            Run::Under { hi } => if k == hi {
                let none: Vec<Combo> = Vec::new();
                assert(none@ =~= Seq::<Combo>::empty());
                Ok(none)
            } else {
                expand_class(hi, k, marker)
            },
            Run::Gap { gap } => expand_class(k, k - gap, marker),
        };
        match step {
            Err(e) => {
                proof {
                    lemma_run_stop(run, from as int, k + 1, to as int, marker);
                }
                return Err(e);
            },
            Ok(mut more) => {
                out.append(&mut more);
            },
        }
        k = k + 1;
    }
    Ok(out)
}

fn expand_span(a: Class, b: Class, item: &Vec<char>) -> (r: Result<Vec<Combo>, RangeError>)
    requires
        a.1 <= a.0 < 13,
        b.1 <= b.0 < 13,
    ensures
        reads_as(r, span_combos(a, b, item@)),
        r matches Ok(v) ==> real_combos(v@),
{
    let (h1, l1, m1) = a;
    let (h2, l2, m2) = b;
    let same = match (m1, m2) {
        (None, None) => true,
        (Some(x), Some(y)) => x == y,
        _ => false,
    };
    if !same {
        return fail(RangeFault::MixedSuitedness, item);
    }
    let (bot_h, top_h) = if h1 >= h2 {
        (h2, h1)
    } else {
        (h1, h2)
    };
    let (bot_l, top_l) = if l1 >= l2 {
        (l2, l1)
    } else {
        (l1, l2)
    };
    if h1 == l1 && h2 == l2 {
        expand_run(Run::Pairs, bot_h, top_h + 1, m1)
    } else if h1 == h2 {
        expand_run(Run::Under { hi: h1 }, bot_l, top_l + 1, m1)
    } else if h1 - l1 == h2 - l2 {
        expand_run(Run::Gap { gap: h1 - l1 }, bot_h, top_h + 1, m1)
    } else {
        fail(RangeFault::UnsupportedSpan, item)
    }
}

/// The combos that an item stands for.
pub fn expand_item(text: &[char]) -> (r: Result<Vec<Combo>, RangeError>)
    ensures
        reads_as(r, item_combos(text@)),
        r matches Ok(v) ==> real_combos(v@),
{
    let item = trim(text);
    if item.len() == 4 {
        let r1 = rank_from_char(item[0]);
        let s1 = suit_from_char(item[1]);
        let r2 = rank_from_char(item[2]);
        let s2 = suit_from_char(item[3]);
        match (r1, s1, r2, s2) {
            (Some(ra), Some(sa), Some(rb), Some(sb)) => {
                let c1: Card = make_card(ra, sa);
                let c2: Card = make_card(rb, sb);
                if c1 == c2 {
                    return fail(RangeFault::RepeatedCard, &item);
                }
                let mut out: Vec<Combo> = Vec::new();
                out.push((c1, c2));
                assert(out@ =~= seq![(c1, c2)]);
                return Ok(out);
            },
            _ => {},
        }
    }
    assert(!is_combo_text(item@));
    let dash: usize = find_first(&item, '-');
    if dash < item.len() {
        let front = part(&item, 0, dash);
        assert(front@ =~= item@.take(dash as int));
        let back = part(&item, dash + 1, item.len());
        assert(back@ =~= item@.skip(dash + 1));
        let a: Class = match parse_class(&trim(&front)) {
            Some(a) => a,
            None => return fail(RangeFault::BadSpanStart, &item),
        };
        let b: Class = match parse_class(&trim(&back)) {
            Some(b) => b,
            None => return fail(RangeFault::BadSpanEnd, &item),
        };
        return expand_span(a, b, &item);
    }
    if item.len() > 0 && item[item.len() - 1] == '+' {
        let base = part(&item, 0, item.len() - 1);
        assert(base@ =~= item@.drop_last());
        return match parse_class(&trim(&base)) {
            None => fail(RangeFault::BadItem, &item),
            Some((hi, lo, marker)) => if hi == lo {
                expand_run(Run::Pairs, hi, 13, marker)
            } else {
                expand_run(Run::Under { hi }, lo, hi, marker)
            },
        };
    }
    match parse_class(&item) {
        None => fail(RangeFault::BadToken, &item),
        Some((hi, lo, marker)) => expand_class(hi, lo, marker),
    }
}

// ---------------------------------------------------------------------------
// Reading a range
// ---------------------------------------------------------------------------

/// What separates tokens.
pub open spec fn separates(c: char) -> bool {
    c == ',' || c == ' ' || c == '\n' || c == '\t' || c == ';'
}

/// Where the first token of a text ends.
pub open spec fn token_end(s: Seq<char>) -> int
    decreases s.len(),
{
    if s.len() == 0 || separates(s[0]) {
        0
    } else {
        1 + token_end(s.drop_first())
    }
}

/// Every combo of the list receives the weight.
pub open spec fn weighted<W>(w: Seq<W>, combos: Seq<Combo>, weight: W) -> Seq<W>
    decreases combos.len(),
{
    if combos.len() == 0 {
        w
    } else {
        let c = combos.last();
        weighted(w, combos.drop_last(), weight).update(cards::combo_number(c.0 as int, c.1 as int), weight)
    }
}

/// The weight that a text denotes: a number up to one, or a percentage.
pub open spec fn read_weight<W: Num>(text: Seq<char>, token: Seq<char>) -> Read<W> {
    match W::parse_spec(text) {
        None => Err((RangeFault::BadWeight, token)),
        Some(v) => {
            let w = if W::decimal_spec(1, 0).below_spec(v) {
                v.over_spec(W::decimal_spec(100, 0))
            } else {
                v
            };
            if W::decimal_spec(0, 0).at_most_spec(w) && w.at_most_spec(W::decimal_spec(1, 0)) {
                Ok(w)
            } else {
                Err((RangeFault::WeightOutOfRange, token))
            }
        },
    }
}

/// The item and the weight of a token; without a colon the weight is one.
pub open spec fn split_token<W: Num>(token: Seq<char>) -> Read<(Seq<char>, W)> {
    let colon = text::last_of(token, ':');
    if colon < 0 {
        Ok((token, W::decimal_spec(1, 0)))
    } else {
        match read_weight(text::trimmed(token.skip(colon + 1)), token) {
            Err(e) => Err(e),
            Ok(w) => Ok((token.take(colon), w)),
        }
    }
}

/// The weights after one more token.
pub open spec fn token_applied<W: Num>(w: Seq<W>, raw: Seq<char>) -> Read<Seq<W>> {
    let token = text::trimmed(raw);
    if token.len() == 0 {
        Ok(w)
    } else {
        match split_token::<W>(token) {
            Err(e) => Err(e),
            Ok((item, weight)) => match item_combos(item) {
                Err(e) => Err(e),
                Ok(combos) => Ok(weighted(w, combos, weight)),
            },
        }
    }
}

/// The weights after all tokens of a text, from left to right.
pub open spec fn tokens_applied<W: Num>(w: Seq<W>, s: Seq<char>) -> Read<Seq<W>>
    decreases s.len(),
{
    let end = token_end(s);
    match token_applied(w, s.take(end)) {
        Err(e) => Err(e),
        Ok(next) => if end < 0 || end >= s.len() {
            Ok(next)
        } else {
            tokens_applied(next, s.skip(end + 1))
        },
    }
}

/// No combo at all.
pub open spec fn empty_weights<W: Num>() -> Seq<W> {
    Seq::new(NUM_COMBOS as nat, |i: int| W::decimal_spec(0, 0))
}

/// A range is a weight in [0, 1] for each of the 1326 combos.
pub struct Range<W> {
    /// One weight for each combo, indexed by combo number.
    pub weights: Vec<W>,
}

fn find_end(v: &[char], from: usize) -> (r: usize)
    requires
        from <= v@.len(),
    ensures
        from <= r <= v@.len(),
        r - from == token_end(v@.skip(from as int)),
{
    let mut i: usize = from;
    while i < v.len() && !(v[i] == ',' || v[i] == ' ' || v[i] == '\n' || v[i] == '\t' || v[i] == ';')
        invariant
            from <= i <= v@.len(),
            token_end(v@.skip(from as int)) == i - from + token_end(v@.skip(i as int)),
        decreases v@.len() - i,
    {
        assert(v@.skip(i as int).drop_first() =~= v@.skip(i + 1));
        i = i + 1;
    }
    i
}

impl<W: Num> Range<W> {
    /// There is a weight for each combo.
    pub open spec fn wf(&self) -> bool {
        self.weights@.len() == NUM_COMBOS
    }

    /// The range without any combo.
    pub fn empty() -> (r: Self)
        ensures
            r.wf(),
            r.weights@ == empty_weights::<W>(),
    {
        let mut weights: Vec<W> = Vec::new();
        let zero = W::decimal(0, 0);
        let mut i: usize = 0;
        while i < NUM_COMBOS
            invariant
                i <= NUM_COMBOS,
                zero == W::decimal_spec(0, 0),
                weights@.len() == i,
                forall|k: int| 0 <= k < i ==> weights@[k] == zero,
            decreases NUM_COMBOS - i,
        {
            weights.push(zero);
            i = i + 1;
        }
        assert(weights@ =~= empty_weights::<W>());
        Range { weights }
    }

    fn apply(&mut self, combos: &Vec<Combo>, weight: W)
        requires
            old(self).wf(),
            real_combos(combos@),
        ensures
            final(self).wf(),
            final(self).weights@ == weighted(old(self).weights@, combos@, weight),
    {
        let mut i: usize = 0;
        assert(combos@.take(0) =~= Seq::<Combo>::empty());
        while i < combos.len()
            invariant
                i <= combos@.len(),
                self.wf(),
                real_combos(combos@),
                self.weights@ == weighted(old(self).weights@, combos@.take(i as int), weight),
            decreases combos@.len() - i,
        {
            assert(combos@.take(i + 1).drop_last() =~= combos@.take(i as int));
            let (c1, c2) = combos[i];
            assert(combos@[i as int] == (c1, c2));
            let at: usize = combo_index(c1, c2);
            self.weights.set(at, weight);
            i = i + 1;
        }
        assert(combos@.take(combos@.len() as int) =~= combos@);
    }

    fn apply_token(&mut self, raw: &[char]) -> (r: Result<(), RangeError>)
        requires
            old(self).wf(),
        ensures
            match r {
                Ok(_) => final(self).wf() && token_applied(old(self).weights@, raw@) == Read::<
                    Seq<W>,
                >::Ok(final(self).weights@),
                Err(e) => token_applied(old(self).weights@, raw@) == Read::<Seq<W>>::Err(
                    (e.fault, e.text@),
                ),
            },
    {
        let token = trim(raw);
        if token.len() == 0 {
            return Ok(());
        }
        let one = W::decimal(1, 0);
        let mut weight: W = one;
        let item = match find_last(&token, ':') {
            None => part(&token, 0, token.len()),
            Some(colon) => {
                let tail = part(&token, colon + 1, token.len());
                assert(tail@ =~= token@.skip(colon + 1));
                let text = string_of(&trim(&tail));
                weight = match W::parse(text.as_str()) {
                    None => return Err(
                        RangeError { fault: RangeFault::BadWeight, text: string_of(&token) },
                    ),
                    Some(w) => w,
                };
                if one.below(weight) {
                    weight = weight.over(W::decimal(100, 0));
                }
                if !(W::decimal(0, 0).at_most(weight) && weight.at_most(one)) {
                    return Err(
                        RangeError { fault: RangeFault::WeightOutOfRange, text: string_of(&token) },
                    );
                }
                let head = part(&token, 0, colon);
                assert(head@ =~= token@.take(colon as int));
                head
            },
        };
        proof {
            if text::last_of(token@, ':') < 0 {
                assert(item@ =~= token@);
            }
        }
        match expand_item(&item) {
            Err(e) => Err(e),
            Ok(combos) => {
                self.apply(&combos, weight);
                Ok(())
            },
        }
    }

    /// Reads a range text.
    pub fn parse(s: &str) -> (r: Result<Self, RangeError>)
        ensures
            match r {
                Ok(range) => range.wf() && tokens_applied(empty_weights::<W>(), s@) == Read::<
                    Seq<W>,
                >::Ok(range.weights@),
                Err(e) => tokens_applied(empty_weights::<W>(), s@) == Read::<Seq<W>>::Err(
                    (e.fault, e.text@),
                ),
            },
    {
        let v = chars_of(s);
        let mut range = Self::empty();
        let mut from: usize = 0;
        assert(v@.skip(0) =~= v@);
        loop
            invariant
                range.wf(),
                from <= v@.len(),
                v@ == s@,
                tokens_applied(empty_weights::<W>(), s@) == tokens_applied(
                    range.weights@,
                    v@.skip(from as int),
                ),
            decreases v@.len() - from,
        {
            let end: usize = find_end(&v, from);
            let raw = part(&v, from, end);
            let ghost rest = v@.skip(from as int);
            assert(raw@ =~= rest.take(end - from));
            match range.apply_token(&raw) {
                Err(e) => return Err(e),
                Ok(_) => {},
            }
            if end >= v.len() {
                return Ok(range);
            }
            assert(rest.skip(end - from + 1) =~= v@.skip(end + 1));
            from = end + 1;
        }
    }

    /// Whether no combo has a positive weight.
    pub fn is_empty(&self) -> (r: bool)
        ensures
            r <==> forall|i: int|
                0 <= i < self.weights@.len() ==> (#[trigger] self.weights@[i]).at_most_spec(
                    W::decimal_spec(0, 0),
                ),
    {
        let zero = W::decimal(0, 0);
        let mut i: usize = 0;
        while i < self.weights.len()
            invariant
                i <= self.weights@.len(),
                zero == W::decimal_spec(0, 0),
                forall|k: int|
                    0 <= k < i ==> (#[trigger] self.weights@[k]).at_most_spec(
                        W::decimal_spec(0, 0),
                    ),
            decreases self.weights@.len() - i,
        {
            if !self.weights[i].at_most(zero) {
                return false;
            }
            i = i + 1;
        }
        true
    }

    /// Total number of (weighted) combos.
    pub fn num_combos(&self) -> (r: W)
        ensures
            r == num::total_of(self.weights@),
    {
        total(&self.weights)
    }
}

impl<W: Num> Default for Range<W> {
    fn default() -> (r: Self)
        ensures
            r.wf(),
            r.weights@ == empty_weights::<W>(),
    {
        Self::empty()
    }
}

// ---------------------------------------------------------------------------
// Writing a range
// ---------------------------------------------------------------------------

/// A weight with up to three decimal places.
pub open spec fn weight_text<W: Num>(w: W) -> Seq<char> {
    text::stripped(text::stripped(w.fixed_spec(3), '0'), '.')
}

/// Whether two weights are less than 1e-4 apart.
pub open spec fn alike<W: Num>(a: W, b: W) -> bool {
    num::magnitude_of(a.minus_spec(b)).below_spec(W::decimal_spec(1, 4))
}

pub open spec fn positive<W: Num>(w: W) -> bool {
    W::decimal_spec(0, 0).below_spec(w)
}

/// A name with its weight; a weight of one is left out.
pub open spec fn tagged<W: Num>(name: Seq<char>, w: W) -> Seq<char> {
    if alike(w, W::decimal_spec(1, 0)) {
        name
    } else {
        name + seq![':'] + weight_text(w)
    }
}

/// The weight of a combo.
pub open spec fn combo_weight<W>(weights: Seq<W>, c: Combo) -> W {
    weights[cards::combo_number(c.0 as int, c.1 as int)]
}

pub open spec fn combo_name(c: Combo) -> Seq<char> {
    cards::card_text(c.0 as int) + cards::card_text(c.1 as int)
}

/// The parts for the first `n` of some combos: one for each with a weight.
pub open spec fn combo_parts<W: Num>(weights: Seq<W>, combos: Seq<Combo>, n: int) -> Seq<Seq<char>>
    decreases n,
{
    if n <= 0 {
        Seq::empty()
    } else {
        let rest = combo_parts(weights, combos, n - 1);
        let w = combo_weight(weights, combos[n - 1]);
        if positive(w) {
            rest.push(tagged(combo_name(combos[n - 1]), w))
        } else {
            rest
        }
    }
}

/// Whether all combos have weights, and all of them about the same.
pub open spec fn uniform<W: Num>(weights: Seq<W>, combos: Seq<Combo>) -> bool {
    forall|i: int|
        0 <= i < combos.len() ==> {
            let w = combo_weight(weights, #[trigger] combos[i]);
            positive(w) && alike(w, combo_weight(weights, combos[0]))
        }
}

/// The parts of a class: its name if its combos are alike, else the combos
/// that have a weight.
pub open spec fn class_parts<W: Num>(weights: Seq<W>, hi: int, lo: int, s: Suitedness) -> Seq<
    Seq<char>,
> {
    let combos = class_combos(hi, lo, s);
    if combos.len() > 0 && uniform(weights, combos) {
        seq![tagged(class_name(hi, lo, s), combo_weight(weights, combos[0]))]
    } else {
        combo_parts(weights, combos, combos.len() as int)
    }
}

pub open spec fn suitedness_at(k: int) -> Suitedness {
    if k % 3 == 0 {
        Suitedness::Pair
    } else if k % 3 == 1 {
        Suitedness::Suited
    } else {
        Suitedness::Offsuit
    }
}

/// The parts of the first `k` classes: by the higher rank from the ace down,
/// then the lower rank, then pair, suited, offsuit.
pub open spec fn all_parts<W: Num>(weights: Seq<W>, k: int) -> Seq<Seq<char>>
    decreases k,
{
    if k <= 0 {
        Seq::empty()
    } else {
        let hi = 12 - (k - 1) / 39;
        let lo = 12 - ((k - 1) / 3) % 13;
        if lo <= hi {
            all_parts(weights, k - 1) + class_parts(weights, hi, lo, suitedness_at(k - 1))
        } else {
            all_parts(weights, k - 1)
        }
    }
}

/// The parts with commas between them.
pub open spec fn joined(parts: Seq<Seq<char>>) -> Seq<char>
    decreases parts.len(),
{
    if parts.len() == 0 {
        Seq::empty()
    } else if parts.len() == 1 {
        parts[0]
    } else {
        joined(parts.drop_last()) + seq![','] + parts.last()
    }
}

/// A weight with up to three decimal places.
fn fmt_weight<W: Num>(w: W) -> (r: Vec<char>)
    ensures
        r@ == weight_text(w),
{
    let text = w.fixed(3);
    let mut v = chars_of(text.as_str());
    strip(&mut v, '0');
    strip(&mut v, '.');
    v
}

/// Text under construction: parts with commas between them.
struct Parts {
    text: Vec<char>,
    some: bool,
    parts: Ghost<Seq<Seq<char>>>,
}

impl Parts {
    spec fn wf(&self) -> bool {
        &&& self.text@ == joined(self.parts@)
        &&& self.some == (self.parts@.len() > 0)
    }

    fn add<W: Num>(&mut self, name: &Vec<char>, w: W)
        requires
            old(self).wf(),
        ensures
            final(self).wf(),
            final(self).parts@ == old(self).parts@.push(tagged(name@, w)),
    {
        let ghost part = tagged(name@, w);
        let ghost before = self.parts@;
        if self.some {
            self.text.push(',');
        }
        push_all(&mut self.text, name);
        if !magnitude(w.minus(W::decimal(1, 0))).below(W::decimal(1, 4)) {
            self.text.push(':');
            push_all(&mut self.text, &fmt_weight(w));
        }
        self.some = true;
        self.parts = Ghost(before.push(part));
        proof {
            assert(before.push(part).drop_last() =~= before);
            if before.len() > 0 {
                assert(self.text@ =~= joined(before) + seq![','] + part);
            } else {
                assert(self.text@ =~= part);
            }
        }
    }
}

impl<W: Num> Range<W> {
    fn weight_of(&self, c: Combo) -> (r: W)
        requires
            self.wf(),
            cards::is_card(c.0 as int),
            cards::is_card(c.1 as int),
            c.0 != c.1,
        ensures
            r == combo_weight(self.weights@, c),
    {
        self.weights[combo_index(c.0, c.1)]
    }

    fn class_is_uniform(&self, combos: &Vec<Combo>) -> (r: bool)
        requires
            self.wf(),
            real_combos(combos@),
            combos@.len() > 0,
        ensures
            r == uniform(self.weights@, combos@),
    {
        assert(cards::is_card(combos@[0].0 as int));
        let first = self.weight_of(combos[0]);
        let mut i: usize = 0;
        while i < combos.len()
            invariant
                i <= combos@.len(),
                self.wf(),
                real_combos(combos@),
                combos@.len() > 0,
                first == combo_weight(self.weights@, combos@[0]),
                forall|k: int|
                    0 <= k < i ==> {
                        let w = combo_weight(self.weights@, #[trigger] combos@[k]);
                        positive(w) && alike(w, first)
                    },
            decreases combos@.len() - i,
        {
            assert(cards::is_card(combos@[i as int].0 as int));
            let w = self.weight_of(combos[i]);
            if !W::decimal(0, 0).below(w) || !magnitude(w.minus(first)).below(W::decimal(1, 4)) {
                return false;
            }
            i = i + 1;
        }
        true
    }

    fn add_class(&self, out: &mut Parts, hi: u8, lo: u8, s: Suitedness)
        requires
            self.wf(),
            hi < 13,
            lo < 13,
            old(out).wf(),
        ensures
            final(out).wf(),
            final(out).parts@ == old(out).parts@ + class_parts(
                self.weights@,
                hi as int,
                lo as int,
                s,
            ),
    {
        let combos = class_combo_list(hi, lo, s);
        proof {
            lemma_class_real(hi as int, lo as int, s);
        }
        if combos.len() > 0 && self.class_is_uniform(&combos) {
            assert(cards::is_card(combos@[0].0 as int));
            let label = class_label(hi, lo, s);
            let name = chars_of(label.as_str());
            out.add(&name, self.weight_of(combos[0]));
            assert(out.parts@ =~= old(out).parts@ + class_parts(
                self.weights@,
                hi as int,
                lo as int,
                s,
            ));
            return ;
        }
        let mut i: usize = 0;
        assert(out.parts@ =~= old(out).parts@ + combo_parts(self.weights@, combos@, 0));
        while i < combos.len()
            invariant
                i <= combos@.len(),
                self.wf(),
                real_combos(combos@),
                out.wf(),
                out.parts@ == old(out).parts@ + combo_parts(self.weights@, combos@, i as int),
            decreases combos@.len() - i,
        {
            let c = combos[i];
            assert(cards::is_card(combos@[i as int].0 as int));
            let w = self.weight_of(c);
            if W::decimal(0, 0).below(w) {
                let text = combo_to_string(c.0, c.1);
                let name = chars_of(text.as_str());
                out.add(&name, w);
            }
            assert(out.parts@ =~= old(out).parts@ + combo_parts(self.weights@, combos@, i + 1));
            i = i + 1;
        }
    }

    /// Compact string representation, grouping uniform hand classes.
    pub fn to_string_compact(&self) -> (r: String)
        requires
            self.wf(),
        ensures
            r@ == joined(all_parts(self.weights@, 507)),
    {
        let mut out = Parts { text: Vec::new(), some: false, parts: Ghost(Seq::empty()) };
        assert(out.text@ =~= joined(out.parts@));
        let mut k: usize = 0;
        while k < 507
            invariant
                k <= 507,
                self.wf(),
                out.wf(),
                out.parts@ == all_parts(self.weights@, k as int),
            decreases 507 - k,
        {
            let hi: u8 = 12 - (k / 39) as u8;
            let lo: u8 = 12 - ((k / 3) % 13) as u8;
            if lo <= hi {
                let s = if k % 3 == 0 {
                    Suitedness::Pair
                } else if k % 3 == 1 {
                    Suitedness::Suited
                } else {
                    Suitedness::Offsuit
                };
                self.add_class(&mut out, hi, lo, s);
            }
            k = k + 1;
        }
        string_of(&out.text)
    }
}

} // verus!
