//! Cards, combos and suit permutations.
//!
//! A card is a number below 52: four times its rank plus its suit. Ranks run
//! from 0 (deuce) to 12 (ace), suits are 0 = clubs, 1 = diamonds, 2 = hearts,
//! 3 = spades.

use crate::text::{chars_of, is_white_space};
use crate::text;
use vstd::prelude::*;

verus! {

pub type Card = u8;

/// The set of a single card.
pub open spec fn mask_spec(c: Card) -> u64 {
    1u64 << (c as u64)
}

/// Whether a card is in a set.
pub open spec fn in_mask(mask: u64, c: int) -> bool {
    mask & (1u64 << (c as u64)) != 0
}

/// The set of the given cards.
pub open spec fn mask_of(cards: Seq<Card>) -> u64
    decreases cards.len(),
{
    if cards.len() == 0 {
        0
    } else {
        mask_of(cards.drop_last()) | mask_spec(cards.last())
    }
}

/// The set of a single card, as a bit mask.
pub fn card_mask(c: Card) -> (r: u64)
    requires
        c < 64,
    ensures
        r == mask_spec(c),
{
    1u64 << (c as u64)
}

/// The set of the given cards, as a bit mask.
pub fn cards_mask(cards: &[Card]) -> (r: u64)
    requires
        forall|i: int| 0 <= i < cards@.len() ==> cards@[i] < 64,
    ensures
        r == mask_of(cards@),
{
    let mut mask: u64 = 0;
    let mut i: usize = 0;
    assert(cards@.take(0) =~= Seq::<Card>::empty());
    while i < cards.len()
        invariant
            i <= cards.len(),
            forall|i: int| 0 <= i < cards@.len() ==> cards@[i] < 64,
            mask == mask_of(cards@.take(i as int)),
        decreases cards.len() - i,
    {
        assert(cards@.take(i + 1).drop_last() =~= cards@.take(i as int));
        mask = mask | card_mask(cards[i]);
        i = i + 1;
    }
    assert(cards@.take(cards@.len() as int) =~= cards@);
    mask
}

// ---------------------------------------------------------------------------
// Names
// ---------------------------------------------------------------------------

/// Whether a number stands for a card.
pub open spec fn is_card(c: int) -> bool {
    0 <= c < 52
}

/// The character of a rank.
pub open spec fn rank_name(r: int) -> char {
    if r < 8 {
        (50 + r) as char
    } else if r == 8 {
        'T'
    } else if r == 9 {
        'J'
    } else if r == 10 {
        'Q'
    } else if r == 11 {
        'K'
    } else {
        'A'
    }
}

/// The character of a suit.
pub open spec fn suit_name(s: int) -> char {
    if s == 0 {
        'c'
    } else if s == 1 {
        'd'
    } else if s == 2 {
        'h'
    } else {
        's'
    }
}

/// The rank that a character names, capital or small.
pub open spec fn rank_named(c: char) -> Option<u8> {
    if '2' <= c <= '9' {
        Some(((c as int) - 50) as u8)
    } else if c == 'T' || c == 't' {
        Some(8)
    } else if c == 'J' || c == 'j' {
        Some(9)
    } else if c == 'Q' || c == 'q' {
        Some(10)
    } else if c == 'K' || c == 'k' {
        Some(11)
    } else if c == 'A' || c == 'a' {
        Some(12)
    } else {
        None
    }
}

/// The suit that a character names, capital or small.
pub open spec fn suit_named(c: char) -> Option<u8> {
    if c == 'c' || c == 'C' {
        Some(0)
    } else if c == 'd' || c == 'D' {
        Some(1)
    } else if c == 'h' || c == 'H' {
        Some(2)
    } else if c == 's' || c == 'S' {
        Some(3)
    } else {
        None
    }
}

/// The card of a rank and a suit.
pub fn make_card(rank: u8, suit: u8) -> (r: Card)
    requires
        rank < 13,
        suit < 4,
    ensures
        r == rank * 4 + suit,
        r < 52,
{
    rank * 4 + suit
}

pub fn rank(c: Card) -> (r: u8)
    ensures
        r == c / 4,
{
    c / 4
}

pub fn suit(c: Card) -> (r: u8)
    ensures
        r == c % 4,
{
    c % 4
}

pub fn rank_char(r: u8) -> (c: char)
    requires
        r < 13,
    ensures
        c == rank_name(r as int),
{
    if r < 8 {
        (50u8 + r) as char
    } else if r == 8 {
        'T'
    } else if r == 9 {
        'J'
    } else if r == 10 {
        'Q'
    } else if r == 11 {
        'K'
    } else {
        'A'
    }
}

pub fn suit_char(s: u8) -> (c: char)
    requires
        s < 4,
    ensures
        c == suit_name(s as int),
{
    if s == 0 {
        'c'
    } else if s == 1 {
        'd'
    } else if s == 2 {
        'h'
    } else {
        's'
    }
}

pub fn rank_from_char(c: char) -> (r: Option<u8>)
    ensures
        r == rank_named(c),
{
    if '2' <= c && c <= '9' {
        Some((c as u8) - 50)
    } else if c == 'T' || c == 't' {
        Some(8)
    } else if c == 'J' || c == 'j' {
        Some(9)
    } else if c == 'Q' || c == 'q' {
        Some(10)
    } else if c == 'K' || c == 'k' {
        Some(11)
    } else if c == 'A' || c == 'a' {
        Some(12)
    } else {
        None
    }
}

pub fn suit_from_char(c: char) -> (r: Option<u8>)
    ensures
        r == suit_named(c),
{
    if c == 'c' || c == 'C' {
        Some(0)
    } else if c == 'd' || c == 'D' {
        Some(1)
    } else if c == 'h' || c == 'H' {
        Some(2)
    } else if c == 's' || c == 'S' {
        Some(3)
    } else {
        None
    }
}

/// Why a text does not name cards.
#[derive(Clone, Copy, Debug, PartialEq, Eq, Structural)]
pub enum CardError {
    /// A card is not a rank followed by a suit.
    NotACard,
    /// A card occurs twice.
    Repeated { card: Card },
}

/// The card that two characters name.
pub open spec fn card_named(r: char, s: char) -> Option<Card> {
    if rank_named(r) is Some && suit_named(s) is Some {
        Some((rank_named(r)->Some_0 * 4 + suit_named(s)->Some_0) as u8)
    } else {
        None
    }
}

/// The name of a card.
pub open spec fn card_text(c: int) -> Seq<char> {
    seq![rank_name(c / 4), suit_name(c % 4)]
}

/// The card that a text names.
pub open spec fn text_card(s: Seq<char>) -> Result<Card, CardError> {
    if s.len() == 2 && card_named(s[0], s[1]) is Some {
        Ok(card_named(s[0], s[1])->Some_0)
    } else {
        Err(CardError::NotACard)
    }
}

pub fn card_to_string(c: Card) -> (r: String)
    requires
        c < 52,
    ensures
        r@ == card_text(c as int),
{
    let mut out = String::new();
    out.push(rank_char(rank(c)));
    out.push(suit_char(suit(c)));
    assert(out@ =~= card_text(c as int));
    out
}

pub fn combo_to_string(c1: Card, c2: Card) -> (r: String)
    requires
        c1 < 52,
        c2 < 52,
    ensures
        r@ == card_text(c1 as int) + card_text(c2 as int),
{
    let mut out = String::new();
    out.push(rank_char(rank(c1)));
    out.push(suit_char(suit(c1)));
    out.push(rank_char(rank(c2)));
    out.push(suit_char(suit(c2)));
    assert(out@ =~= card_text(c1 as int) + card_text(c2 as int));
    out
}

fn card_from_chars(r: char, s: char) -> (c: Option<Card>)
    ensures
        c == card_named(r, s),
        c matches Some(c) ==> c < 52,
{
    match rank_from_char(r) {
        None => None,
        Some(rank) => match suit_from_char(s) {
            None => None,
            Some(suit) => Some(make_card(rank, suit)),
        },
    }
}

pub fn card_from_str(s: &str) -> (r: Result<Card, CardError>)
    ensures
        r == text_card(s@),
        r matches Ok(c) ==> c < 52,
{
    let v = chars_of(s);
    if v.len() != 2 {
        return Err(CardError::NotACard);
    }
    match card_from_chars(v[0], v[1]) {
        Some(c) => Ok(c),
        None => Err(CardError::NotACard),
    }
}

/// A text without its white space.
pub open spec fn packed(s: Seq<char>) -> Seq<char> {
    s.filter(|c: char| !text::white_space(c))
}

/// The cards that pairs of characters name, up to the first that fails.
pub open spec fn cards_named(s: Seq<char>) -> Result<Seq<Card>, CardError>
    decreases s.len(),
{
    if s.len() == 0 {
        Ok(Seq::empty())
    } else if s.len() == 1 {
        Err(CardError::NotACard)
    } else {
        let n = s.len();
        match cards_named(s.take(n - 2)) {
            Err(e) => Err(e),
            Ok(rest) => match card_named(s[n - 2], s[n - 1]) {
                None => Err(CardError::NotACard),
                Some(c) => if rest.contains(c) {
                    Err(CardError::Repeated { card: c })
                } else {
                    Ok(rest.push(c))
                },
            },
        }
    }
}

/// The cards that a text names, such as "AsKh7d". White space is skipped.
pub open spec fn text_cards(s: Seq<char>) -> Result<Seq<Card>, CardError> {
    if packed(s).len() % 2 == 1 {
        Err(CardError::NotACard)
    } else {
        cards_named(packed(s))
    }
}

fn pack(v: &Vec<char>) -> (r: Vec<char>)
    ensures
        r@ == packed(v@),
{
    let mut out: Vec<char> = Vec::new();
    let mut i: usize = 0;
    let ghost keep = |c: char| !text::white_space(c);
    proof {
        reveal(Seq::filter);
    }
    assert(v@.take(0) =~= Seq::<char>::empty());
    while i < v.len()
        invariant
            i <= v.len(),
            keep == (|c: char| !text::white_space(c)),
            out@ == v@.take(i as int).filter(keep),
        decreases v.len() - i,
    {
        proof {
            reveal(Seq::filter);
            assert(v@.take(i + 1).drop_last() =~= v@.take(i as int));
        }
        if !is_white_space(v[i]) {
            out.push(v[i]);
        }
        i = i + 1;
    }
    assert(v@.take(v@.len() as int) =~= v@);
    out
}

proof fn lemma_cards_stop(s: Seq<char>, k: int)
    requires
        0 <= k <= s.len(),
        k % 2 == 0,
        s.len() % 2 == 0,
        cards_named(s.take(k)) is Err,
    ensures
        cards_named(s) == cards_named(s.take(k)),
    decreases s.len(),
{
    if k == s.len() {
        assert(s.take(k) =~= s);
    } else {
        let t = s.take(s.len() - 2);
        assert(t.take(k) =~= s.take(k));
        lemma_cards_stop(t, k);
    }
}

pub fn parse_cards(s: &str) -> (r: Result<Vec<Card>, CardError>)
    ensures
        match r {
            Ok(v) => text_cards(s@) == Ok::<Seq<Card>, CardError>(v@) && forall|i: int|
                0 <= i < v@.len() ==> v@[i] < 52,
            Err(e) => text_cards(s@) == Err::<Seq<Card>, CardError>(e),
        },
{
    let v = chars_of(s);
    let v = pack(&v);
    if v.len() % 2 == 1 {
        return Err(CardError::NotACard);
    }
    let mut out: Vec<Card> = Vec::new();
    let mut i: usize = 0;
    assert(v@.take(0) =~= Seq::<char>::empty());
    while i < v.len()
        invariant
            i <= v.len(),
            i % 2 == 0,
            v@.len() % 2 == 0,
            v@ == packed(s@),
            cards_named(v@.take(i as int)) == Ok::<Seq<Card>, CardError>(out@),
            forall|k: int| 0 <= k < out@.len() ==> out@[k] < 52,
        decreases v.len() - i,
    {
        let ghost t = v@.take(i + 2);
        assert(t.take(i as int) =~= v@.take(i as int));
        match card_from_chars(v[i], v[i + 1]) {
            None => {
                proof {
                    lemma_cards_stop(v@, i + 2);
                }
                return Err(CardError::NotACard);
            },
            Some(c) => {
                let mut k: usize = 0;
                while k < out.len()
                    invariant
                        k <= out.len(),
                        forall|m: int| 0 <= m < k ==> out@[m] != c,
                        i + 2 <= v@.len(),
                        v@.len() % 2 == 0,
                        i % 2 == 0,
                        v@ == packed(s@),
                        t == v@.take(i + 2),
                        t.take(i as int) == v@.take(i as int),
                        cards_named(v@.take(i as int)) == Ok::<Seq<Card>, CardError>(out@),
                        card_named(v@[i as int], v@[i + 1]) == Some(c),
                    decreases out.len() - k,
                {
                    if out[k] == c {
                        proof {
                            assert(out@.contains(c));
                            lemma_cards_stop(v@, i + 2);
                        }
                        return Err(CardError::Repeated { card: c });
                    }
                    k = k + 1;
                }
                out.push(c);
            },
        }
        i = i + 2;
    }
    assert(v@.take(v@.len() as int) =~= v@);
    Ok(out)
}

/// Reading a card's name gives back the card.
pub proof fn law_card_text_roundtrip(c: u8)
    requires
        c < 52,
    ensures
        text_card(card_text(c as int)) == Ok::<Card, CardError>(c),
{
}

// ---------------------------------------------------------------------------
// Combos
// ---------------------------------------------------------------------------

/// How many two-card combos there are.
pub const NUM_COMBOS: usize = 1326;

/// How many pairs of different numbers below `n` there are.
pub open spec fn pairs_below(n: int) -> int {
    n * (n - 1) / 2
}

/// The number of a combo: combos are ordered by their higher card, then by
/// their lower one.
pub open spec fn combo_number(a: int, b: int) -> int {
    if a > b {
        pairs_below(a) + b
    } else {
        pairs_below(b) + a
    }
}

pub(crate) proof fn lemma_pairs_step(n: int)
    ensures
        pairs_below(n + 1) == pairs_below(n) + n,
{
    assert((n + 1) * n == n * (n - 1) + 2 * n) by (nonlinear_arith);
}

pub(crate) proof fn lemma_pairs_monotone(m: int, n: int)
    requires
        0 <= m <= n,
    ensures
        0 <= pairs_below(m) <= pairs_below(n),
    decreases n,
{
    if m < n {
        lemma_pairs_monotone(m, n - 1);
        lemma_pairs_step(n - 1);
    } else if n > 0 {
        lemma_pairs_monotone(n - 1, n - 1);
        lemma_pairs_step(n - 1);
    } else {
        assert(pairs_below(0) == 0) by (nonlinear_arith);
    }
}

/// The number of two different cards, in either order.
pub fn combo_index(c1: Card, c2: Card) -> (r: usize)
    requires
        c1 < 52,
        c2 < 52,
        c1 != c2,
    ensures
        r == combo_number(c1 as int, c2 as int),
        r < NUM_COMBOS,
{
    let (hi, lo) = if c1 > c2 {
        (c1 as usize, c2 as usize)
    } else {
        (c2 as usize, c1 as usize)
    };
    assert(hi * (hi - 1) <= 52 * 51) by (nonlinear_arith)
        requires
            0 < hi < 52,
    ;
    proof {
        lemma_pairs_step(hi as int);
        lemma_pairs_monotone(hi + 1, 52);
        assert(pairs_below(52) == 1326) by (nonlinear_arith);
    }
    hi * (hi - 1) / 2 + lo
}

/// The highest number up to `n` with no more than `idx` pairs below it.
pub open spec fn top_card(idx: int, n: int) -> int
    decreases n,
{
    if n <= 1 || pairs_below(n) <= idx {
        n
    } else {
        top_card(idx, n - 1)
    }
}

/// The two cards of the combo with a number, the higher one first.
pub open spec fn combo_cards(idx: int) -> (Card, Card) {
    let hi = top_card(idx, 51);
    (hi as u8, (idx - pairs_below(hi)) as u8)
}

proof fn lemma_top_card(idx: int, hi: int, n: int)
    requires
        1 <= hi <= n,
        pairs_below(hi) <= idx < pairs_below(hi + 1),
    ensures
        top_card(idx, n) == hi,
    decreases n,
{
    if n > hi {
        lemma_pairs_monotone(hi + 1, n);
        lemma_top_card(idx, hi, n - 1);
    }
}

/// The two cards of a combo, the higher one first.
pub fn combo_from_index(idx: usize) -> (r: (Card, Card))
    requires
        idx < NUM_COMBOS,
    ensures
        r == combo_cards(idx as int),
        r.1 < r.0 < 52,
        combo_number(r.0 as int, r.1 as int) == idx,
{
    let mut hi: u8 = 1;
    let mut base: usize = 0;
    assert(pairs_below(1) == 0) by (nonlinear_arith);
    assert(pairs_below(52) == 1326) by (nonlinear_arith);
    while idx - base >= hi as usize
        invariant
            1 <= hi < 52,
            base == pairs_below(hi as int),
            base <= idx < NUM_COMBOS,
            pairs_below(52) == 1326,
        decreases 52 - hi,
    {
        proof {
            lemma_pairs_step(hi as int);
            if hi == 51 {
                assert(false);
            }
        }
        base = base + hi as usize;
        hi = hi + 1;
    }
    proof {
        lemma_pairs_step(hi as int);
        lemma_top_card(idx as int, hi as int, 51);
    }
    (hi, (idx - base) as u8)
}

/// Numbers and combos belong together one to one.
pub proof fn law_combo_cards(idx: int)
    requires
        0 <= idx < NUM_COMBOS,
    ensures
        ({
            let (a, b) = combo_cards(idx);
            &&& b < a < 52
            &&& combo_number(a as int, b as int) == idx
        }),
{
    assert(pairs_below(52) == 1326) by (nonlinear_arith);
    lemma_top_card_exists(idx, 51);
}

proof fn lemma_top_card_exists(idx: int, n: int)
    requires
        1 <= n <= 51,
        0 <= idx < pairs_below(n + 1),
    ensures
        ({
            let hi = top_card(idx, n);
            &&& 1 <= hi <= n
            &&& pairs_below(hi) <= idx < pairs_below(hi) + hi
        }),
    decreases n,
{
    assert(pairs_below(52) == 1326) by (nonlinear_arith);
    lemma_pairs_step(n);
    assert(pairs_below(1) == 0) by (nonlinear_arith);
    if n > 1 && pairs_below(n) > idx {
        lemma_top_card_exists(idx, n - 1);
    }
}

/// The number of a combo determines it.
pub proof fn law_combo_number_is_injective(a: int, b: int, c: int, d: int)
    requires
        is_card(a),
        is_card(b),
        is_card(c),
        is_card(d),
        b < a,
        d < c,
        combo_number(a, b) == combo_number(c, d),
    ensures
        a == c,
        b == d,
{
    if a < c {
        lemma_pairs_monotone(a + 1, c);
        lemma_pairs_step(a);
    } else if c < a {
        lemma_pairs_monotone(c + 1, a);
        lemma_pairs_step(c);
    }
}

// ---------------------------------------------------------------------------
// Suit permutations
// ---------------------------------------------------------------------------

/// A renaming of the suits: each suit has an image, no two the same.
pub open spec fn is_perm(pm: [u8; 4]) -> bool {
    &&& pm[0] < 4 && pm[1] < 4 && pm[2] < 4 && pm[3] < 4
    &&& pm[0] != pm[1] && pm[0] != pm[2] && pm[0] != pm[3]
    &&& pm[1] != pm[2] && pm[1] != pm[3] && pm[2] != pm[3]
}

/// The card with its suit renamed.
pub open spec fn permuted(c: int, pm: [u8; 4]) -> int {
    (c / 4) * 4 + pm[c % 4]
}

pub fn permute_card(c: Card, pm: &[u8; 4]) -> (r: Card)
    requires
        c < 52,
        is_perm(*pm),
    ensures
        r == permuted(c as int, *pm),
        r < 52,
{
    let s: usize = (c % 4) as usize;
    let img: u8 = pm[s];
    assert(img < 4) by {
        assert(s == 0 || s == 1 || s == 2 || s == 3);
    }
    c / 4 * 4 + img
}

/// Renaming suits keeps different cards different.
pub proof fn law_permuted_is_injective(pm: [u8; 4], a: int, b: int)
    requires
        is_perm(pm),
        is_card(a),
        is_card(b),
        permuted(a, pm) == permuted(b, pm),
    ensures
        a == b,
{
    let s = a % 4;
    let t = b % 4;
    assert(s == 0 || s == 1 || s == 2 || s == 3);
    assert(t == 0 || t == 1 || t == 2 || t == 3);
    assert(pm[s] < 4 && pm[t] < 4);
}

/// First `first`, then `second`.
pub open spec fn composed(first: [u8; 4], second: [u8; 4]) -> [u8; 4] {
    [
        second[first[0] as int],
        second[first[1] as int],
        second[first[2] as int],
        second[first[3] as int],
    ]
}

/// Composing renamings is renaming one after the other.
pub proof fn law_composed(first: [u8; 4], second: [u8; 4], c: int)
    requires
        is_perm(first),
        is_perm(second),
        is_card(c),
    ensures
        is_perm(composed(first, second)),
        permuted(c, composed(first, second)) == permuted(permuted(c, first), second),
{
    let s = c % 4;
    assert(s == 0 || s == 1 || s == 2 || s == 3);
    let i = first[s] as int;
    assert(i == 0 || i == 1 || i == 2 || i == 3);
    let d = composed(first, second);
    assert forall|x: int, y: int| 0 <= x < y < 4 implies d[x] != d[y] by {
        assert(x == 0 || x == 1 || x == 2);
        assert(y == 1 || y == 2 || y == 3);
        let p = first[x];
        let q = first[y];
        assert(p == 0 || p == 1 || p == 2 || p == 3);
        assert(q == 0 || q == 1 || q == 2 || q == 3);
    }
    assert forall|x: int| 0 <= x < 4 implies d[x] < 4 by {
        let p = first[x];
        assert(x == 0 || x == 1 || x == 2 || x == 3);
        assert(p == 0 || p == 1 || p == 2 || p == 3);
    }
    assert(d[0] != d[1] && d[0] != d[2] && d[0] != d[3]);
    assert(d[1] != d[2] && d[1] != d[3] && d[2] != d[3]);
}

// ---------------------------------------------------------------------------
// Flops
// ---------------------------------------------------------------------------

/// A flop is written as the number `(a * 52 + b) * 52 + c` of its cards
/// `a < b < c`; there are this many numbers.
pub const FLOP_NUMBERS: usize = 140_608;

pub open spec fn flop_number(a: int, b: int, c: int) -> int {
    (a * 52 + b) * 52 + c
}

/// Whether a number stands for a flop.
pub open spec fn is_flop(j: int) -> bool {
    &&& 0 <= j < FLOP_NUMBERS
    &&& j / 2704 < (j / 52) % 52 < j % 52
}

/// The number of the flop made of three different cards.
pub open spec fn flop_of(x: int, y: int, z: int) -> int {
    if x < y {
        if y < z {
            flop_number(x, y, z)
        } else if x < z {
            flop_number(x, z, y)
        } else {
            flop_number(z, x, y)
        }
    } else if x < z {
        flop_number(y, x, z)
    } else if y < z {
        flop_number(y, z, x)
    } else {
        flop_number(z, y, x)
    }
}

/// The flop with its suits renamed.
pub open spec fn flop_permuted(j: int, pm: [u8; 4]) -> int {
    flop_of(permuted(j / 2704, pm), permuted((j / 52) % 52, pm), permuted(j % 52, pm))
}

/// The renaming with number `k`, written in base four, and its digits.
pub open spec fn digits(k: int) -> [u8; 4] {
    [(k / 64 % 4) as u8, (k / 16 % 4) as u8, (k / 4 % 4) as u8, (k % 4) as u8]
}

/// The smallest number among the flop and its images under the renamings with
/// a number below `k`.
pub open spec fn least_image(j: int, k: int) -> int
    decreases k,
{
    if k <= 0 {
        j
    } else {
        let rest = least_image(j, k - 1);
        if is_perm(digits(k - 1)) && flop_permuted(j, digits(k - 1)) < rest {
            flop_permuted(j, digits(k - 1))
        } else {
            rest
        }
    }
}

/// The representative of a flop: the smallest of its suit images.
pub open spec fn representative(j: int) -> int {
    least_image(j, 256)
}

/// How many flops with a number below `n` have the representative `k`.
pub open spec fn tally(n: int, k: int) -> int
    decreases n,
{
    if n <= 0 {
        0
    } else if is_flop(n - 1) && representative(n - 1) == k {
        tally(n - 1, k) + 1
    } else {
        tally(n - 1, k)
    }
}

/// How many flops have a number below `n`.
pub open spec fn flops_below(n: int) -> int
    decreases n,
{
    if n <= 0 {
        0
    } else if is_flop(n - 1) {
        flops_below(n - 1) + 1
    } else {
        flops_below(n - 1)
    }
}

/// The text of a flop.
pub open spec fn flop_text(j: int) -> Seq<char> {
    card_text(j / 2704) + card_text((j / 52) % 52) + card_text(j % 52)
}

/// The representatives with a number below `n`, in order.
pub open spec fn representatives(n: int) -> Seq<int>
    decreases n,
{
    if n <= 0 {
        Seq::empty()
    } else if tally(FLOP_NUMBERS as int, n - 1) > 0 {
        representatives(n - 1).push(n - 1)
    } else {
        representatives(n - 1)
    }
}

/// The list of `reps`, each with its text and the number of flops it stands for.
pub open spec fn lists_flops(v: Seq<(String, u32)>, reps: Seq<int>) -> bool {
    &&& v.len() == reps.len()
    &&& forall|i: int|
        0 <= i < v.len() ==> (#[trigger] v[i]).0@ == flop_text(reps[i]) && v[i].1 == tally(
            FLOP_NUMBERS as int,
            reps[i],
        )
}

/// The weights of a list of flops, added up.
pub open spec fn weight_sum(v: Seq<(String, u32)>) -> int
    decreases v.len(),
{
    if v.len() == 0 {
        0
    } else {
        weight_sum(v.drop_last()) + v.last().1
    }
}

fn flop_number_of(x: Card, y: Card, z: Card) -> (r: usize)
    requires
        x < 52,
        y < 52,
        z < 52,
    ensures
        r == flop_of(x as int, y as int, z as int),
        r < FLOP_NUMBERS,
{
    let (a, b, c) = if x < y {
        if y < z {
            (x, y, z)
        } else if x < z {
            (x, z, y)
        } else {
            (z, x, y)
        }
    } else if x < z {
        (y, x, z)
    } else if y < z {
        (y, z, x)
    } else {
        (z, y, x)
    };
    (a as usize * 52 + b as usize) * 52 + c as usize
}

fn flop_representative(j: usize) -> (r: usize)
    requires
        j < FLOP_NUMBERS,
    ensures
        r == representative(j as int),
        r < FLOP_NUMBERS,
{
    let a: u8 = (j / 2704) as u8;
    let b: u8 = ((j / 52) % 52) as u8;
    let c: u8 = (j % 52) as u8;
    let mut best: usize = j;
    let mut k: usize = 0;
    while k < 256
        invariant
            k <= 256,
            j < FLOP_NUMBERS,
            a == j / 2704,
            b == (j / 52) % 52,
            c == j % 52,
            a < 52,
            best == least_image(j as int, k as int),
            best < FLOP_NUMBERS,
        decreases 256 - k,
    {
        let pm: [u8; 4] = [
            (k / 64 % 4) as u8,
            (k / 16 % 4) as u8,
            (k / 4 % 4) as u8,
            (k % 4) as u8,
        ];
        assert(pm == digits(k as int));
        if pm[0] != pm[1] && pm[0] != pm[2] && pm[0] != pm[3] && pm[1] != pm[2] && pm[1] != pm[3]
            && pm[2] != pm[3] {
            let image: usize = flop_number_of(
                permute_card(a, &pm),
                permute_card(b, &pm),
                permute_card(c, &pm),
            );
            if image < best {
                best = image;
            }
        }
        k = k + 1;
    }
    best
}

proof fn lemma_tally_bound(n: int, k: int)
    requires
        0 <= n,
    ensures
        0 <= tally(n, k) <= n,
    decreases n,
{
    if n > 0 {
        lemma_tally_bound(n - 1, k);
    }
}

fn flop_string(j: usize) -> (r: String)
    requires
        j < FLOP_NUMBERS,
    ensures
        r@ == flop_text(j as int),
{
    let a: u8 = (j / 2704) as u8;
    let b: u8 = ((j / 52) % 52) as u8;
    let c: u8 = (j % 52) as u8;
    let mut out = String::new();
    out.push(rank_char(rank(a)));
    out.push(suit_char(suit(a)));
    out.push(rank_char(rank(b)));
    out.push(suit_char(suit(b)));
    out.push(rank_char(rank(c)));
    out.push(suit_char(suit(c)));
    assert(out@ =~= flop_text(j as int));
    out
}

/// The sum of tallies over the first `m` representatives' numbers.
spec fn tallies(n: int, m: int) -> int
    decreases m,
{
    if m <= 0 {
        0
    } else {
        tallies(n, m - 1) + tally(n, m - 1)
    }
}

proof fn lemma_tallies_step(n: int, m: int)
    requires
        0 <= n < FLOP_NUMBERS,
        0 <= m,
    ensures
        tallies(n + 1, m) == tallies(n, m) + if is_flop(n) && representative(n) < m {
            1int
        } else {
            0int
        },
    decreases m,
{
    lemma_representative_range(n);
    if m > 0 {
        lemma_tallies_step(n, m - 1);
    }
}

proof fn lemma_representative_range(j: int)
    requires
        0 <= j < FLOP_NUMBERS,
    ensures
        0 <= representative(j) <= j,
{
    lemma_least_image_range(j, 256);
}

proof fn lemma_least_image_range(j: int, k: int)
    requires
        0 <= j < FLOP_NUMBERS,
        0 <= k <= 256,
    ensures
        0 <= least_image(j, k) <= j,
    decreases k,
{
    if k > 0 {
        lemma_least_image_range(j, k - 1);
        let pm = digits(k - 1);
        if is_perm(pm) {
            assert(0 <= j / 2704 < 52);
            lemma_permuted_range(j / 2704, pm);
            lemma_permuted_range((j / 52) % 52, pm);
            lemma_permuted_range(j % 52, pm);
        }
    }
}

proof fn lemma_permuted_range(c: int, pm: [u8; 4])
    requires
        is_card(c),
        is_perm(pm),
    ensures
        is_card(permuted(c, pm)),
{
    let s = c % 4;
    assert(s == 0 || s == 1 || s == 2 || s == 3);
}

proof fn lemma_tallies_total(n: int)
    requires
        0 <= n <= FLOP_NUMBERS,
    ensures
        tallies(n, FLOP_NUMBERS as int) == flops_below(n),
    decreases n,
{
    if n > 0 {
        lemma_tallies_total(n - 1);
        lemma_tallies_step(n - 1, FLOP_NUMBERS as int);
        lemma_representative_range(n - 1);
    } else {
        lemma_tallies_zero(FLOP_NUMBERS as int);
    }
}

proof fn lemma_tallies_zero(m: int)
    ensures
        tallies(0, m) == 0,
    decreases m,
{
    if m > 0 {
        lemma_tallies_zero(m - 1);
    }
}

/// The flops up to suit renaming: one representative of each class, in order,
/// with the number of flops in the class. The weights add up to the number of
/// all flops.
pub fn canonical_flops() -> (r: Vec<(String, u32)>)
    ensures
        lists_flops(r@, representatives(FLOP_NUMBERS as int)),
        weight_sum(r@) == flops_below(FLOP_NUMBERS as int),
{
    let mut counts: Vec<u32> = Vec::new();
    let mut i: usize = 0;
    while i < FLOP_NUMBERS
        invariant
            i <= FLOP_NUMBERS,
            counts@.len() == i,
            forall|k: int| 0 <= k < i ==> counts@[k] == 0,
        decreases FLOP_NUMBERS - i,
    {
        counts.push(0);
        i = i + 1;
    }
    let mut j: usize = 0;
    while j < FLOP_NUMBERS
        invariant
            j <= FLOP_NUMBERS,
            counts@.len() == FLOP_NUMBERS,
            forall|k: int| 0 <= k < FLOP_NUMBERS ==> counts@[k] == tally(j as int, k),
        decreases FLOP_NUMBERS - j,
    {
        let ghost before = counts@;
        if j / 2704 < (j / 52) % 52 && (j / 52) % 52 < j % 52 {
            let k: usize = flop_representative(j);
            proof {
                lemma_tally_bound(j as int, k as int);
            }
            let bumped: u32 = counts[k] + 1;
            counts.set(k, bumped);
        }
        assert forall|k: int| 0 <= k < FLOP_NUMBERS implies counts@[k] == tally(j + 1, k) by {
            assert(before[k] == tally(j as int, k));
            assert(is_flop(j as int) <==> (j / 2704 < (j / 52) % 52 && (j / 52) % 52 < j % 52));
        }
        j = j + 1;
    }
    let mut out: Vec<(String, u32)> = Vec::new();
    let mut n: usize = 0;
    while n < FLOP_NUMBERS
        invariant
            n <= FLOP_NUMBERS,
            counts@.len() == FLOP_NUMBERS,
            forall|k: int| 0 <= k < FLOP_NUMBERS ==> counts@[k] == tally(FLOP_NUMBERS as int, k),
            lists_flops(out@, representatives(n as int)),
            weight_sum(out@) == tallies(FLOP_NUMBERS as int, n as int),
        decreases FLOP_NUMBERS - n,
    {
        proof {
            lemma_tally_bound(FLOP_NUMBERS as int, n as int);
        }
        if counts[n] > 0 {
            let ghost before = out@;
            out.push((flop_string(n), counts[n]));
            assert(out@.drop_last() =~= before);
        }
        n = n + 1;
    }
    proof {
        lemma_tallies_total(FLOP_NUMBERS as int);
    }
    out
}

/// How many of the flops whose two low cards are `a` and `b` have a high card
/// below `c`.
spec fn row(a: int, b: int, c: int) -> int {
    if a < b < c {
        c - b - 1
    } else {
        0
    }
}

/// How many flops have a low card `a` and a middle card below `b`.
spec fn sheet(a: int, b: int) -> int
    decreases b,
{
    if b <= 0 {
        0
    } else {
        sheet(a, b - 1) + row(a, b - 1, 52)
    }
}

/// How many flops have a low card below `a`.
spec fn stack(a: int) -> int
    decreases a,
{
    if a <= 0 {
        0
    } else {
        stack(a - 1) + sheet(a - 1, 52)
    }
}

proof fn lemma_flops_row(a: int, b: int, c: int)
    requires
        is_card(a),
        is_card(b),
        0 <= c <= 52,
        flops_below(flop_number(a, b, 0)) == stack(a) + sheet(a, b),
    ensures
        flops_below(flop_number(a, b, c)) == stack(a) + sheet(a, b) + row(a, b, c),
    decreases c,
{
    if c > 0 {
        lemma_flops_row(a, b, c - 1);
        let j = flop_number(a, b, c - 1);
        assert(j / 2704 == a && (j / 52) % 52 == b && j % 52 == c - 1);
        assert(flop_number(a, b, c) == j + 1);
        assert(is_flop(j) <==> a < b < c - 1);
    }
}

proof fn lemma_flops_sheet(a: int, b: int)
    requires
        is_card(a),
        0 <= b <= 52,
        flops_below(flop_number(a, 0, 0)) == stack(a),
    ensures
        flops_below(flop_number(a, b, 0)) == stack(a) + sheet(a, b),
    decreases b,
{
    if b > 0 {
        lemma_flops_sheet(a, b - 1);
        lemma_flops_row(a, b - 1, 52);
        assert(flop_number(a, b - 1, 52) == flop_number(a, b, 0));
    }
}

proof fn lemma_flops_stack(a: int)
    requires
        0 <= a <= 52,
    ensures
        flops_below(flop_number(a, 0, 0)) == stack(a),
    decreases a,
{
    if a > 0 {
        lemma_flops_stack(a - 1);
        lemma_flops_sheet(a - 1, 52);
        assert(flop_number(a - 1, 52, 0) == flop_number(a, 0, 0));
    }
}

/// Twice the flops with a low card `a` and a middle card below `b`.
proof fn lemma_sheet_closed(a: int, b: int)
    requires
        is_card(a),
        0 <= b <= 52,
    ensures
        2 * sheet(a, b) == if b > a + 1 {
            (51 - a) * (50 - a) - (52 - b) * (51 - b)
        } else {
            0
        },
    decreases b,
{
    if b > 0 {
        lemma_sheet_closed(a, b - 1);
        if b - 1 > a {
            assert((53 - b) * (52 - b) - (52 - b) * (51 - b) == 2 * (52 - b)) by (nonlinear_arith);
            if b == a + 2 {
                assert((51 - a) * (50 - a) == (53 - b) * (52 - b));
            }
        }
    }
}

proof fn lemma_stack_closed(a: int)
    requires
        0 <= a <= 52,
    ensures
        6 * stack(a) == 52 * 51 * 50 - (52 - a) * (51 - a) * (50 - a),
    decreases a,
{
    if a > 0 {
        lemma_stack_closed(a - 1);
        lemma_sheet_closed(a - 1, 52);
        assert((52 - 52) * (51 - 52) == 0) by (nonlinear_arith);
        assert((53 - a) * (52 - a) * (51 - a) - (52 - a) * (51 - a) * (50 - a) == 3 * ((52 - a) * (
        51 - a))) by (nonlinear_arith);
        if a == 52 {
            assert((51 - 51) * (50 - 51) == 0) by (nonlinear_arith);
        }
    } else {
        assert((52 - 0) * (51 - 0) * (50 - 0) == 52 * 51 * 50) by (nonlinear_arith);
    }
}

/// There are 22100 flops.
pub proof fn law_flop_count()
    ensures
        flops_below(FLOP_NUMBERS as int) == 22_100,
{
    lemma_flops_stack(52);
    lemma_stack_closed(52);
    assert((52 - 52) * (51 - 52) * (50 - 52) == 0) by (nonlinear_arith);
    assert(52 * 51 * 50 == 132_600) by (nonlinear_arith);
    assert(flop_number(52, 0, 0) == FLOP_NUMBERS);
}

/// Which of `len` flops the `i`-th of `m` evenly spaced ones is.
pub open spec fn spaced(i: int, m: int, len: int) -> int {
    i * len / m
}

proof fn lemma_spaced(i: int, m: int, len: int)
    requires
        0 <= i < m <= len,
    ensures
        0 <= spaced(i, m, len) < len,
{
    assert(0 <= i * len < m * len) by (nonlinear_arith)
        requires
            0 <= i < m <= len,
    ;
    assert(0 <= (i * len) / m < len) by (nonlinear_arith)
        requires
            0 <= i * len < m * len,
            0 < m,
    ;
}

/// At most `n` of the flops up to suit renaming, evenly spaced, each with its
/// weight.
pub fn canonical_flops_subset(n: usize) -> (r: Vec<(String, u32)>)
    ensures
        ({
            let reps = representatives(FLOP_NUMBERS as int);
            let m = if n < reps.len() {
                n as int
            } else {
                reps.len() as int
            };
            lists_flops(r@, Seq::new(m as nat, |i: int| reps[spaced(i, m, reps.len() as int)]))
        }),
{
    let all = canonical_flops();
    let len: usize = all.len();
    let m: usize = if n < len {
        n
    } else {
        len
    };
    let mut out: Vec<(String, u32)> = Vec::new();
    let mut i: usize = 0;
    while i < m
        invariant
            i <= m <= len == all@.len(),
            out@.len() == i,
            forall|k: int|
                0 <= k < i ==> (#[trigger] out@[k]).0@ == all@[spaced(k, m as int, len as int)].0@
                    && out@[k].1 == all@[spaced(k, m as int, len as int)].1,
        decreases m - i,
    {
        proof {
            lemma_spaced(i as int, m as int, len as int);
            assert(0 <= i * len <= u128::MAX) by (nonlinear_arith)
                requires
                    0 <= i <= 0xffff_ffff_ffff_ffff,
                    0 <= len <= 0xffff_ffff_ffff_ffff,
            ;
        }
        let at: usize = (i as u128 * len as u128 / m as u128) as usize;
        assert(at == spaced(i as int, m as int, len as int));
        out.push((all[at].0.clone(), all[at].1));
        i = i + 1;
    }
    proof {
        let reps = representatives(FLOP_NUMBERS as int);
        let picked = Seq::new(
            m as nat,
            |k: int| reps[spaced(k, m as int, reps.len() as int)],
        );
        assert forall|k: int| 0 <= k < out@.len() implies (#[trigger] out@[k]).0@ == flop_text(
            picked[k],
        ) && out@[k].1 == tally(FLOP_NUMBERS as int, picked[k]) by {
            lemma_spaced(k, m as int, len as int);
            let at = spaced(k, m as int, len as int);
            assert(all@[at].0@ == flop_text(reps[at]));
        }
    }
    out
}

} // verus!
