//! Exact fixed-point numbers.

use crate::num::{Num, Single};
use crate::text::{chars_of, string_of, strip};
use crate::text;
use vstd::prelude::*;

verus! {

/// How many billionths make one.
pub const BILLION: i128 = 1_000_000_000;

/// An exact fixed-point number: a count of billionths. Results outside the
/// range of the count stop at its ends, and quotients are cut off towards
/// zero. Dividing by zero gives zero.
#[derive(Clone, Copy, PartialEq, Eq, Structural, Debug)]
pub struct Nano {
    pub count: i64,
}

/// The representable count nearest to `v`.
pub open spec fn clamp_count(v: int) -> i64 {
    if v > i64::MAX {
        i64::MAX
    } else if v < i64::MIN {
        i64::MIN
    } else {
        v as i64
    }
}

/// Division cut off towards zero; zero where the divisor is zero.
pub open spec fn cut_div(a: int, b: int) -> int {
    if b == 0 {
        0
    } else if a >= 0 {
        if b > 0 {
            a / b
        } else {
            -(a / -b)
        }
    } else if b > 0 {
        -((-a) / b)
    } else {
        (-a) / (-b)
    }
}

/// Ten to the power `n`.
pub open spec fn ten_to(n: nat) -> int
    decreases n,
{
    if n == 0 {
        1
    } else {
        10 * ten_to((n - 1) as nat)
    }
}

fn clamp(v: i128) -> (r: i64)
    ensures
        r == clamp_count(v as int),
{
    if v > 9_223_372_036_854_775_807 {
        i64::MAX
    } else if v < -9_223_372_036_854_775_808 {
        i64::MIN
    } else {
        v as i64
    }
}

fn cut(a: i128, b: i128) -> (r: i128)
    requires
        a > i128::MIN,
        b > i128::MIN,
    ensures
        r == cut_div(a as int, b as int),
{
    if b == 0 {
        return 0;
    }
    let p: u128 = if a < 0 {
        (-a) as u128
    } else {
        a as u128
    };
    let q: u128 = if b < 0 {
        (-b) as u128
    } else {
        b as u128
    };
    let d: u128 = p / q;
    assert(d <= p) by (nonlinear_arith)
        requires
            d == p / q,
            q >= 1,
    ;
    let m: i128 = d as i128;
    if (a < 0) == (b < 0) {
        m
    } else {
        proof {
            assert(a == 0 ==> d == 0) by {
                if a == 0 {
                    vstd::arithmetic::div_mod::lemma_div_of0(q as int);
                }
            }
        }
        -m
    }
}

/// Ten to the power `n`, for the powers that fit.
fn power_of_ten(n: u8) -> (r: i128)
    requires
        n <= 18,
    ensures
        r == ten_to(n as nat),
        1 <= r <= 1_000_000_000_000_000_000,
{
    let mut r: i128 = 1;
    let mut i: u8 = 0;
    proof {
        lemma_ten_to_bound(18);
    }
    while i < n
        invariant
            i <= n <= 18,
            r == ten_to(i as nat),
            1 <= r,
            ten_to(18) == 1_000_000_000_000_000_000,
        decreases n - i,
    {
        proof {
            lemma_ten_to_monotone((i + 1) as nat, 18);
            assert(ten_to((i + 1) as nat) == 10 * ten_to(i as nat));
        }
        r = r * 10;
        i = i + 1;
    }
    proof {
        lemma_ten_to_monotone(n as nat, 18);
    }
    r
}

proof fn lemma_ten_to_monotone(a: nat, b: nat)
    requires
        a <= b,
    ensures
        1 <= ten_to(a) <= ten_to(b),
    decreases b,
{
    if a < b {
        lemma_ten_to_monotone(a, (b - 1) as nat);
    } else if a > 0 {
        lemma_ten_to_monotone((a - 1) as nat, (a - 1) as nat);
    }
}

proof fn lemma_ten_to_bound(n: nat)
    ensures
        ten_to(18) == 1_000_000_000_000_000_000,
{
    reveal_with_fuel(ten_to, 19);
}

/// Whether a character is a decimal digit.
pub open spec fn is_digit(c: char) -> bool {
    '0' <= c <= '9'
}

/// The value of a row of digits; `None` where another character is among them.
pub open spec fn digits_value(s: Seq<char>) -> Option<int>
    decreases s.len(),
{
    if s.len() == 0 {
        Some(0)
    } else {
        match digits_value(s.drop_last()) {
            None => None,
            Some(v) => if is_digit(s.last()) {
                Some(10 * v + (s.last() as int - 48))
            } else {
                None
            },
        }
    }
}

/// The decimal places of a text, cut off or filled up to nine.
pub open spec fn nine_places(s: Seq<char>) -> Seq<char> {
    Seq::new(9, |i: int| if i < s.len() { s[i] } else { '0' })
}

/// The value of an unsigned decimal such as `12`, `0.5` or `.25`, in billionths.
pub open spec fn unsigned_billionths(s: Seq<char>) -> Option<int> {
    let dot = crate::text::first_of(s, '.');
    let whole = s.take(dot);
    let places = if dot < s.len() {
        s.skip(dot + 1)
    } else {
        Seq::empty()
    };
    if whole.len() + places.len() == 0 {
        None
    } else {
        match (digits_value(whole), digits_value(places), digits_value(nine_places(places))) {
            (Some(w), Some(_), Some(p)) => Some(w * BILLION + p),
            _ => None,
        }
    }
}

/// The value of a decimal with an optional sign, in billionths; places past
/// the ninth are cut off.
pub open spec fn billionths(s: Seq<char>) -> Option<int> {
    if s.len() > 0 && s[0] == '-' {
        match unsigned_billionths(s.drop_first()) {
            Some(v) => Some(-v),
            None => None,
        }
    } else if s.len() > 0 && s[0] == '+' {
        unsigned_billionths(s.drop_first())
    } else {
        unsigned_billionths(s)
    }
}

/// The digits of a number that is not negative.
pub open spec fn digits_text(n: int) -> Seq<char>
    decreases n,
{
    if n < 10 {
        seq![(48 + n) as char]
    } else {
        digits_text(n / 10).push((48 + n % 10) as char)
    }
}

/// The last `k` digits of a number, with leading zeros.
pub open spec fn padded_text(n: int, k: nat) -> Seq<char>
    decreases k,
{
    if k == 0 {
        Seq::empty()
    } else {
        padded_text(n / 10, (k - 1) as nat).push((48 + n % 10) as char)
    }
}

/// A count of billionths written with `places` decimal places, rounded to the
/// nearest, halves away from zero.
pub open spec fn fixed_text(count: int, places: nat) -> Seq<char> {
    let unit = ten_to((9 - places) as nat);
    let size = if count < 0 {
        -count
    } else {
        count
    };
    let n = (size + unit / 2) / unit;
    let whole = digits_text(n / ten_to(places));
    let tail = if places == 0 {
        Seq::empty()
    } else {
        seq!['.'] + padded_text(n % ten_to(places), places)
    };
    if count < 0 {
        seq!['-'] + whole + tail
    } else {
        whole + tail
    }
}

/// The nearest count of whole numbers, halves away from zero.
pub open spec fn whole_count(count: int) -> int {
    if count < 0 {
        cut_div(count - 500_000_000, BILLION as int) * BILLION
    } else {
        cut_div(count + 500_000_000, BILLION as int) * BILLION
    }
}

/// The nearest integer, of two equally near ones the even one.
pub open spec fn nearest_even(count: int) -> int {
    let whole = count / (BILLION as int);
    let rest = count % (BILLION as int);
    if rest > 500_000_000 || (rest == 500_000_000 && whole % 2 == 1) {
        whole + 1
    } else {
        whole
    }
}

/// A count of billionths written without needless decimal places.
pub open spec fn short_text(count: int) -> Seq<char> {
    text::stripped(text::stripped(fixed_text(count, 9), '0'), '.')
}

/// A value past which every count is clamped.
const FAR: i128 = 100_000_000_000_000_000_000;

proof fn lemma_digits_fail(s: Seq<char>, k: int)
    requires
        0 <= k <= s.len(),
        digits_value(s.take(k)) is None,
    ensures
        digits_value(s) is None,
    decreases s.len(),
{
    if k == s.len() {
        assert(s.take(k) =~= s);
    } else {
        assert(s.drop_last().take(k) =~= s.take(k));
        lemma_digits_fail(s.drop_last(), k);
    }
}

/// The value of a row of digits, or `FAR` where it is larger.
fn read_digits(v: &Vec<char>) -> (r: Option<i128>)
    ensures
        match r {
            Some(x) => {
                &&& digits_value(v@) is Some
                &&& 0 <= x <= FAR
                &&& x == FAR ==> digits_value(v@)->Some_0 >= FAR
                &&& x < FAR ==> digits_value(v@)->Some_0 == x
            },
            None => digits_value(v@) is None,
        },
{
    let mut x: i128 = 0;
    let mut i: usize = 0;
    assert(v@.take(0) =~= Seq::<char>::empty());
    while i < v.len()
        invariant
            i <= v.len(),
            0 <= x <= FAR,
            digits_value(v@.take(i as int)) is Some,
            x == FAR ==> digits_value(v@.take(i as int))->Some_0 >= FAR,
            x < FAR ==> digits_value(v@.take(i as int))->Some_0 == x,
        decreases v.len() - i,
    {
        assert(v@.take(i + 1).drop_last() =~= v@.take(i as int));
        let c: char = v[i];
        if !('0' <= c && c <= '9') {
            proof {
                lemma_digits_fail(v@, i + 1);
            }
            return None;
        }
        let d: i128 = (c as u8 - 48) as i128;
        x = x * 10 + d;
        if x > FAR {
            x = FAR;
        }
        i = i + 1;
    }
    assert(v@.take(v@.len() as int) =~= v@);
    Some(x)
}

fn fill_places(v: &Vec<char>) -> (r: Vec<char>)
    ensures
        r@ == nine_places(v@),
{
    let mut out: Vec<char> = Vec::new();
    let mut i: usize = 0;
    while i < 9
        invariant
            i <= 9,
            out@.len() == i,
            forall|k: int|
                0 <= k < i ==> out@[k] == if k < v@.len() {
                    v@[k]
                } else {
                    '0'
                },
        decreases 9 - i,
    {
        if i < v.len() {
            out.push(v[i]);
        } else {
            out.push('0');
        }
        i = i + 1;
    }
    assert(out@ =~= nine_places(v@));
    out
}

proof fn lemma_nine_digits(s: Seq<char>, k: int)
    requires
        s.len() == 9,
        0 <= k <= 9,
        digits_value(s) is Some,
    ensures
        digits_value(s.take(k)) is Some,
        0 <= digits_value(s.take(k))->Some_0 < ten_to(k as nat),
    decreases k,
{
    if k > 0 {
        lemma_nine_digits(s, k - 1);
        assert(s.take(k).drop_last() =~= s.take(k - 1));
        if digits_value(s.take(k)) is None {
            lemma_digits_fail(s, k);
        }
    }
}

/// Clamping sees no difference between values past the ends.
proof fn lemma_clamp_far(w: int, x: int, p: int)
    requires
        0 <= x <= FAR,
        0 <= p < BILLION,
        x == FAR ==> w >= FAR,
        x < FAR ==> w == x,
    ensures
        clamp_count(w * BILLION + p) == clamp_count(x * BILLION + p),
        clamp_count(-(w * BILLION + p)) == clamp_count(-(x * BILLION + p)),
{
}

/// The unsigned decimal that the characters from `from` on denote, as a pair
/// of whole part and billionths.
fn read_unsigned(v: &Vec<char>) -> (r: Option<(i128, i128)>)
    ensures
        match r {
            Some((x, p)) => {
                &&& unsigned_billionths(v@) is Some
                &&& 0 <= x <= FAR
                &&& 0 <= p < BILLION
                &&& clamp_count(unsigned_billionths(v@)->Some_0) == clamp_count(x * BILLION + p)
                &&& clamp_count(-unsigned_billionths(v@)->Some_0) == clamp_count(
                    -(x * BILLION + p),
                )
            },
            None => unsigned_billionths(v@) is None,
        },
{
    let dot: usize = crate::text::find_first(v, '.');
    let whole = crate::text::part(v, 0, dot);
    let places = if dot < v.len() {
        crate::text::part(v, dot + 1, v.len())
    } else {
        Vec::new()
    };
    assert(whole@ =~= v@.take(dot as int));
    proof {
        if dot < v@.len() {
            assert(places@ =~= v@.skip(dot + 1));
        }
    }
    if whole.len() == 0 && places.len() == 0 {
        return None;
    }
    let filled = fill_places(&places);
    match (read_digits(&whole), read_digits(&places), read_digits(&filled)) {
        (Some(x), Some(_), Some(p)) => {
            proof {
                lemma_nine_digits(filled@, 9);
                assert(filled@.take(9) =~= filled@);
                assert(ten_to(9) == 1_000_000_000) by {
                    reveal_with_fuel(ten_to, 10);
                }
                lemma_clamp_far(digits_value(whole@)->Some_0, x as int, p as int);
            }
            Some((x, p))
        },
        _ => None,
    }
}

fn parse_count(text: &str) -> (r: Option<i64>)
    ensures
        r == (match billionths(text@) {
            Some(v) => Some(clamp_count(v)),
            None => None,
        }),
{
    let v = chars_of(text);
    let signed: bool = v.len() > 0 && (v[0] == '-' || v[0] == '+');
    let body = if signed {
        crate::text::part(&v, 1, v.len())
    } else {
        crate::text::part(&v, 0, v.len())
    };
    proof {
        if signed {
            assert(body@ =~= text@.drop_first());
        } else {
            assert(body@ =~= text@);
        }
    }
    match read_unsigned(&body) {
        None => None,
        Some((x, p)) => if signed && v[0] == '-' {
            Some(clamp(-(x * BILLION + p)))
        } else {
            Some(clamp(x * BILLION + p))
        },
    }
}

fn push_digits(out: &mut Vec<char>, n: u128)
    ensures
        final(out)@ == old(out)@ + digits_text(n as int),
    decreases n,
{
    if n < 10 {
        out.push((48 + n as u8) as char);
        assert(out@ =~= old(out)@ + digits_text(n as int));
    } else {
        push_digits(out, n / 10);
        out.push((48 + (n % 10) as u8) as char);
        assert(out@ =~= old(out)@ + digits_text(n as int));
    }
}

fn push_padded(out: &mut Vec<char>, n: u128, k: u8)
    ensures
        final(out)@ == old(out)@ + padded_text(n as int, k as nat),
    decreases k,
{
    if k > 0 {
        push_padded(out, n / 10, k - 1);
        out.push((48 + (n % 10) as u8) as char);
    }
    assert(out@ =~= old(out)@ + padded_text(n as int, k as nat));
}

fn fixed_string(count: i64, places: u8) -> (r: String)
    requires
        places <= 9,
    ensures
        r@ == fixed_text(count as int, places as nat),
{
    let unit: u128 = power_of_ten(9 - places) as u128;
    let size: u128 = if count < 0 {
        (-(count as i128)) as u128
    } else {
        count as u128
    };
    let n: u128 = (size + unit / 2) / unit;
    let scale: u128 = power_of_ten(places) as u128;
    let mut out: Vec<char> = Vec::new();
    if count < 0 {
        out.push('-');
    }
    push_digits(&mut out, n / scale);
    if places > 0 {
        out.push('.');
        push_padded(&mut out, n % scale, places);
    }
    assert(out@ =~= fixed_text(count as int, places as nat));
    string_of(&out)
}

/// Whether `r` billionths are the square root of `c` billionths, cut off.
pub open spec fn roots(r: int, c: int) -> bool {
    0 <= r && r * r <= c * BILLION < (r + 1) * (r + 1)
}

/// The square root of `c` billionths, in billionths, cut off; zero where
/// `c` is negative.
pub open spec fn root_count(c: int) -> int {
    if c < 0 {
        0
    } else {
        choose|r: int| roots(r, c)
    }
}

pub(crate) proof fn lemma_root(r: int, c: int)
    requires
        0 <= c,
        roots(r, c),
    ensures
        root_count(c) == r,
{
    let s = root_count(c);
    assert(roots(s, c));
    assert(r == s) by (nonlinear_arith)
        requires
            0 <= r,
            0 <= s,
            r * r < (s + 1) * (s + 1),
            s * s < (r + 1) * (r + 1),
    ;
}

fn square_root(c: i64) -> (r: i64)
    ensures
        r == root_count(c as int),
{
    if c < 0 {
        return 0;
    }
    let v: i128 = c as i128 * BILLION;
    let mut lo: i128 = 0;
    let mut hi: i128 = 0x1_0000_0000_0000;
    assert(0x1_0000_0000_0000 * 0x1_0000_0000_0000 > 0x7fff_ffff_ffff_ffff * 1_000_000_000);
    while hi - lo > 1
        invariant
            v == c * BILLION,
            0 <= lo < hi <= 0x1_0000_0000_0000,
            lo * lo <= v < hi * hi,
        decreases hi - lo,
    {
        let mid: i128 = (lo + hi) / 2;
        assert(0 <= mid * mid <= 0x1_0000_0000_0000_0000_0000_0000) by (nonlinear_arith)
            requires
                0 <= mid <= 0x1_0000_0000_0000,
        ;
        if mid * mid <= v {
            lo = mid;
        } else {
            hi = mid;
        }
    }
    proof {
        assert(hi == lo + 1);
        lemma_root(lo as int, c as int);
    }
    lo as i64
}

impl Num for Nano {
    open spec fn plus_spec(self, rhs: Self) -> Self {
        Nano { count: clamp_count(self.count + rhs.count) }
    }

    open spec fn minus_spec(self, rhs: Self) -> Self {
        Nano { count: clamp_count(self.count - rhs.count) }
    }

    open spec fn times_spec(self, rhs: Self) -> Self {
        Nano { count: clamp_count(cut_div(self.count * rhs.count, BILLION as int)) }
    }

    open spec fn over_spec(self, rhs: Self) -> Self {
        Nano { count: clamp_count(cut_div(self.count * BILLION, rhs.count as int)) }
    }

    open spec fn negated_spec(self) -> Self {
        Nano { count: clamp_count(-self.count) }
    }

    open spec fn below_spec(self, rhs: Self) -> bool {
        self.count < rhs.count
    }

    open spec fn at_most_spec(self, rhs: Self) -> bool {
        self.count <= rhs.count
    }

    open spec fn finite_spec(self) -> bool {
        true
    }

    open spec fn decimal_spec(units: i64, places: u8) -> Self {
        if places > 18 {
            Nano { count: 0 }
        } else {
            Nano { count: clamp_count(cut_div(units * BILLION, ten_to(places as nat))) }
        }
    }

    fn plus(self, rhs: Self) -> (r: Self) {
        Nano { count: clamp(self.count as i128 + rhs.count as i128) }
    }

    fn minus(self, rhs: Self) -> (r: Self) {
        Nano { count: clamp(self.count as i128 - rhs.count as i128) }
    }

    fn times(self, rhs: Self) -> (r: Self) {
        let a: i128 = self.count as i128;
        let b: i128 = rhs.count as i128;
        assert(-0x4000_0000_0000_0000_0000_0000_0000_0000 <= a * b
            <= 0x4000_0000_0000_0000_0000_0000_0000_0000) by (nonlinear_arith)
            requires
                -0x8000_0000_0000_0000 <= a <= 0x7fff_ffff_ffff_ffff,
                -0x8000_0000_0000_0000 <= b <= 0x7fff_ffff_ffff_ffff,
        ;
        Nano { count: clamp(cut(a * b, BILLION)) }
    }

    fn over(self, rhs: Self) -> (r: Self) {
        Nano { count: clamp(cut(self.count as i128 * BILLION, rhs.count as i128)) }
    }

    fn negated(self) -> (r: Self) {
        Nano { count: clamp(-(self.count as i128)) }
    }

    fn below(self, rhs: Self) -> (r: bool) {
        self.count < rhs.count
    }

    fn at_most(self, rhs: Self) -> (r: bool) {
        self.count <= rhs.count
    }

    fn finite(self) -> (r: bool) {
        true
    }

    fn decimal(units: i64, places: u8) -> (r: Self) {
        if places > 18 {
            return Nano { count: 0 };
        }
        Nano { count: clamp(cut(units as i128 * BILLION, power_of_ten(places))) }
    }

    open spec fn rounded_spec(self) -> Self {
        Nano { count: clamp_count(whole_count(self.count as int)) }
    }

    open spec fn root_spec(self) -> Self {
        Nano { count: root_count(self.count as int) as i64 }
    }

    fn root(self) -> (r: Self) {
        Nano { count: square_root(self.count) }
    }

    open spec fn floored_spec(self) -> i128 {
        (self.count as int / BILLION as int) as i128
    }

    fn floored(self) -> (r: i128) {
        let c: i128 = self.count as i128;
        (c + 10_000_000_000 * BILLION) / BILLION - 10_000_000_000
    }

    open spec fn nearest_spec(self) -> i64 {
        nearest_even(self.count as int) as i64
    }

    fn nearest(self) -> (r: i64) {
        let c: i128 = self.count as i128;
        let whole: i128 = (c + 10_000_000_000 * BILLION) / BILLION - 10_000_000_000;
        let rest: i128 = (c + 10_000_000_000 * BILLION) % BILLION;
        if rest > 500_000_000 || (rest == 500_000_000 && (whole + 10_000_000_000) % 2 == 1) {
            (whole + 1) as i64
        } else {
            whole as i64
        }
    }

    open spec fn shown_spec(self) -> Seq<char> {
        short_text(self.count as int)
    }

    fn rounded(self) -> (r: Self) {
        let c: i128 = self.count as i128;
        let half: i128 = 500_000_000;
        let n: i128 = if c < 0 {
            cut(c - half, BILLION)
        } else {
            cut(c + half, BILLION)
        };
        Nano { count: clamp(n * BILLION) }
    }

    fn shown(self) -> (r: String) {
        let text = fixed_string(self.count, 9);
        let mut v = chars_of(text.as_str());
        strip(&mut v, '0');
        strip(&mut v, '.');
        string_of(&v)
    }

    open spec fn parse_spec(text: Seq<char>) -> Option<Self> {
        match billionths(text) {
            Some(v) => Some(Nano { count: clamp_count(v) }),
            None => None,
        }
    }

    open spec fn fixed_spec(self, places: u8) -> Seq<char> {
        fixed_text(self.count as int, if places > 9 {
            9
        } else {
            places as nat
        })
    }

    fn parse(text: &str) -> (r: Option<Self>) {
        match parse_count(text) {
            Some(count) => Some(Nano { count }),
            None => None,
        }
    }

    fn fixed(self, places: u8) -> (r: String) {
        fixed_string(self.count, if places > 9 {
            9
        } else {
            places
        })
    }
}

/// A billionth count is as wide as it gets.
impl Single for Nano {
    type Wide = Nano;

    open spec fn widened_spec(self) -> Nano {
        self
    }

    open spec fn narrowed_spec(wide: Nano) -> Nano {
        wide
    }

    /// Counts below 2^31 in magnitude keep their place between the words;
    /// larger ones stop at the ends.
    open spec fn word_spec(self) -> u32 {
        if self.count < -0x8000_0000 {
            0
        } else if self.count >= 0x8000_0000 {
            0xffff_ffff
        } else {
            (self.count + 0x8000_0000) as u32
        }
    }

    open spec fn of_word_spec(word: u32) -> Nano {
        Nano { count: (word - 0x8000_0000) as i64 }
    }

    fn widened(self) -> (r: Nano) {
        self
    }

    fn narrowed(wide: Nano) -> (r: Nano) {
        wide
    }

    fn word(self) -> (r: u32) {
        if self.count < -0x8000_0000 {
            0
        } else if self.count >= 0x8000_0000 {
            0xffff_ffff
        } else {
            (self.count + 0x8000_0000) as u32
        }
    }

    fn of_word(word: u32) -> (r: Nano) {
        Nano { count: word as i64 - 0x8000_0000 }
    }
}

} // verus!
