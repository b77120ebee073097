//! Numbers, as the library sees them.
//!
//! Chip amounts, weights and values are numbers of a caller's choosing. The
//! library fixes which operations are applied to which operands, in which
//! order; what an operation returns is the number type's affair.
//! [`crate::nano::Nano`] is the exact instance: a fixed-point number counted
//! in billionths.

use vstd::prelude::*;

verus! {

/// What an operation gives that is known only to be a function of its
/// operands; `op` tells the operations apart.
pub open spec fn unnamed<A, R>(op: int, operands: A) -> R {
    arbitrary::<spec_fn(int, A) -> R>()(op, operands)
}

/// A number type. Every operation is a function of its operands; which one is
/// for the type to say, and where it does not, nothing more is known of it.
pub trait Num: Copy {
    open spec fn plus_spec(self, rhs: Self) -> Self {
        unnamed(1, (self, rhs))
    }

    open spec fn minus_spec(self, rhs: Self) -> Self {
        unnamed(2, (self, rhs))
    }

    open spec fn times_spec(self, rhs: Self) -> Self {
        unnamed(3, (self, rhs))
    }

    open spec fn over_spec(self, rhs: Self) -> Self {
        unnamed(4, (self, rhs))
    }

    open spec fn negated_spec(self) -> Self {
        unnamed(5, self)
    }

    open spec fn below_spec(self, rhs: Self) -> bool {
        unnamed(6, (self, rhs))
    }

    open spec fn at_most_spec(self, rhs: Self) -> bool {
        unnamed(7, (self, rhs))
    }

    open spec fn finite_spec(self) -> bool {
        unnamed(8, self)
    }

    open spec fn decimal_spec(units: i64, places: u8) -> Self {
        unnamed(9, (units, places))
    }

    open spec fn rounded_spec(self) -> Self {
        unnamed(10, self)
    }

    open spec fn root_spec(self) -> Self {
        unnamed(11, self)
    }

    open spec fn floored_spec(self) -> i128 {
        unnamed(12, self)
    }

    open spec fn nearest_spec(self) -> i64 {
        unnamed(13, self)
    }

    open spec fn parse_spec(text: Seq<char>) -> Option<Self> {
        unnamed(14, text)
    }

    open spec fn shown_spec(self) -> Seq<char> {
        unnamed(15, self)
    }

    open spec fn fixed_spec(self, places: u8) -> Seq<char> {
        unnamed(16, (self, places))
    }

    /// The sum of the operands.
    fn plus(self, rhs: Self) -> (r: Self)
        ensures
            r == self.plus_spec(rhs),
    ;

    /// The left operand less the right one.
    fn minus(self, rhs: Self) -> (r: Self)
        ensures
            r == self.minus_spec(rhs),
    ;

    /// The product of the operands.
    fn times(self, rhs: Self) -> (r: Self)
        ensures
            r == self.times_spec(rhs),
    ;

    /// The left operand divided by the right one.
    fn over(self, rhs: Self) -> (r: Self)
        ensures
            r == self.over_spec(rhs),
    ;

    /// The number with its sign turned.
    fn negated(self) -> (r: Self)
        ensures
            r == self.negated_spec(),
    ;

    /// Whether the left operand is strictly smaller.
    fn below(self, rhs: Self) -> (r: bool)
        ensures
            r == self.below_spec(rhs),
    ;

    /// Whether the left operand is smaller or equal.
    fn at_most(self, rhs: Self) -> (r: bool)
        ensures
            r == self.at_most_spec(rhs),
    ;

    /// Whether this is an ordinary number, neither infinite nor undefined.
    fn finite(self) -> (r: bool)
        ensures
            r == self.finite_spec(),
    ;

    /// The number `units / 10^places`.
    fn decimal(units: i64, places: u8) -> (r: Self)
        ensures
            r == Self::decimal_spec(units, places),
    ;

    /// The nearest whole number.
    fn rounded(self) -> (r: Self)
        ensures
            r == self.rounded_spec(),
    ;

    /// The square root.
    fn root(self) -> (r: Self)
        ensures
            r == self.root_spec(),
    ;

    /// The largest integer that is not larger. Numbers past the range give its
    /// ends, undefined ones zero.
    fn floored(self) -> (r: i128)
        ensures
            r == self.floored_spec(),
    ;

    /// The nearest integer, of two equally near ones the even one. Numbers
    /// past the range give its ends, undefined ones zero.
    fn nearest(self) -> (r: i64)
        ensures
            r == self.nearest_spec(),
    ;

    /// The number that a text denotes, if it denotes one.
    fn parse(text: &str) -> (r: Option<Self>)
        ensures
            r == Self::parse_spec(text@),
    ;

    /// The number written with as many decimal places as it needs.
    fn shown(self) -> (r: String)
        ensures
            r@ == self.shown_spec(),
    ;

    /// The number written with the given number of decimal places.
    fn fixed(self, places: u8) -> (r: String)
        ensures
            r@ == self.fixed_spec(places),
    ;
}

/// The integer that a number passes for, as a 64-bit count: its whole part,
/// within the range of the count.
pub open spec fn integer_of<N: Num>(x: N) -> i64 {
    let whole = x.floored_spec();
    if whole > i64::MAX {
        i64::MAX
    } else if whole < i64::MIN {
        i64::MIN
    } else {
        whole as i64
    }
}

/// [`integer_of`], computed.
pub fn integer<N: Num>(x: N) -> (r: i64)
    ensures
        r == integer_of(x),
{
    let whole: i128 = x.floored();
    if whole > i64::MAX as i128 {
        i64::MAX
    } else if whole < i64::MIN as i128 {
        i64::MIN
    } else {
        whole as i64
    }
}

/// A number type that a wider one backs: sums that run over many numbers are
/// carried in the wide type and narrowed at the end.
pub trait Single: Num {
    type Wide: Num;

    open spec fn widened_spec(self) -> Self::Wide {
        unnamed(17, self)
    }

    open spec fn narrowed_spec(wide: Self::Wide) -> Self {
        unnamed(18, wide)
    }

    open spec fn word_spec(self) -> u32 {
        unnamed(19, self)
    }

    open spec fn of_word_spec(word: u32) -> Self {
        unnamed(20, word)
    }

    /// The number in the wide type.
    fn widened(self) -> (r: Self::Wide)
        ensures
            r == self.widened_spec(),
    ;

    /// The nearest number to a wide one.
    fn narrowed(wide: Self::Wide) -> (r: Self)
        ensures
            r == Self::narrowed_spec(wide),
    ;

    /// The word that stands for the number in a save file.
    fn word(self) -> (r: u32)
        ensures
            r == self.word_spec(),
    ;

    /// The number that a word in a save file stands for.
    fn of_word(word: u32) -> (r: Self)
        ensures
            r == Self::of_word_spec(word),
    ;
}

/// The larger of two numbers; the first one where neither is larger.
pub open spec fn larger_of<N: Num>(a: N, b: N) -> N {
    if a.below_spec(b) {
        b
    } else {
        a
    }
}

/// The smaller of two numbers; the first one where neither is smaller.
pub open spec fn smaller_of<N: Num>(a: N, b: N) -> N {
    if b.below_spec(a) {
        b
    } else {
        a
    }
}

/// The magnitude of a number.
pub open spec fn magnitude_of<N: Num>(a: N) -> N {
    if a.below_spec(N::decimal_spec(0, 0)) {
        a.negated_spec()
    } else {
        a
    }
}

/// [`larger_of`], computed.
pub fn larger<N: Num>(a: N, b: N) -> (r: N)
    ensures
        r == larger_of(a, b),
{
    if a.below(b) {
        b
    } else {
        a
    }
}

/// [`smaller_of`], computed.
pub fn smaller<N: Num>(a: N, b: N) -> (r: N)
    ensures
        r == smaller_of(a, b),
{
    if b.below(a) {
        b
    } else {
        a
    }
}

/// [`magnitude_of`], computed.
pub fn magnitude<N: Num>(a: N) -> (r: N)
    ensures
        r == magnitude_of(a),
{
    if a.below(N::decimal(0, 0)) {
        a.negated()
    } else {
        a
    }
}

/// The sum of a sequence, added up from the front, starting from zero.
pub open spec fn total_of<N: Num>(s: Seq<N>) -> N
    decreases s.len(),
{
    if s.len() == 0 {
        N::decimal_spec(0, 0)
    } else {
        total_of(s.drop_last()).plus_spec(s.last())
    }
}

/// [`total_of`], computed.
pub fn total<N: Num>(s: &[N]) -> (r: N)
    ensures
        r == total_of(s@),
{
    let mut acc = N::decimal(0, 0);
    let mut i: usize = 0;
    assert(s@.take(0) =~= Seq::<N>::empty());
    while i < s.len()
        invariant
            i <= s.len(),
            acc == total_of(s@.take(i as int)),
        decreases s.len() - i,
    {
        assert(s@.take(i + 1).drop_last() =~= s@.take(i as int));
        acc = acc.plus(s[i]);
        i = i + 1;
    }
    assert(s@.take(s@.len() as int) =~= s@);
    acc
}

} // verus!
