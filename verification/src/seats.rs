//! Sets of seats, kept as bits of a word.

use vstd::prelude::*;

verus! {

/// Whether a seat is in a set.
pub open spec fn seated(set: u32, seat: int) -> bool {
    set & (1u32 << (seat as u32)) != 0
}

/// A set with a seat put in.
pub open spec fn with(set: u32, seat: int) -> u32 {
    set | (1u32 << (seat as u32))
}

/// A set with a seat taken out.
pub open spec fn without(set: u32, seat: int) -> u32 {
    set & !(1u32 << (seat as u32))
}

/// The first `n` seats.
pub open spec fn table_of(n: int) -> u32 {
    ((1u32 << (n as u32)) - 1) as u32
}

/// How many of the first `n` seats are in a set.
pub open spec fn seats_in(set: u32, n: int) -> nat
    decreases n,
{
    if n <= 0 {
        0
    } else {
        seats_in(set, n - 1) + if seated(set, n - 1) {
            1nat
        } else {
            0
        }
    }
}

/// The lowest of the first `n` seats in a set, or `n` where it holds none.
pub open spec fn first_seat(set: u32, n: int) -> int
    decreases n,
{
    if n <= 0 {
        0
    } else if first_seat(set, n - 1) < n - 1 || seated(set, n - 1) {
        first_seat(set, n - 1)
    } else {
        n
    }
}

/// [`seated`], computed.
pub fn is_seated(set: u32, seat: usize) -> (r: bool)
    requires
        seat < 32,
    ensures
        r == seated(set, seat as int),
{
    set & (1u32 << (seat as u32)) != 0
}

/// [`with`], computed.
pub fn seat_in(set: u32, seat: usize) -> (r: u32)
    requires
        seat < 32,
    ensures
        r == with(set, seat as int),
{
    set | (1u32 << (seat as u32))
}

/// [`without`], computed.
pub fn seat_out(set: u32, seat: usize) -> (r: u32)
    requires
        seat < 32,
    ensures
        r == without(set, seat as int),
{
    set & !(1u32 << (seat as u32))
}

/// [`table_of`], computed.
pub fn full_table(n: usize) -> (r: u32)
    requires
        n < 32,
    ensures
        r == table_of(n as int),
{
    let m: u32 = n as u32;
    assert((1u32 << m) >= 1) by (bit_vector)
        requires
            m < 32,
    ;
    (1u32 << m) - 1
}

/// [`seats_in`], computed.
pub fn count_seats(set: u32, n: usize) -> (r: usize)
    requires
        n < 32,
    ensures
        r == seats_in(set, n as int),
{
    let mut count: usize = 0;
    let mut i: usize = 0;
    while i < n
        invariant
            i <= n < 32,
            count <= i,
            count == seats_in(set, i as int),
        decreases n - i,
    {
        if is_seated(set, i) {
            count = count + 1;
        }
        i = i + 1;
    }
    count
}

/// [`first_seat`], computed.
pub fn lowest_seat(set: u32, n: usize) -> (r: usize)
    requires
        n < 32,
    ensures
        r == first_seat(set, n as int),
        r <= n,
{
    let mut i: usize = 0;
    while i < n && !is_seated(set, i)
        invariant
            i <= n < 32,
            first_seat(set, i as int) == i,
            forall|k: int| 0 <= k < i ==> !#[trigger] seated(set, k),
        decreases n - i,
    {
        i = i + 1;
    }
    proof {
        lemma_first_stays(set, i as int, n as int);
    }
    i
}

proof fn lemma_first_stays(set: u32, i: int, n: int)
    requires
        0 <= i <= n,
        first_seat(set, i) == i,
        i == n || seated(set, i),
    ensures
        first_seat(set, n) == i,
    decreases n,
{
    if i < n {
        if i < n - 1 {
            lemma_first_stays(set, i, n - 1);
        }
    }
}

proof fn lemma_bits(set: u32, a: u32, b: u32)
    by (bit_vector)
    requires
        a < 32,
        b < 32,
    ensures
        (set & !(1u32 << a)) & (1u32 << b) != 0 <==> (a != b && set & (1u32 << b) != 0),
        (set | (1u32 << a)) & (1u32 << b) != 0 <==> (a == b || set & (1u32 << b) != 0),
{
}

/// Taking a seat out of a set touches no other seat.
pub proof fn lemma_without(set: u32, seat: int, other: int)
    requires
        0 <= seat < 32,
        0 <= other < 32,
    ensures
        seated(without(set, seat), other) == (seat != other && seated(set, other)),
        seated(with(set, seat), other) == (seat == other || seated(set, other)),
{
    lemma_bits(set, seat as u32, other as u32);
}

/// Taking out a seat makes the set smaller by one.
pub proof fn lemma_one_fewer(set: u32, seat: int, n: int)
    requires
        0 <= seat < 32,
        0 <= n <= 32,
    ensures
        seats_in(without(set, seat), n) == seats_in(set, n) - if seat < n && seated(set, seat) {
            1int
        } else {
            0
        },
    decreases n,
{
    if n > 0 {
        lemma_one_fewer(set, seat, n - 1);
        lemma_without(set, seat, n - 1);
    }
}

/// A set counts no more seats than there are.
pub proof fn lemma_seats_in(set: u32, n: int)
    requires
        0 <= n,
    ensures
        0 <= seats_in(set, n) <= n,
    decreases n,
{
    if n > 0 {
        lemma_seats_in(set, n - 1);
    }
}

/// The lowest seat of a set that holds one is in the set.
pub proof fn lemma_first_seat(set: u32, n: int)
    requires
        0 <= n,
    ensures
        0 <= first_seat(set, n) <= n,
        first_seat(set, n) < n ==> seated(set, first_seat(set, n)),
        first_seat(set, n) == n <==> seats_in(set, n) == 0,
        forall|k: int| 0 <= k < first_seat(set, n) ==> !#[trigger] seated(set, k),
    decreases n,
{
    if n > 0 {
        lemma_first_seat(set, n - 1);
        lemma_seats_in(set, n - 1);
    }
}

} // verus!
