//! Strategy blocks. A block of `na` actions over `nh` hands holds action `a`
//! of hand `i` at `a * nh + i`.

use crate::num::{larger, Num};
use crate::num;
use vstd::prelude::*;

verus! {

/// Where a block holds action `a` of hand `i`.
pub open spec fn cell(nh: int, a: int, i: int) -> int {
    a * nh + i
}

/// A cell lies inside its block, and tells its action and hand.
pub proof fn lemma_cell(na: int, nh: int, a: int, i: int)
    requires
        0 <= a < na,
        0 <= i < nh,
    ensures
        0 <= cell(nh, a, i) < na * nh,
        cell(nh, a, i) / nh == a,
        cell(nh, a, i) % nh == i,
        0 <= a * nh,
{
    assert(a * nh + i < na * nh) by (nonlinear_arith)
        requires
            a < na,
            0 <= i < nh,
    ;
    assert(0 <= a * nh) by (nonlinear_arith)
        requires
            0 <= a,
            0 <= nh,
    ;
    vstd::arithmetic::div_mod::lemma_fundamental_div_mod_converse(a * nh + i, nh, a, i);
}

/// A place in a block is the cell of its action and hand.
pub proof fn lemma_place(na: int, nh: int, k: int)
    requires
        0 <= k < na * nh,
        0 <= na,
        0 <= nh,
    ensures
        0 <= k / nh < na,
        0 <= k % nh < nh,
        cell(nh, k / nh, k % nh) == k,
        nh > 0,
{
    assert(nh > 0) by (nonlinear_arith)
        requires
            0 <= k < na * nh,
            0 <= nh,
    ;
    assert(0 <= k / nh < na && 0 <= k % nh < nh && (k / nh) * nh + k % nh == k)
        by (nonlinear_arith)
        requires
            0 <= k < na * nh,
            nh > 0,
    ;
}

/// The entries of hand `i`, action by action.
pub open spec fn column<S>(block: Seq<S>, na: int, nh: int, i: int) -> Seq<S> {
    Seq::new(na as nat, |a: int| block[cell(nh, a, i)])
}

/// What a hand plays by its entries: each over their sum, or evenly where the
/// sum vanishes.
pub open spec fn share<S: Num>(entry: S, sum: S, na: int) -> S {
    if S::decimal_spec(1, 12).below_spec(sum) {
        entry.over_spec(sum)
    } else {
        S::decimal_spec(1, 0).over_spec(S::decimal_spec(na as i64, 0))
    }
}

/// The block scaled so that the actions of each hand share one unit.
pub open spec fn normalized<S: Num>(block: Seq<S>, na: int, nh: int) -> Seq<S> {
    Seq::new(
        (na * nh) as nat,
        |k: int| share(block[k], num::total_of(column(block, na, nh, k % nh)), na),
    )
}

/// The block with its negative entries at zero.
pub open spec fn positive_part<S: Num>(block: Seq<S>) -> Seq<S> {
    Seq::new(block.len(), |k: int| num::larger_of(S::decimal_spec(0, 0), block[k]))
}

/// The sum of a hand's entries.
pub fn column_total<S: Num>(block: &[S], na: usize, nh: usize, i: usize) -> (r: S)
    requires
        i < nh,
        na * nh <= block@.len(),
    ensures
        r == num::total_of(column(block@, na as int, nh as int, i as int)),
{
    let mut sum = S::decimal(0, 0);
    let mut a: usize = 0;
    let size: usize = block.len();
    let ghost all = column(block@, na as int, nh as int, i as int);
    assert(all.take(0) =~= Seq::<S>::empty());
    while a < na
        invariant
            a <= na,
            i < nh,
            na * nh <= block@.len() == size,
            all == column(block@, na as int, nh as int, i as int),
            sum == num::total_of(all.take(a as int)),
        decreases na - a,
    {
        proof {
            lemma_cell(na as int, nh as int, a as int, i as int);
        }
        assert(all.take(a + 1).drop_last() =~= all.take(a as int));
        sum = sum.plus(block[a * nh + i]);
        a = a + 1;
    }
    assert(all.take(na as int) =~= all);
    sum
}

/// [`normalized`], computed.
pub fn normalize<S: Num>(block: &[S], na: usize, nh: usize) -> (r: Vec<S>)
    requires
        na <= 0x7fff_ffff_ffff_ffff,
        block@.len() == na * nh,
    ensures
        r@ == normalized(block@, na as int, nh as int),
{
    let mut sums: Vec<S> = Vec::new();
    let mut i: usize = 0;
    while i < nh
        invariant
            i <= nh,
            block@.len() == na * nh,
            sums@.len() == i,
            forall|m: int|
                0 <= m < i ==> #[trigger] sums@[m] == num::total_of(
                    column(block@, na as int, nh as int, m),
                ),
        decreases nh - i,
    {
        sums.push(column_total(block, na, nh, i));
        i = i + 1;
    }
    let even = S::decimal(1, 0).over(S::decimal(na as i64, 0));
    let least = S::decimal(1, 12);
    let mut out: Vec<S> = Vec::new();
    let ghost want = normalized(block@, na as int, nh as int);
    let mut k: usize = 0;
    while k < block.len()
        invariant
            k <= block@.len() == na * nh,
            sums@.len() == nh,
            forall|m: int|
                0 <= m < nh ==> #[trigger] sums@[m] == num::total_of(
                    column(block@, na as int, nh as int, m),
                ),
            even == S::decimal_spec(1, 0).over_spec(S::decimal_spec(na as i64, 0)),
            least == S::decimal_spec(1, 12),
            want == normalized(block@, na as int, nh as int),
            out@ == want.take(k as int),
        decreases block@.len() - k,
    {
        proof {
            lemma_place(na as int, nh as int, k as int);
        }
        let sum = sums[k % nh];
        let v = if least.below(sum) {
            block[k].over(sum)
        } else {
            even
        };
        out.push(v);
        assert(out@ =~= want.take(k + 1));
        k = k + 1;
    }
    assert(out@ =~= want);
    out
}

/// [`positive_part`], computed.
pub fn positives<S: Num>(block: &[S]) -> (r: Vec<S>)
    ensures
        r@ == positive_part(block@),
{
    let zero = S::decimal(0, 0);
    let mut out: Vec<S> = Vec::new();
    let mut k: usize = 0;
    while k < block.len()
        invariant
            k <= block@.len(),
            zero == S::decimal_spec(0, 0),
            out@ == positive_part(block@).take(k as int),
        decreases block@.len() - k,
    {
        out.push(larger(zero, block[k]));
        assert(out@ =~= positive_part(block@).take(k + 1));
        k = k + 1;
    }
    assert(out@ =~= positive_part(block@));
    out
}

/// Reach times what is played of action `a`, hand by hand.
pub open spec fn reach_through<S: Num>(reach: Seq<S>, sigma: Seq<S>, a: int) -> Seq<S> {
    Seq::new(
        reach.len(),
        |i: int| reach[i].times_spec(sigma[cell(reach.len() as int, a, i)]),
    )
}

/// [`reach_through`], computed.
pub fn pass_action<S: Num>(reach: &[S], sigma: &[S], na: usize, a: usize) -> (r: Vec<S>)
    requires
        a < na,
        sigma@.len() == na * reach@.len(),
    ensures
        r@ == reach_through(reach@, sigma@, a as int),
{
    let nh: usize = reach.len();
    let size: usize = sigma.len();
    let mut out: Vec<S> = Vec::new();
    let mut i: usize = 0;
    while i < nh
        invariant
            i <= nh == reach@.len(),
            a < na,
            sigma@.len() == na * nh,
            size == sigma@.len(),
            out@ == reach_through(reach@, sigma@, a as int).take(i as int),
        decreases nh - i,
    {
        proof {
            lemma_cell(na as int, nh as int, a as int, i as int);
        }
        out.push(reach[i].times(sigma[a * nh + i]));
        assert(out@ =~= reach_through(reach@, sigma@, a as int).take(i + 1));
        i = i + 1;
    }
    assert(out@ =~= reach_through(reach@, sigma@, a as int));
    out
}

/// A sequence of `n` equal numbers.
pub open spec fn level<S>(n: nat, v: S) -> Seq<S> {
    Seq::new(n, |i: int| v)
}

/// [`level`], computed.
pub fn filled<S: Copy>(n: usize, v: S) -> (r: Vec<S>)
    ensures
        r@ == level(n as nat, v),
{
    let mut out: Vec<S> = Vec::new();
    let mut i: usize = 0;
    while i < n
        invariant
            i <= n,
            out@ == level(i as nat, v),
        decreases n - i,
    {
        out.push(v);
        assert(out@ =~= level((i + 1) as nat, v));
        i = i + 1;
    }
    out
}

/// A copy of a block.
pub fn copied<S: Copy>(s: &[S]) -> (r: Vec<S>)
    ensures
        r@ == s@,
{
    let mut out: Vec<S> = Vec::new();
    let mut i: usize = 0;
    while i < s.len()
        invariant
            i <= s@.len(),
            out@ == s@.take(i as int),
        decreases s@.len() - i,
    {
        out.push(s[i]);
        assert(out@ =~= s@.take(i + 1));
        i = i + 1;
    }
    assert(out@ =~= s@);
    out
}

/// Values added hand by hand.
pub open spec fn sum_pairs<S: Num>(u: Seq<S>, v: Seq<S>) -> Seq<S> {
    Seq::new(u.len(), |i: int| u[i].plus_spec(v[i]))
}

/// [`sum_pairs`], computed in place.
pub fn add_to<S: Num>(u: &mut Vec<S>, v: &[S])
    requires
        v@.len() == old(u)@.len(),
    ensures
        final(u)@ == sum_pairs(old(u)@, v@),
{
    let mut i: usize = 0;
    while i < u.len()
        invariant
            i <= u@.len() == old(u)@.len() == v@.len(),
            forall|m: int|
                0 <= m < u@.len() ==> #[trigger] u@[m] == if m < i {
                    old(u)@[m].plus_spec(v@[m])
                } else {
                    old(u)@[m]
                },
        decreases u@.len() - i,
    {
        let x = u[i].plus(v[i]);
        u.set(i, x);
        i = i + 1;
    }
    assert(u@ =~= sum_pairs(old(u)@, v@));
}

/// Lists of numbers as mathematical values.
pub open spec fn lines<S>(v: Seq<Vec<S>>) -> Seq<Seq<S>> {
    Seq::new(v.len(), |i: int| v[i]@)
}

// ---------------------------------------------------------------------------
// Folding the values of actions
// ---------------------------------------------------------------------------

/// What a class gets from each action, weighted by how often it is taken.
pub open spec fn mix_terms<S: Num>(sigma: Seq<S>, vals: Seq<Seq<S>>, nh: int, h: int) -> Seq<S> {
    Seq::new(
        vals.len(),
        |a: int| sigma[cell(nh, a, h)].times_spec(vals[a][h]),
    )
}

/// The values of a mixture of actions.
pub open spec fn mixed<S: Num>(sigma: Seq<S>, vals: Seq<Seq<S>>, nh: int) -> Seq<S> {
    Seq::new(nh as nat, |h: int| num::total_of(mix_terms(sigma, vals, nh, h)))
}

/// What a class gets from each action.
pub open spec fn slice_at<S>(vals: Seq<Seq<S>>, h: int) -> Seq<S> {
    Seq::new(vals.len(), |a: int| vals[a][h])
}

/// The sums of the values of actions that another seat takes.
pub open spec fn pooled<S: Num>(vals: Seq<Seq<S>>, nh: int) -> Seq<S> {
    Seq::new(nh as nat, |h: int| num::total_of(slice_at(vals, h)))
}

/// The largest number of a list, the earlier one where two are level.
pub open spec fn topmost<S: Num>(s: Seq<S>) -> S
    decreases s.len(),
{
    if s.len() <= 1 {
        s[0]
    } else {
        num::larger_of(topmost(s.drop_last()), s.last())
    }
}

/// The values of the best action.
pub open spec fn peaked<S: Num>(vals: Seq<Seq<S>>, nh: int) -> Seq<S> {
    Seq::new(nh as nat, |h: int| topmost(slice_at(vals, h)))
}

/// [`mixed`], computed.
pub fn mix<S: Num>(sigma: &Vec<S>, vals: &Vec<Vec<S>>, nh: usize) -> (r: Vec<S>)
    requires
        sigma@.len() == vals@.len() * nh,
        forall|a: int| 0 <= a < vals@.len() ==> (#[trigger] vals@[a])@.len() == nh,
    ensures
        r@ == mixed(sigma@, lines(vals@), nh as int),
        r@.len() == nh,
{
    let na: usize = vals.len();
    let size: usize = sigma.len();
    let mut out: Vec<S> = Vec::new();
    let mut h: usize = 0;
    while h < nh
        invariant
            h <= nh,
            na == vals@.len(),
            size == sigma@.len() == na * nh,
            forall|a: int| 0 <= a < vals@.len() ==> (#[trigger] vals@[a])@.len() == nh,
            out@ == mixed(sigma@, lines(vals@), nh as int).take(h as int),
        decreases nh - h,
    {
        let ghost terms = mix_terms(sigma@, lines(vals@), nh as int, h as int);
        let mut v = S::decimal(0, 0);
        let mut a: usize = 0;
        assert(terms.take(0) =~= Seq::<S>::empty());
        while a < na
            invariant
                a <= na == vals@.len(),
                h < nh,
                size == sigma@.len() == na * nh,
                forall|x: int| 0 <= x < vals@.len() ==> (#[trigger] vals@[x])@.len() == nh,
                terms == mix_terms(sigma@, lines(vals@), nh as int, h as int),
                v == num::total_of(terms.take(a as int)),
            decreases na - a,
        {
            proof {
                lemma_cell(na as int, nh as int, a as int, h as int);
                assert(terms.take(a + 1).drop_last() =~= terms.take(a as int));
                assert(lines(vals@)[a as int] == vals@[a as int]@);
            }
            v = v.plus(sigma[a * nh + h].times(vals[a][h]));
            a = a + 1;
        }
        assert(terms.take(na as int) =~= terms);
        out.push(v);
        assert(out@ =~= mixed(sigma@, lines(vals@), nh as int).take(h + 1));
        h = h + 1;
    }
    assert(out@ =~= mixed(sigma@, lines(vals@), nh as int));
    out
}

/// [`pooled`], computed.
pub fn pool<S: Num>(vals: &Vec<Vec<S>>, nh: usize) -> (r: Vec<S>)
    requires
        forall|a: int| 0 <= a < vals@.len() ==> (#[trigger] vals@[a])@.len() == nh,
    ensures
        r@ == pooled(lines(vals@), nh as int),
        r@.len() == nh,
{
    let mut out: Vec<S> = Vec::new();
    let mut h: usize = 0;
    while h < nh
        invariant
            h <= nh,
            forall|a: int| 0 <= a < vals@.len() ==> (#[trigger] vals@[a])@.len() == nh,
            out@ == pooled(lines(vals@), nh as int).take(h as int),
        decreases nh - h,
    {
        let ghost terms = slice_at(lines(vals@), h as int);
        let mut v = S::decimal(0, 0);
        let mut a: usize = 0;
        assert(terms.take(0) =~= Seq::<S>::empty());
        while a < vals.len()
            invariant
                a <= vals@.len(),
                h < nh,
                forall|x: int| 0 <= x < vals@.len() ==> (#[trigger] vals@[x])@.len() == nh,
                terms == slice_at(lines(vals@), h as int),
                v == num::total_of(terms.take(a as int)),
            decreases vals@.len() - a,
        {
            assert(terms.take(a + 1).drop_last() =~= terms.take(a as int));
            assert(lines(vals@)[a as int] == vals@[a as int]@);
            v = v.plus(vals[a][h]);
            a = a + 1;
        }
        assert(terms.take(vals@.len() as int) =~= terms);
        out.push(v);
        assert(out@ =~= pooled(lines(vals@), nh as int).take(h + 1));
        h = h + 1;
    }
    assert(out@ =~= pooled(lines(vals@), nh as int));
    out
}

/// [`peaked`], computed.
pub fn peak<S: Num>(vals: &Vec<Vec<S>>, nh: usize) -> (r: Vec<S>)
    requires
        1 <= vals@.len(),
        forall|a: int| 0 <= a < vals@.len() ==> (#[trigger] vals@[a])@.len() == nh,
    ensures
        r@ == peaked(lines(vals@), nh as int),
        r@.len() == nh,
{
    let mut out: Vec<S> = Vec::new();
    let mut h: usize = 0;
    while h < nh
        invariant
            h <= nh,
            1 <= vals@.len(),
            forall|a: int| 0 <= a < vals@.len() ==> (#[trigger] vals@[a])@.len() == nh,
            out@ == peaked(lines(vals@), nh as int).take(h as int),
        decreases nh - h,
    {
        let ghost terms = slice_at(lines(vals@), h as int);
        assert(vals@[0]@.len() == nh);
        let mut top = vals[0][h];
        let mut a: usize = 1;
        assert(terms.take(1)[0] == top);
        while a < vals.len()
            invariant
                1 <= a <= vals@.len(),
                h < nh,
                forall|x: int| 0 <= x < vals@.len() ==> (#[trigger] vals@[x])@.len() == nh,
                terms == slice_at(lines(vals@), h as int),
                top == topmost(terms.take(a as int)),
            decreases vals@.len() - a,
        {
            assert(terms.take(a + 1).drop_last() =~= terms.take(a as int));
            assert(lines(vals@)[a as int] == vals@[a as int]@);
            top = larger(top, vals[a][h]);
            a = a + 1;
        }
        assert(terms.take(vals@.len() as int) =~= terms);
        out.push(top);
        assert(out@ =~= peaked(lines(vals@), nh as int).take(h + 1));
        h = h + 1;
    }
    assert(out@ =~= peaked(lines(vals@), nh as int));
    out
}

} // verus!
