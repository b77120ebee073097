//! Frequencies that a lock asks for: reading them, and scaling a solved
//! strategy until its aggregate frequencies meet them.

use crate::nano::Nano;
use crate::num;
use crate::num::{larger, magnitude, total, Num, Single};
use crate::strategy;
use crate::strategy::filled;
use vstd::prelude::*;

verus! {

/// Why frequencies cannot be used.
#[derive(Clone, Copy, Debug, PartialEq, Eq, Structural)]
pub enum FreqError {
    /// There must be one frequency per action.
    Count { expected: usize, got: usize },
    /// A frequency is negative or not finite.
    Invalid,
    /// No frequency is positive.
    AllZero,
}

/// A frequency that cannot be used.
pub open spec fn unusable<S: Num>(x: S) -> bool {
    x.below_spec(S::decimal_spec(0, 0)) || !x.finite_spec()
}

/// Frequencies scaled to sum to one.
pub open spec fn freqs_read<S: Num>(freqs: Seq<S>, na: int) -> Result<Seq<S>, FreqError> {
    let sum = num::total_of(freqs);
    if freqs.len() != na {
        Err(FreqError::Count { expected: na as usize, got: freqs.len() as usize })
    } else if exists|i: int| 0 <= i < freqs.len() && unusable(#[trigger] freqs[i]) {
        Err(FreqError::Invalid)
    } else if sum.at_most_spec(S::decimal_spec(1, 9)) {
        Err(FreqError::AllZero)
    } else {
        Ok(Seq::new(freqs.len(), |i: int| freqs[i].over_spec(sum)))
    }
}

/// Validate and normalize a per-action frequency vector to sum 1.
pub fn normalize_freqs<S: Num>(freqs: &[S], na: usize) -> (r: Result<Vec<S>, FreqError>)
    ensures
        match r {
            Ok(v) => freqs_read(freqs@, na as int) == Ok::<Seq<S>, FreqError>(v@),
            Err(e) => freqs_read(freqs@, na as int) == Err::<Seq<S>, FreqError>(e),
        },
{
    if freqs.len() != na {
        return Err(FreqError::Count { expected: na, got: freqs.len() });
    }
    let zero = S::decimal(0, 0);
    let mut i: usize = 0;
    while i < freqs.len()
        invariant
            i <= freqs@.len() == na,
            zero == S::decimal_spec(0, 0),
            forall|m: int| 0 <= m < i ==> !unusable(#[trigger] freqs@[m]),
        decreases freqs@.len() - i,
    {
        if freqs[i].below(zero) || !freqs[i].finite() {
            assert(unusable(freqs@[i as int]));
            return Err(FreqError::Invalid);
        }
        i = i + 1;
    }
    let sum = total(freqs);
    if sum.at_most(S::decimal(1, 9)) {
        return Err(FreqError::AllZero);
    }
    let mut out: Vec<S> = Vec::new();
    let mut k: usize = 0;
    while k < freqs.len()
        invariant
            k <= freqs@.len(),
            out@ == Seq::new(k as nat, |i: int| freqs@[i].over_spec(sum)),
        decreases freqs@.len() - k,
    {
        out.push(freqs[k].over(sum));
        assert(out@ =~= Seq::new((k + 1) as nat, |i: int| freqs@[i].over_spec(sum)));
        k = k + 1;
    }
    Ok(out)
}

// ---------------------------------------------------------------------------
// Raking
// ---------------------------------------------------------------------------

/// Whether a target asks for an action at all.
pub open spec fn wanted<S: Num>(t: S) -> bool {
    S::decimal_spec(1, 9).below_spec(t)
}

/// Nothing worth counting.
pub open spec fn negligible<W: Num>(x: W) -> bool {
    x.at_most_spec(W::decimal_spec(1, 12))
}

/// The multipliers to start from: one for wanted actions, else zero.
pub open spec fn first_multipliers<S: Single>(target: Seq<S>) -> Seq<S::Wide> {
    Seq::new(
        target.len(),
        |a: int|
            if wanted(target[a]) {
                S::Wide::decimal_spec(1, 0)
            } else {
                S::Wide::decimal_spec(0, 0)
            },
    )
}

/// What hand `i` plays of the wanted ones among the first `k` actions.
pub open spec fn wanted_mass<S: Single>(
    sigma: Seq<S>,
    nh: int,
    i: int,
    target: Seq<S>,
    k: int,
) -> S::Wide
    decreases k,
{
    if k <= 0 {
        S::Wide::decimal_spec(0, 0)
    } else {
        let sum = wanted_mass(sigma, nh, i, target, k - 1);
        if wanted(target[k - 1]) {
            sum.plus_spec(sigma[strategy::cell(nh, k - 1, i)].widened_spec())
        } else {
            sum
        }
    }
}

/// The strategy with every hand that plays no wanted action put on the target.
pub open spec fn prepared<S: Single>(sigma: Seq<S>, na: int, nh: int, target: Seq<S>) -> Seq<S> {
    Seq::new(
        (na * nh) as nat,
        |k: int|
            if negligible(wanted_mass(sigma, nh, k % nh, target, na)) {
                target[k / nh]
            } else {
                sigma[k]
            },
    )
}

/// The first `k` actions of hand `i`, scaled and summed.
pub open spec fn scaled_mass<S: Single>(
    m: Seq<S::Wide>,
    sigma: Seq<S>,
    nh: int,
    i: int,
    k: int,
) -> S::Wide
    decreases k,
{
    if k <= 0 {
        S::Wide::decimal_spec(0, 0)
    } else {
        scaled_mass(m, sigma, nh, i, k - 1).plus_spec(
            m[k - 1].times_spec(sigma[strategy::cell(nh, k - 1, i)].widened_spec()),
        )
    }
}

/// Hand `i` does not count towards the aggregate.
pub open spec fn left_out<S: Single>(
    m: Seq<S::Wide>,
    sigma: Seq<S>,
    nh: int,
    reach: Seq<S>,
    i: int,
) -> bool {
    reach[i].widened_spec().at_most_spec(S::Wide::decimal_spec(0, 0)) || negligible(
        scaled_mass(m, sigma, nh, i, m.len() as int),
    )
}

/// The reach-weighted play of the first `n` hands under the multipliers, per
/// action, and the reach that it sums over.
pub open spec fn gathered<S: Single>(
    m: Seq<S::Wide>,
    sigma: Seq<S>,
    nh: int,
    reach: Seq<S>,
    n: int,
) -> (Seq<S::Wide>, S::Wide)
    decreases n,
{
    if n <= 0 {
        (strategy::level(m.len(), S::Wide::decimal_spec(0, 0)), S::Wide::decimal_spec(0, 0))
    } else {
        let (agg, sum) = gathered(m, sigma, nh, reach, n - 1);
        let i = n - 1;
        let w = reach[i].widened_spec();
        if left_out(m, sigma, nh, reach, i) {
            (agg, sum)
        } else {
            let denom = scaled_mass(m, sigma, nh, i, m.len() as int);
            (
                Seq::new(
                    m.len(),
                    |a: int|
                        agg[a].plus_spec(
                            w.times_spec(m[a]).times_spec(
                                sigma[strategy::cell(nh, a, i)].widened_spec(),
                            ).over_spec(denom),
                        ),
                ),
                sum.plus_spec(w),
            )
        }
    }
}

/// The multipliers of the first `k` actions moved towards the target, and how
/// far the farthest wanted action was from it.
pub open spec fn steered<S: Single>(
    m: Seq<S::Wide>,
    agg: Seq<S::Wide>,
    sum: S::Wide,
    target: Seq<S>,
    k: int,
) -> (Seq<S::Wide>, S::Wide)
    decreases k,
{
    if k <= 0 {
        (m, S::Wide::decimal_spec(0, 0))
    } else {
        let (next, err) = steered(m, agg, sum, target, k - 1);
        let a = k - 1;
        if !wanted(target[a]) {
            (next, err)
        } else {
            let t = target[a].widened_spec();
            let f = agg[a].over_spec(sum);
            let off = num::larger_of(err, num::magnitude_of(f.minus_spec(t)));
            if S::Wide::decimal_spec(1, 9).below_spec(f) {
                (next.update(a, next[a].times_spec(t.over_spec(f))), off)
            } else {
                (next, off)
            }
        }
    }
}

/// The multipliers scaled to average one.
pub open spec fn rescaled<W: Num>(m: Seq<W>) -> Seq<W> {
    let sum = num::total_of(m);
    if W::decimal_spec(1, 12).below_spec(sum) {
        let scale = W::decimal_spec(m.len() as i64, 0).over_spec(sum);
        Seq::new(m.len(), |a: int| m[a].times_spec(scale))
    } else {
        m
    }
}

/// The multipliers after at most `rounds` rounds of fitting.
pub open spec fn fitted<S: Single>(
    m: Seq<S::Wide>,
    sigma: Seq<S>,
    nh: int,
    reach: Seq<S>,
    target: Seq<S>,
    rounds: nat,
) -> Seq<S::Wide>
    decreases rounds,
{
    if rounds == 0 {
        m
    } else {
        let (agg, sum) = gathered(m, sigma, nh, reach, nh);
        if negligible(sum) {
            m
        } else {
            let (next, err) = steered(m, agg, sum, target, m.len() as int);
            let scaled = rescaled(next);
            if err.below_spec(S::Wide::decimal_spec(1, 4)) {
                scaled
            } else {
                fitted(scaled, sigma, nh, reach, target, (rounds - 1) as nat)
            }
        }
    }
}

/// The strategy under the multipliers, each hand scaled back to one.
pub open spec fn applied<S: Single>(
    m: Seq<S::Wide>,
    sigma: Seq<S>,
    nh: int,
    target: Seq<S>,
) -> Seq<S> {
    Seq::new(
        (m.len() * nh) as nat,
        |k: int|
            {
                let a = k / nh;
                let sum = scaled_mass(m, sigma, nh, k % nh, m.len() as int);
                if S::Wide::decimal_spec(1, 12).below_spec(sum) {
                    S::narrowed_spec(
                        S::narrowed_spec(
                            m[a].times_spec(sigma[k].widened_spec()),
                        ).widened_spec().over_spec(sum),
                    )
                } else {
                    target[a]
                }
            },
    )
}

/// A strategy raked to target frequencies.
pub open spec fn raked<S: Single>(
    sigma: Seq<S>,
    na: int,
    nh: int,
    reach: Seq<S>,
    target: Seq<S>,
) -> Seq<S> {
    let base = prepared(sigma, na, nh, target);
    applied(fitted(first_multipliers(target), base, nh, reach, target, 400), base, nh, target)
}

fn mass_wanted<S: Single>(sigma: &[S], na: usize, nh: usize, i: usize, target: &[S]) -> (r: S::Wide)
    requires
        i < nh,
        sigma@.len() == na * nh,
        target@.len() == na,
    ensures
        r == wanted_mass(sigma@, nh as int, i as int, target@, na as int),
{
    let least = S::decimal(1, 9);
    let mut sum = S::Wide::decimal(0, 0);
    let size: usize = sigma.len();
    let mut a: usize = 0;
    while a < na
        invariant
            a <= na,
            i < nh,
            sigma@.len() == na * nh == size,
            target@.len() == na,
            least == S::decimal_spec(1, 9),
            sum == wanted_mass(sigma@, nh as int, i as int, target@, a as int),
        decreases na - a,
    {
        proof {
            strategy::lemma_cell(na as int, nh as int, a as int, i as int);
        }
        if least.below(target[a]) {
            sum = sum.plus(sigma[a * nh + i].widened());
        }
        a = a + 1;
    }
    sum
}

fn mass_scaled<S: Single>(m: &[S::Wide], sigma: &[S], nh: usize, i: usize) -> (r: S::Wide)
    requires
        i < nh,
        sigma@.len() == m@.len() * nh,
    ensures
        r == scaled_mass(m@, sigma@, nh as int, i as int, m@.len() as int),
{
    let na: usize = m.len();
    let mut sum = S::Wide::decimal(0, 0);
    let size: usize = sigma.len();
    let mut a: usize = 0;
    while a < na
        invariant
            a <= na == m@.len(),
            i < nh,
            sigma@.len() == na * nh == size,
            sum == scaled_mass(m@, sigma@, nh as int, i as int, a as int),
        decreases na - a,
    {
        proof {
            strategy::lemma_cell(na as int, nh as int, a as int, i as int);
        }
        sum = sum.plus(m[a].times(sigma[a * nh + i].widened()));
        a = a + 1;
    }
    sum
}

fn prepare<S: Single>(sigma: &[S], na: usize, nh: usize, target: &[S]) -> (r: Vec<S>)
    requires
        sigma@.len() == na * nh,
        target@.len() == na,
    ensures
        r@ == prepared(sigma@, na as int, nh as int, target@),
{
    let least = S::Wide::decimal(1, 12);
    let mut mass: Vec<S::Wide> = Vec::new();
    let mut i: usize = 0;
    while i < nh
        invariant
            i <= nh,
            sigma@.len() == na * nh,
            target@.len() == na,
            mass@.len() == i,
            forall|x: int|
                0 <= x < i ==> #[trigger] mass@[x] == wanted_mass(
                    sigma@,
                    nh as int,
                    x,
                    target@,
                    na as int,
                ),
        decreases nh - i,
    {
        mass.push(mass_wanted(sigma, na, nh, i, target));
        i = i + 1;
    }
    let ghost want = prepared(sigma@, na as int, nh as int, target@);
    let mut out: Vec<S> = Vec::new();
    let mut k: usize = 0;
    while k < sigma.len()
        invariant
            k <= sigma@.len() == na * nh,
            target@.len() == na,
            mass@.len() == nh,
            least == S::Wide::decimal_spec(1, 12),
            forall|x: int|
                0 <= x < nh ==> #[trigger] mass@[x] == wanted_mass(
                    sigma@,
                    nh as int,
                    x,
                    target@,
                    na as int,
                ),
            want == prepared(sigma@, na as int, nh as int, target@),
            out@ == want.take(k as int),
        decreases sigma@.len() - k,
    {
        proof {
            strategy::lemma_place(na as int, nh as int, k as int);
        }
        let v = if mass[k % nh].at_most(least) {
            target[k / nh]
        } else {
            sigma[k]
        };
        out.push(v);
        assert(out@ =~= want.take(k + 1));
        k = k + 1;
    }
    assert(out@ =~= want);
    out
}

fn gather<S: Single>(m: &[S::Wide], sigma: &[S], nh: usize, reach: &[S]) -> (r: (
    Vec<S::Wide>,
    S::Wide,
))
    requires
        sigma@.len() == m@.len() * nh,
        reach@.len() == nh,
    ensures
        (r.0@, r.1) == gathered(m@, sigma@, nh as int, reach@, nh as int),
        r.0@.len() == m@.len(),
{
    let na: usize = m.len();
    let zero = S::Wide::decimal(0, 0);
    let least = S::Wide::decimal(1, 12);
    let mut agg = filled(na, zero);
    let mut sum = zero;
    let size: usize = sigma.len();
    let mut i: usize = 0;
    while i < nh
        invariant
            i <= nh == reach@.len(),
            na == m@.len(),
            sigma@.len() == na * nh == size,
            zero == S::Wide::decimal_spec(0, 0),
            least == S::Wide::decimal_spec(1, 12),
            agg@.len() == na,
            (agg@, sum) == gathered(m@, sigma@, nh as int, reach@, i as int),
        decreases nh - i,
    {
        let w = reach[i].widened();
        let denom = mass_scaled(m, sigma, nh, i);
        if !w.at_most(zero) && !denom.at_most(least) {
            let ghost before = agg@;
            let mut a: usize = 0;
            while a < na
                invariant
                    a <= na == m@.len() == agg@.len() == before.len(),
                    i < nh,
                    sigma@.len() == na * nh == size,
                    forall|x: int|
                        0 <= x < na ==> #[trigger] agg@[x] == if x < a {
                            before[x].plus_spec(
                                w.times_spec(m@[x]).times_spec(
                                    sigma@[strategy::cell(nh as int, x, i as int)].widened_spec(),
                                ).over_spec(denom),
                            )
                        } else {
                            before[x]
                        },
                decreases na - a,
            {
                proof {
                    strategy::lemma_cell(na as int, nh as int, a as int, i as int);
                }
                let x = agg[a].plus(
                    w.times(m[a]).times(sigma[a * nh + i].widened()).over(denom),
                );
                agg.set(a, x);
                a = a + 1;
            }
            sum = sum.plus(w);
            assert(agg@ =~= gathered(m@, sigma@, nh as int, reach@, i + 1).0);
        }
        i = i + 1;
    }
    (agg, sum)
}

fn steer<S: Single>(m: &mut Vec<S::Wide>, agg: &[S::Wide], sum: S::Wide, target: &[S]) -> (err:
    S::Wide)
    requires
        agg@.len() == old(m)@.len(),
        target@.len() == old(m)@.len(),
    ensures
        (final(m)@, err) == steered(old(m)@, agg@, sum, target@, target@.len() as int),
        final(m)@.len() == old(m)@.len(),
{
    let ghost start = m@;
    let least = S::decimal(1, 9);
    let least_wide = S::Wide::decimal(1, 9);
    let mut err = S::Wide::decimal(0, 0);
    let mut a: usize = 0;
    while a < target.len()
        invariant
            a <= target@.len() == agg@.len() == m@.len(),
            least == S::decimal_spec(1, 9),
            least_wide == S::Wide::decimal_spec(1, 9),
            (m@, err) == steered(start, agg@, sum, target@, a as int),
        decreases target@.len() - a,
    {
        if least.below(target[a]) {
            let t = target[a].widened();
            let f = agg[a].over(sum);
            err = larger(err, magnitude(f.minus(t)));
            if least_wide.below(f) {
                let x = m[a].times(t.over(f));
                m.set(a, x);
            }
        }
        a = a + 1;
    }
    err
}

fn rescale<W: Num>(m: &mut Vec<W>)
    requires
        old(m)@.len() <= 255,
    ensures
        final(m)@ == rescaled(old(m)@),
        final(m)@.len() == old(m)@.len(),
{
    let ghost start = m@;
    let sum = total(m.as_slice());
    if W::decimal(1, 12).below(sum) {
        let scale = W::decimal(m.len() as i64, 0).over(sum);
        let mut a: usize = 0;
        while a < m.len()
            invariant
                a <= m@.len() == start.len(),
                forall|x: int|
                    0 <= x < m@.len() ==> #[trigger] m@[x] == if x < a {
                        start[x].times_spec(scale)
                    } else {
                        start[x]
                    },
            decreases m@.len() - a,
        {
            let x = m[a].times(scale);
            m.set(a, x);
            a = a + 1;
        }
        assert(m@ =~= rescaled(start));
    }
}

/// Rake per-action multipliers (iterative proportional fitting) so that, after
/// scaling each hand's strategy and renormalizing, the reach-weighted aggregate
/// frequency of each action matches `target`. Actions with a zero target are
/// driven out; actions the solved strategy never uses can't be forced up
/// (no probability mass to scale). Those stay near zero.
pub fn rake_to_target<S: Single>(
    sigma: &mut [S],
    na: usize,
    nh: usize,
    reach: &[S],
    target: &[S],
)
    requires
        na <= 255,
        old(sigma)@.len() == na * nh,
        reach@.len() == nh,
        target@.len() == na,
    ensures
        final(sigma)@ == raked(old(sigma)@, na as int, nh as int, reach@, target@),
        final(sigma)@.len() == old(sigma)@.len(),
{
    let ghost start = sigma@;
    let base = prepare(sigma, na, nh, target);
    assert(base@.len() == na * nh);
    let wanted_least = S::decimal(1, 9);
    let mut m: Vec<S::Wide> = Vec::new();
    let mut a: usize = 0;
    while a < na
        invariant
            a <= na == target@.len(),
            wanted_least == S::decimal_spec(1, 9),
            m@ == first_multipliers(target@).take(a as int),
        decreases na - a,
    {
        if wanted_least.below(target[a]) {
            m.push(S::Wide::decimal(1, 0));
        } else {
            m.push(S::Wide::decimal(0, 0));
        }
        assert(m@ =~= first_multipliers(target@).take(a + 1));
        a = a + 1;
    }
    assert(m@ =~= first_multipliers(target@));
    let ghost first = m@;
    let least = S::Wide::decimal(1, 12);
    let close = S::Wide::decimal(1, 4);
    let mut left: usize = 400;
    let mut done: bool = false;
    while left > 0 && !done
        invariant
            left <= 400,
            na <= 255,
            m@.len() == na == target@.len(),
            base@.len() == na * nh,
            reach@.len() == nh,
            least == S::Wide::decimal_spec(1, 12),
            close == S::Wide::decimal_spec(1, 4),
            fitted(first, base@, nh as int, reach@, target@, 400) == if done {
                m@
            } else {
                fitted(m@, base@, nh as int, reach@, target@, left as nat)
            },
        decreases left + if done {
            0int
        } else {
            1int
        },
    {
        let (agg, sum) = gather(m.as_slice(), base.as_slice(), nh, reach);
        if sum.at_most(least) {
            done = true;
        } else {
            let err = steer(&mut m, agg.as_slice(), sum, target);
            rescale(&mut m);
            if err.below(close) {
                done = true;
            }
            left = left - 1;
        }
    }
    let ghost fit = m@;
    let ghost want = applied(fit, base@, nh as int, target@);
    let mut sums: Vec<S::Wide> = Vec::new();
    let mut i: usize = 0;
    while i < nh
        invariant
            i <= nh,
            m@.len() == na,
            base@.len() == na * nh,
            sums@.len() == i,
            forall|x: int|
                0 <= x < i ==> #[trigger] sums@[x] == scaled_mass(
                    m@,
                    base@,
                    nh as int,
                    x,
                    na as int,
                ),
        decreases nh - i,
    {
        sums.push(mass_scaled(m.as_slice(), base.as_slice(), nh, i));
        i = i + 1;
    }
    let mut k: usize = 0;
    while k < sigma.len()
        invariant
            k <= sigma@.len() == base@.len() == na * nh,
            m@.len() == na == target@.len(),
            fit == m@,
            want == applied(fit, base@, nh as int, target@),
            sums@.len() == nh,
            least == S::Wide::decimal_spec(1, 12),
            forall|x: int|
                0 <= x < nh ==> #[trigger] sums@[x] == scaled_mass(
                    m@,
                    base@,
                    nh as int,
                    x,
                    na as int,
                ),
            forall|x: int| 0 <= x < k ==> #[trigger] sigma@[x] == want[x],
        decreases sigma@.len() - k,
    {
        proof {
            strategy::lemma_place(na as int, nh as int, k as int);
        }
        let sum = sums[k % nh];
        let act: usize = k / nh;
        let v = if least.below(sum) {
            S::narrowed(S::narrowed(m[act].times(base[k].widened())).widened().over(sum))
        } else {
            target[act]
        };
        sigma[k] = v;
        k = k + 1;
    }
    assert(sigma@ =~= want);
}

// ---------------------------------------------------------------------------
// What raking guarantees
// ---------------------------------------------------------------------------

pub open spec fn zero_nano() -> Nano {
    Nano { count: 0 }
}

pub(crate) proof fn lemma_zero_times(x: Nano)
    ensures
        zero_nano().times_spec(x) == zero_nano(),
        zero_nano().over_spec(x) == zero_nano(),
{
    assert(0 * x.count == 0);
    let b = x.count as int;
    if b != 0 {
        let d = if b > 0 {
            b
        } else {
            -b
        };
        vstd::arithmetic::div_mod::lemma_div_of0(d);
    }
    vstd::arithmetic::div_mod::lemma_div_of0(1_000_000_000);
}

pub(crate) proof fn lemma_steered_keeps(
    m: Seq<Nano>,
    agg: Seq<Nano>,
    sum: Nano,
    target: Seq<Nano>,
    k: int,
    a: int,
)
    requires
        0 <= a < m.len(),
        k <= m.len() == target.len(),
        !wanted(target[a]),
    ensures
        steered(m, agg, sum, target, k).0.len() == m.len(),
        steered(m, agg, sum, target, k).0[a] == m[a],
    decreases k,
{
    if k > 0 {
        lemma_steered_keeps(m, agg, sum, target, k - 1, a);
    }
}

proof fn lemma_fitted_keeps_zero(
    m: Seq<Nano>,
    sigma: Seq<Nano>,
    nh: int,
    reach: Seq<Nano>,
    target: Seq<Nano>,
    rounds: nat,
    a: int,
)
    requires
        0 <= a < m.len() == target.len(),
        !wanted(target[a]),
        m[a] == zero_nano(),
    ensures
        fitted(m, sigma, nh, reach, target, rounds).len() == m.len(),
        fitted(m, sigma, nh, reach, target, rounds)[a] == zero_nano(),
    decreases rounds,
{
    if rounds > 0 {
        let (agg, sum) = gathered(m, sigma, nh, reach, nh);
        if !negligible(sum) {
            let (next, err) = steered(m, agg, sum, target, m.len() as int);
            lemma_steered_keeps(m, agg, sum, target, m.len() as int, a);
            let scaled = rescaled(next);
            lemma_zero_times(
                Nano::decimal_spec(next.len() as i64, 0).over_spec(num::total_of(next)),
            );
            assert(scaled[a] == zero_nano());
            if !err.below_spec(Nano::decimal_spec(1, 4)) {
                lemma_fitted_keeps_zero(
                    scaled,
                    sigma,
                    nh,
                    reach,
                    target,
                    (rounds - 1) as nat,
                    a,
                );
            }
        }
    }
}

/// Law: in exact numbers, raking drives an action out that the target does
/// not want: no hand plays more of it than the target itself asks for.
pub proof fn law_rake_drives_out(
    sigma: Seq<Nano>,
    na: int,
    nh: int,
    reach: Seq<Nano>,
    target: Seq<Nano>,
    a: int,
    i: int,
)
    requires
        0 <= a < na,
        0 <= i < nh,
        target.len() == na,
        sigma.len() == na * nh,
        !wanted(target[a]),
    ensures
        ({
            let v = raked(sigma, na, nh, reach, target)[strategy::cell(nh, a, i)];
            v == zero_nano() || v == target[a]
        }),
{
    let base = prepared(sigma, na, nh, target);
    let first = first_multipliers(target);
    strategy::lemma_cell(na, nh, a, i);
    let k = strategy::cell(nh, a, i);
    assert(Nano::decimal_spec(0, 0) == zero_nano()) by {
        vstd::arithmetic::div_mod::lemma_div_of0(1);
    }
    assert(first[a] == zero_nano());
    lemma_fitted_keeps_zero(first, base, nh, reach, target, 400, a);
    let m = fitted(first, base, nh, reach, target, 400);
    lemma_zero_times(base[k]);
    lemma_zero_times(scaled_mass(m, base, nh, i, m.len() as int));
}

} // verus!
