//! What holds of quantized blocks, counted in exact numbers: how far what is
//! read back lies from what was stored, and that storing it again changes
//! nothing.

use crate::nano;
use crate::nano::{Nano, BILLION};
use crate::num;
use crate::num::Num;
use crate::store;
use vstd::prelude::*;

verus! {

/// The distance of two counts.
pub open spec fn gap(a: int, b: int) -> int {
    if a < b {
        b - a
    } else {
        a - b
    }
}

/// Whether `d` is within half a step of `v`, a step being the `n`-th part of
/// `m`, but for a billionth for each step and for the rounding of the factor
/// that a block is scaled by.
pub open spec fn within_half_a_step(v: int, d: int, m: int, n: int) -> bool {
    2 * n * gap(v, d) * (BILLION * BILLION) <= (m + 2 * n * n) * (BILLION * BILLION) + 2 * m * (m
        + BILLION)
}

/// Whether the factor of a block with maximum `m` stays in range.
pub open spec fn scalable(m: int, n: int) -> bool {
    0 <= m && (m == 0 || n * BILLION * BILLION <= i64::MAX * m)
}

/// Whether the maximum of a block is at least a billionth a step, and not so
/// large that its factor loses its digits.
pub open spec fn well_scaled(m: int, n: int) -> bool {
    n <= m <= 499_999_990_000_000_000
}

// ---------------------------------------------------------------------------
// Counts
// ---------------------------------------------------------------------------

proof fn lemma_nearest(y: int)
    ensures
        2 * gap(nano::nearest_even(y) * BILLION, y) <= BILLION,
{
    vstd::arithmetic::div_mod::lemma_fundamental_div_mod(y, BILLION as int);
}

/// The factor of a block.
proof fn lemma_factor(m: int, n: int)
    requires
        0 < m,
        0 < n,
    ensures
        0 <= n * BILLION * BILLION / m,
        m * (n * BILLION * BILLION / m) <= n * BILLION * BILLION < m * (n * BILLION * BILLION / m)
            + m,
{
    let t = n * BILLION * BILLION;
    assert(0 <= t) by (nonlinear_arith)
        requires
            t == n * BILLION * BILLION,
            0 < n,
            BILLION == 1_000_000_000,
    ;
    vstd::arithmetic::div_mod::lemma_fundamental_div_mod(t, m);
    vstd::arithmetic::div_mod::lemma_mod_bound(t, m);
    vstd::arithmetic::div_mod::lemma_div_pos_is_pos(t, m);
}

/// The magnitude of a scaled entry of magnitude `u`.
proof fn lemma_scaled(u: int, m: int, n: int, k: int, y: int)
    requires
        0 <= u <= m,
        0 < m,
        0 < n,
        k == n * BILLION * BILLION / m,
        y == u * k / (BILLION as int),
    ensures
        0 <= y <= n * BILLION,
        u * n * (BILLION * BILLION) - m * (m + BILLION) <= m * y * BILLION <= u * n * (BILLION
            * BILLION),
{
    let b = BILLION as int;
    lemma_factor(m, n);
    assert(0 <= u * k) by (nonlinear_arith)
        requires
            0 <= u,
            0 <= k,
    ;
    vstd::arithmetic::div_mod::lemma_fundamental_div_mod(u * k, b);
    assert(0 <= y && b * y <= u * k < b * y + b);
    let c = n * b * b;
    assert(u * n * (b * b) == u * c) by (nonlinear_arith)
        requires
            c == n * b * b,
    ;
    assert(u * c - m * (m + b) <= m * y * b <= u * c) by (nonlinear_arith)
        requires
            b * y <= u * k < b * y + b,
            m * k <= c < m * k + m,
            0 <= u <= m,
            0 < m,
            0 < b,
    ;
    assert(y <= n * b) by (nonlinear_arith)
        requires
            m * y * b <= u * c,
            0 <= u <= m,
            0 < m,
            0 < b,
            0 < n,
            c == n * b * b,
    ;
}

/// Encoding an entry.
proof fn lemma_encoded(v: int, m: int, n: int, k: int, y: int, q: int)
    requires
        -m <= v <= m,
        0 < m,
        0 < n,
        k == n * BILLION * BILLION / m,
        y == nano::cut_div(v * k, BILLION as int),
        q == nano::nearest_even(y),
    ensures
        -n <= q <= n,
        -n * BILLION <= y <= n * BILLION,
        2 * gap(v * n, m * q) * (BILLION * BILLION) <= m * (BILLION * BILLION) + 2 * m * (m
            + BILLION),
{
    let b = BILLION as int;
    let u = gap(v, 0);
    let z = gap(y, 0);
    lemma_factor(m, n);
    assert((v < 0 ==> v * k <= 0 && -(v * k) == u * k) && (v >= 0 ==> v * k >= 0))
        by (nonlinear_arith)
        requires
            0 <= k,
            v < 0 ==> u == -v,
    ;
    assert(v * k == 0 ==> v * k / b == 0);
    assert(z == u * k / b) by {
        assert(u * k >= 0);
        vstd::arithmetic::div_mod::lemma_div_pos_is_pos(u * k, b);
    }
    lemma_scaled(u, m, n, k, z);
    lemma_nearest(y);
    assert((v < 0 ==> y == -z) && (v >= 0 ==> y == z));
    assert(-n <= q <= n) by (nonlinear_arith)
        requires
            2 * gap(q * b, y) <= b,
            -(n * b) <= y <= n * b,
            b == 1_000_000_000,
            gap(q * b, y) >= q * b - y,
            gap(q * b, y) >= y - q * b,
    ;
    let h = q * b - y;
    assert(2 * (m * h * b) <= m * (b * b) && -(m * (b * b)) <= 2 * (m * h * b)) by (nonlinear_arith)
        requires
            -b <= 2 * h <= b,
            0 < m,
            0 < b,
    ;
    assert(m * h * b == (m * q) * (b * b) - m * y * b) by (nonlinear_arith)
        requires
            h == q * b - y,
    ;
    assert(m * y * b == if v < 0 {
        -(m * z * b)
    } else {
        m * z * b
    }) by (nonlinear_arith)
        requires
            v < 0 ==> y == -z,
            v >= 0 ==> y == z,
    ;
    assert((v * n) * (b * b) == if v < 0 {
        -(u * n * (b * b))
    } else {
        u * n * (b * b)
    }) by (nonlinear_arith)
        requires
            v < 0 ==> u == -v,
            v >= 0 ==> u == v,
    ;
    let e = m * q - v * n;
    assert(e * (b * b) == (m * q) * (b * b) - (v * n) * (b * b)) by (nonlinear_arith)
        requires
            e == m * q - v * n,
    ;
    assert(gap(v * n, m * q) * (b * b) == gap(e * (b * b), 0)) by (nonlinear_arith)
        requires
            gap(v * n, m * q) == if e < 0 {
                -e
            } else {
                e
            },
            gap(e * (b * b), 0) == if e * (b * b) < 0 {
                -(e * (b * b))
            } else {
                e * (b * b)
            },
            0 < b,
    ;
    let g = gap(v * n, m * q);
    assert(2 * g * (b * b) == 2 * (g * (b * b)) && 2 * m * (m + b) == 2 * (m * (m + b)))
        by (nonlinear_arith);
}

/// Decoding an entry.
proof fn lemma_decoded(q: int, m: int, n: int)
    requires
        -n <= q <= n,
        0 <= m,
        0 < n,
    ensures
        nano::cut_div(m * BILLION, n * BILLION) == m / n,
        nano::cut_div((q * BILLION) * (m / n), BILLION as int) == q * (m / n),
        gap(m * q, n * (q * (m / n))) <= n * n,
        0 <= n * (m / n) <= m < n * (m / n) + n,
{
    let b = BILLION as int;
    let k = m / n;
    vstd::arithmetic::div_mod::lemma_fundamental_div_mod(m, n);
    vstd::arithmetic::div_mod::lemma_mod_bound(m, n);
    vstd::arithmetic::div_mod::lemma_div_pos_is_pos(m, n);
    assert(n * k <= m < n * k + n);
    assert(0 <= n * k) by (nonlinear_arith)
        requires
            0 <= k,
            0 < n,
    ;
    assert(0 < n * b && 0 <= m * b) by (nonlinear_arith)
        requires
            0 < n,
            0 <= m,
            0 < b,
    ;
    assert(m * b / (n * b) == k) by {
        vstd::arithmetic::div_mod::lemma_div_denominator(m * b, b, n);
        vstd::arithmetic::div_mod::lemma_div_multiples_vanish(m, b);
        vstd::arithmetic::mul::lemma_mul_is_commutative(n, b);
        vstd::arithmetic::mul::lemma_mul_is_commutative(m, b);
    }
    let w = q * k;
    assert((q * b) * k == b * w && (-w) * b == b * (-w) && -(b * w) == b * (-w))
        by (nonlinear_arith)
        requires
            w == q * k,
    ;
    assert(nano::cut_div(b * w, b) == w) by {
        vstd::arithmetic::div_mod::lemma_div_multiples_vanish(w, b);
        vstd::arithmetic::div_mod::lemma_div_multiples_vanish(-w, b);
    }
    assert(gap(m * q, n * w) <= n * n) by (nonlinear_arith)
        requires
            w == q * k,
            -n <= q <= n,
            n * k <= m < n * k + n,
            0 < n,
            gap(m * q, n * w) == m * q - n * w || gap(m * q, n * w) == n * w - m * q,
    ;
}

/// Encoding what was decoded.
proof fn lemma_again(q: int, k: int, n: int)
    requires
        -n <= q <= n,
        0 < n,
        0 < k,
        well_scaled(n * k, n),
    ensures
        nano::nearest_even(
            nano::cut_div((q * k) * (n * BILLION * BILLION / (n * k)), BILLION as int),
        ) == q,
{
    let b = BILLION as int;
    let m = n * k;
    let f = n * BILLION * BILLION / m;
    let v = q * k;
    let y = nano::cut_div(v * f, b);
    assert(-m <= v <= m && 0 < m) by (nonlinear_arith)
        requires
            v == q * k,
            m == n * k,
            -n <= q <= n,
            0 < k,
            0 < n,
    ;
    lemma_encoded(v, m, n, f, y, nano::nearest_even(y));
    let r = nano::nearest_even(y);
    let e = r - q;
    assert(v * n == m * q) by (nonlinear_arith)
        requires
            v == q * k,
            m == n * k,
    ;
    assert(gap(v * n, m * r) == m * gap(e, 0)) by (nonlinear_arith)
        requires
            v * n == m * q,
            e == r - q,
            0 < m,
            gap(v * n, m * r) == if v * n < m * r {
                m * r - v * n
            } else {
                v * n - m * r
            },
            gap(e, 0) == if e < 0 {
                -e
            } else {
                e
            },
    ;
    let g = gap(e, 0);
    assert(g < 1) by (nonlinear_arith)
        requires
            2 * (m * g) * (b * b) <= m * (b * b) + 2 * m * (m + b),
            0 < m <= 499_999_990_000_000_000,
            b == 1_000_000_000,
            0 <= g,
    ;
}

/// Encoding and decoding an entry.
proof fn lemma_within(v: int, m: int, n: int, q: int)
    requires
        0 < m,
        0 < n,
        -n <= q <= n,
        2 * gap(v * n, m * q) * (BILLION * BILLION) <= m * (BILLION * BILLION) + 2 * m * (m
            + BILLION),
    ensures
        within_half_a_step(v, q * (m / n), m, n),
{
    let bb = BILLION * BILLION;
    let d = q * (m / n);
    let g = gap(v * n, m * q);
    let h = gap(m * q, n * d);
    let t = gap(v, d);
    lemma_decoded(q, m, n);
    assert(n * t <= g + h) by (nonlinear_arith)
        requires
            0 < n,
            t == d - v || t == v - d,
            g >= v * n - m * q,
            g >= m * q - v * n,
            h >= m * q - n * d,
            h >= n * d - m * q,
    ;
    assert(2 * n * t * bb <= 2 * g * bb + 2 * (n * n) * bb) by (nonlinear_arith)
        requires
            n * t <= g + h,
            h <= n * n,
            0 < bb,
    ;
    assert((m + 2 * n * n) * bb == m * bb + 2 * (n * n) * bb) by (nonlinear_arith);
}

/// The entries of largest magnitude are encoded as the last step.
proof fn lemma_full(v: int, m: int, n: int, q: int)
    requires
        0 < n,
        well_scaled(m, n),
        v == m || v == -m,
        -n <= q <= n,
        2 * gap(v * n, m * q) * (BILLION * BILLION) <= m * (BILLION * BILLION) + 2 * m * (m
            + BILLION),
    ensures
        v == m ==> q == n,
        v == -m ==> q == -n,
{
    let b = BILLION as int;
    let g = if v == m {
        n - q
    } else {
        q + n
    };
    assert(m * n >= m * q && -(m * n) <= m * q && (-m) * n == -(m * n)) by (nonlinear_arith)
        requires
            0 < m,
            -n <= q <= n,
    ;
    assert(gap(v * n, m * q) == m * g) by (nonlinear_arith)
        requires
            v == m ==> g == n - q && gap(v * n, m * q) == m * n - m * q,
            v != m ==> g == q + n && gap(v * n, m * q) == m * q + m * n,
    ;
    assert(g < 1) by (nonlinear_arith)
        requires
            2 * (m * g) * (b * b) <= m * (b * b) + 2 * m * (m + b),
            0 < m <= 499_999_990_000_000_000,
            b == 1_000_000_000,
            0 <= g,
    ;
}

proof fn lemma_nothing(n: int)
    requires
        0 < n,
    ensures
        within_half_a_step(0, 0, 0, n),
{
    let bb = BILLION * BILLION;
    let g = gap(0, 0);
    assert(2 * n * g * bb == 0 && 0 <= (0 + 2 * n * n) * bb) by (nonlinear_arith)
        requires
            g == 0,
            0 < n,
            0 < bb,
    ;
}

proof fn lemma_well_scaled(m: int, n: int)
    requires
        1 <= n <= 65535,
        well_scaled(m, n),
    ensures
        scalable(m, n),
{
    assert(n * BILLION * BILLION <= i64::MAX * m) by (nonlinear_arith)
        requires
            n <= m,
            BILLION == 1_000_000_000,
            0 < n,
    ;
}

/// Decoding stays in range.
proof fn lemma_step(q: int, m: int, n: int)
    requires
        -n <= q <= n,
        0 < m <= i64::MAX,
        0 < n,
    ensures
        0 <= m / n <= i64::MAX,
        -m <= q * (m / n) <= m,
{
    lemma_decoded(q, m, n);
    let k = m / n;
    vstd::arithmetic::div_mod::lemma_div_pos_is_pos(m, n);
    assert(k <= m && -m <= q * k <= m) by (nonlinear_arith)
        requires
            0 <= k,
            n * k <= m,
            -n <= q <= n,
            0 < n,
    ;
}

proof fn lemma_steps_below(q: int, k: int, n: int)
    requires
        -n <= q <= n,
        0 < k,
        0 < n,
    ensures
        -(n * k) <= q * k <= n * k,
        q == n ==> q * k == n * k,
        q == -n ==> q * k == -(n * k),
        q < 0 ==> q * k < 0,
        0 <= q ==> 0 <= q * k,
{
    assert(-(n * k) <= q * k <= n * k && (-n) * k == -(n * k)) by (nonlinear_arith)
        requires
            -n <= q <= n,
            0 < k,
    ;
    assert((q < 0 ==> q * k < 0) && (0 <= q ==> 0 <= q * k)) by (nonlinear_arith)
        requires
            0 < k,
    ;
}

// ---------------------------------------------------------------------------
// Signed blocks
// ---------------------------------------------------------------------------

proof fn lemma_top_magnitude(src: Seq<Nano>, i: int)
    requires
        0 <= i < src.len(),
        src[i].count > i64::MIN,
    ensures
        gap(src[i].count as int, 0) <= store::top_magnitude(src).count,
    decreases src.len(),
{
    assert(nano::ten_to(0) == 1);
    if i < src.len() - 1 {
        lemma_top_magnitude(src.drop_last(), i);
        assert(src.drop_last()[i] == src[i]);
    }
}

proof fn lemma_top_magnitude_found(src: Seq<Nano>) -> (i: int)
    requires
        0 < store::top_magnitude(src).count,
    ensures
        0 <= i < src.len(),
        num::magnitude_of(src[i]).count == store::top_magnitude(src).count,
    decreases src.len(),
{
    assert(nano::ten_to(0) == 1);
    if src.len() == 0 {
        0
    } else {
        let rest = src.drop_last();
        let last = src[src.len() - 1];
        if store::top_magnitude(rest) == store::top_magnitude(src) {
            let i = lemma_top_magnitude_found(rest);
            assert(rest[i] == src[i]);
            i
        } else {
            src.len() - 1
        }
    }
}

proof fn lemma_top_magnitude_sign(src: Seq<Nano>)
    ensures
        0 <= store::top_magnitude(src).count,
    decreases src.len(),
{
    assert(nano::ten_to(0) == 1);
    if src.len() > 0 {
        lemma_top_magnitude_sign(src.drop_last());
    }
}

/// The word of an entry, and what it stands for.
proof fn lemma_i16_entry(src: Seq<Nano>, m: Nano, i: int)
    requires
        0 <= i < src.len(),
        src[i].count > i64::MIN,
        -m.count <= src[i].count <= m.count,
        0 < m.count,
        scalable(m.count as int, 32767),
    ensures
        ({
            let q = store::quantized_i16(src, m)[i] as int;
            let d = store::decoded_i16(store::quantized_i16(src, m), m)[i].count;
            let v = src[i].count as int;
            &&& -32767 <= q <= 32767
            &&& 2 * gap(v * 32767, m.count * q) * (BILLION * BILLION) <= m.count * (BILLION
                * BILLION) + 2 * m.count * (m.count + BILLION)
            &&& q == nano::nearest_even(
                nano::cut_div(v * (32767 * BILLION * BILLION / (m.count as int)), BILLION as int),
            )
            &&& d == q * (m.count as int / 32767)
        }),
{
    let n: int = 32767;
    let c = m.count as int;
    let v = src[i].count as int;
    let b = BILLION as int;
    assert(nano::ten_to(0) == 1);
    let k = n * BILLION * BILLION / c;
    lemma_factor(c, n);
    assert(k <= i64::MAX) by (nonlinear_arith)
        requires
            c * k <= n * b * b,
            n * b * b <= i64::MAX * c,
            0 < c,
    ;
    let factor = Nano::decimal_spec(32767, 0).over_spec(m);
    assert(factor.count == k);
    let y = nano::cut_div(v * k, b);
    let q = nano::nearest_even(y);
    lemma_encoded(v, c, n, k, y, q);
    assert(store::quantized_i16(src, m)[i] == q);
    lemma_decoded(q, c, n);
    lemma_step(q, c, n);
}

/// Law: signed entries come back within half a step, the largest magnitude of
/// the block being 32767 steps, up to the rounding that
/// [`within_half_a_step`] counts.
pub proof fn law_i16_blocks_read_near(src: Seq<Nano>, i: int)
    requires
        0 <= i < src.len(),
        src[i].count > i64::MIN,
        scalable(store::top_magnitude(src).count as int, 32767),
    ensures
        ({
            let m = store::top_magnitude(src);
            let q = store::quantized_i16(src, m);
            within_half_a_step(
                src[i].count as int,
                store::decoded_i16(q, store::kept_scale(m))[i].count as int,
                m.count as int,
                32767,
            )
        }),
{
    let m = store::top_magnitude(src);
    let q = store::quantized_i16(src, m);
    assert(nano::ten_to(0) == 1);
    lemma_top_magnitude(src, i);
    lemma_top_magnitude_sign(src);
    if m.count > 0 {
        lemma_i16_entry(src, m, i);
        lemma_within(src[i].count as int, m.count as int, 32767, q[i] as int);
    } else {
        assert(src[i].count == 0);
        lemma_nothing(32767);
        lemma_decoded(0, 0, 32767);
        assert(store::decoded_i16(q, store::kept_scale(m))[i].count == 0);
    }
}

/// Words against a maximum of whole steps are restored.
proof fn lemma_i16_restored(q: Seq<i16>, d: Seq<Nano>, top: Nano, k: int)
    requires
        d.len() == q.len(),
        0 < k,
        top.count == 32767 * k,
        well_scaled(top.count as int, 32767),
        forall|i: int|
            0 <= i < q.len() ==> -32767 <= #[trigger] q[i] <= 32767 && d[i].count == q[i] * k,
    ensures
        store::quantized_i16(d, top) == q,
        store::decoded_i16(q, top) == d,
{
    let n: int = 32767;
    lemma_well_scaled(n * k, n);
    assert((n * k) / n == k) by {
        vstd::arithmetic::div_mod::lemma_div_multiples_vanish(k, n);
    }
    assert(nano::ten_to(0) == 1);
    assert forall|i: int| 0 <= i < q.len() implies #[trigger] store::quantized_i16(d, top)[i]
        == q[i] by {
        let w = q[i] as int;
        assert(d[i].count == w * k);
        lemma_steps_below(w, k, n);
        lemma_i16_entry(d, top, i);
        lemma_again(w, k, n);
    }
    assert(store::quantized_i16(d, top) =~= q);
    assert forall|i: int| 0 <= i < q.len() implies #[trigger] store::decoded_i16(q, top)[i]
        == d[i] by {
        let w = q[i] as int;
        assert(d[i].count == w * k);
        lemma_steps_below(w, k, n);
        lemma_i16_entry(d, top, i);
    }
    assert(store::decoded_i16(q, top) =~= d);
}

/// Law: encoding what a signed block stands for gives the block back, word for
/// word, and so the same numbers.
pub proof fn law_i16_blocks_are_stable(src: Seq<Nano>)
    requires
        forall|i: int| 0 <= i < src.len() ==> (#[trigger] src[i]).count > i64::MIN,
        well_scaled(store::top_magnitude(src).count as int, 32767),
    ensures
        ({
            let m = store::top_magnitude(src);
            let q = store::quantized_i16(src, m);
            let d = store::decoded_i16(q, m);
            &&& store::quantized_i16(d, store::top_magnitude(d)) == q
            &&& store::decoded_i16(q, store::top_magnitude(d)) == d
        }),
{
    let n: int = 32767;
    let m = store::top_magnitude(src);
    let c = m.count as int;
    let k = c / n;
    let q = store::quantized_i16(src, m);
    let d = store::decoded_i16(q, m);
    assert(nano::ten_to(0) == 1);
    lemma_well_scaled(c, n);
    lemma_decoded(0, c, n);
    assert(0 < k) by (nonlinear_arith)
        requires
            c < n * k + n,
            n <= c,
            0 < n,
    ;
    assert forall|i: int| 0 <= i < src.len() implies -n <= #[trigger] q[i] <= n && d[i].count
        == q[i] * k by {
        lemma_top_magnitude(src, i);
        lemma_i16_entry(src, m, i);
    }
    let j = lemma_top_magnitude_found(src);
    lemma_i16_entry(src, m, j);
    lemma_full(src[j].count as int, c, n, q[j] as int);
    let top = store::top_magnitude(d);
    assert(top.count == n * k) by {
        lemma_steps_below(q[j] as int, k, n);
        lemma_top_magnitude(d, j);
        let x = lemma_top_magnitude_found(d);
        lemma_steps_below(q[x] as int, k, n);
    }
    lemma_i16_restored(q, d, top, k);
}

// ---------------------------------------------------------------------------
// Unsigned blocks
// ---------------------------------------------------------------------------

proof fn lemma_top(src: Seq<Nano>, i: int)
    requires
        0 <= i < src.len(),
    ensures
        src[i].count <= store::top(src).count,
    decreases src.len(),
{
    assert(nano::ten_to(0) == 1);
    if i < src.len() - 1 {
        lemma_top(src.drop_last(), i);
        assert(src.drop_last()[i] == src[i]);
    }
}

proof fn lemma_top_found(src: Seq<Nano>) -> (i: int)
    requires
        0 < store::top(src).count,
    ensures
        0 <= i < src.len(),
        src[i].count == store::top(src).count,
    decreases src.len(),
{
    assert(nano::ten_to(0) == 1);
    if src.len() == 0 {
        0
    } else {
        let rest = src.drop_last();
        let last = src[src.len() - 1];
        if store::top(rest) == store::top(src) {
            let i = lemma_top_found(rest);
            assert(rest[i] == src[i]);
            i
        } else {
            src.len() - 1
        }
    }
}

proof fn lemma_top_sign(src: Seq<Nano>)
    ensures
        0 <= store::top(src).count,
    decreases src.len(),
{
    assert(nano::ten_to(0) == 1);
    if src.len() > 0 {
        lemma_top_sign(src.drop_last());
    }
}

/// The word of an entry, and what it stands for.
proof fn lemma_u16_entry(src: Seq<Nano>, m: Nano, i: int)
    requires
        0 <= i < src.len(),
        -m.count <= num::larger_of(src[i], Nano::decimal_spec(0, 0)).count <= m.count,
        0 < m.count,
        scalable(m.count as int, 65535),
    ensures
        ({
            let q = store::quantized_u16(src, m)[i] as int;
            let d = store::decoded_u16(store::quantized_u16(src, m), m)[i].count;
            let v = num::larger_of(src[i], Nano::decimal_spec(0, 0)).count as int;
            &&& -65535 <= q <= 65535
            &&& 2 * gap(v * 65535, m.count * q) * (BILLION * BILLION) <= m.count * (BILLION
                * BILLION) + 2 * m.count * (m.count + BILLION)
            &&& q == nano::nearest_even(
                nano::cut_div(v * (65535 * BILLION * BILLION / (m.count as int)), BILLION as int),
            )
            &&& d == q * (m.count as int / 65535)
        }),
{
    let n: int = 65535;
    let c = m.count as int;
    let v = num::larger_of(src[i], Nano::decimal_spec(0, 0)).count as int;
    let b = BILLION as int;
    assert(nano::ten_to(0) == 1);
    let k = n * BILLION * BILLION / c;
    lemma_factor(c, n);
    assert(k <= i64::MAX) by (nonlinear_arith)
        requires
            c * k <= n * b * b,
            n * b * b <= i64::MAX * c,
            0 < c,
    ;
    let factor = Nano::decimal_spec(65535, 0).over_spec(m);
    assert(factor.count == k);
    let y = nano::cut_div(v * k, b);
    let q = nano::nearest_even(y);
    lemma_encoded(v, c, n, k, y, q);
    assert(store::quantized_u16(src, m)[i] == q);
    lemma_decoded(q, c, n);
    lemma_step(q, c, n);
}

/// Law: unsigned entries come back within half a step, the largest of the block
/// being 65535 steps, and negative ones as zero, up to the rounding that
/// [`within_half_a_step`] counts.
pub proof fn law_u16_blocks_read_near(src: Seq<Nano>, i: int)
    requires
        0 <= i < src.len(),
        scalable(store::top(src).count as int, 65535),
    ensures
        ({
            let m = store::top(src);
            let q = store::quantized_u16(src, m);
            within_half_a_step(
                num::larger_of(src[i], Nano::decimal_spec(0, 0)).count as int,
                store::decoded_u16(q, store::kept_scale(m))[i].count as int,
                m.count as int,
                65535,
            )
        }),
{
    let m = store::top(src);
    let q = store::quantized_u16(src, m);
    assert(nano::ten_to(0) == 1);
    lemma_top(src, i);
    lemma_top_sign(src);
    if m.count > 0 {
        lemma_u16_entry(src, m, i);
        lemma_within(
            num::larger_of(src[i], Nano::decimal_spec(0, 0)).count as int,
            m.count as int,
            65535,
            q[i] as int,
        );
    } else {
        assert(num::larger_of(src[i], Nano::decimal_spec(0, 0)).count == 0);
        lemma_nothing(65535);
        lemma_decoded(0, 0, 65535);
        assert(store::decoded_u16(q, store::kept_scale(m))[i].count == 0);
    }
}

/// Words against a maximum of whole steps are restored.
proof fn lemma_u16_restored(q: Seq<u16>, d: Seq<Nano>, top: Nano, k: int)
    requires
        d.len() == q.len(),
        0 < k,
        top.count == 65535 * k,
        well_scaled(top.count as int, 65535),
        forall|i: int|
            0 <= i < q.len() ==> -65535 <= #[trigger] q[i] <= 65535 && d[i].count == q[i] * k,
    ensures
        store::quantized_u16(d, top) == q,
        store::decoded_u16(q, top) == d,
{
    let n: int = 65535;
    lemma_well_scaled(n * k, n);
    assert((n * k) / n == k) by {
        vstd::arithmetic::div_mod::lemma_div_multiples_vanish(k, n);
    }
    assert(nano::ten_to(0) == 1);
    assert forall|i: int| 0 <= i < q.len() implies #[trigger] store::quantized_u16(d, top)[i]
        == q[i] by {
        let w = q[i] as int;
        assert(d[i].count == w * k);
        lemma_steps_below(w, k, n);
        lemma_u16_entry(d, top, i);
        lemma_again(w, k, n);
    }
    assert(store::quantized_u16(d, top) =~= q);
    assert forall|i: int| 0 <= i < q.len() implies #[trigger] store::decoded_u16(q, top)[i]
        == d[i] by {
        let w = q[i] as int;
        assert(d[i].count == w * k);
        lemma_steps_below(w, k, n);
        lemma_u16_entry(d, top, i);
    }
    assert(store::decoded_u16(q, top) =~= d);
}

/// Law: encoding what an unsigned block stands for gives the block back, word for
/// word, and so the same numbers.
pub proof fn law_u16_blocks_are_stable(src: Seq<Nano>)
    requires
        well_scaled(store::top(src).count as int, 65535),
    ensures
        ({
            let m = store::top(src);
            let q = store::quantized_u16(src, m);
            let d = store::decoded_u16(q, m);
            &&& store::quantized_u16(d, store::top(d)) == q
            &&& store::decoded_u16(q, store::top(d)) == d
        }),
{
    let n: int = 65535;
    let m = store::top(src);
    let c = m.count as int;
    let k = c / n;
    let q = store::quantized_u16(src, m);
    let d = store::decoded_u16(q, m);
    assert(nano::ten_to(0) == 1);
    lemma_well_scaled(c, n);
    lemma_decoded(0, c, n);
    assert(0 < k) by (nonlinear_arith)
        requires
            c < n * k + n,
            n <= c,
            0 < n,
    ;
    assert forall|i: int| 0 <= i < src.len() implies -n <= #[trigger] q[i] <= n && d[i].count
        == q[i] * k by {
        lemma_top(src, i);
        lemma_u16_entry(src, m, i);
    }
    let j = lemma_top_found(src);
    lemma_u16_entry(src, m, j);
    lemma_full(num::larger_of(src[j], Nano::decimal_spec(0, 0)).count as int, c, n, q[j] as int);
    let top = store::top(d);
    assert(top.count == n * k) by {
        lemma_steps_below(q[j] as int, k, n);
        lemma_top(d, j);
        let x = lemma_top_found(d);
        lemma_steps_below(q[x] as int, k, n);
    }
    lemma_u16_restored(q, d, top, k);
}

} // verus!
