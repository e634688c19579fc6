//! Rounding of exact non-negative rationals to single precision.
//!
//! A finite magnitude of the binary32 format is a whole multiple of the least positive one, so
//! exact values are counted here in that unit. A rational `n / d` of that unit is rounded to the
//! nearest representable magnitude, ties going to the even significand.
use vstd::arithmetic::div_mod::{lemma_fundamental_div_mod, lemma_fundamental_div_mod_converse};
use vstd::arithmetic::power2::{
    lemma2_to64, lemma_pow2_adds, lemma_pow2_pos, lemma_pow2_strictly_increases,
    lemma_pow2_unfold, pow2,
};
use vstd::prelude::*;

verus! {

/// One step of the exponent field, and the least significand of a normal number.
pub const EXPONENT_STEP: u32 = 0x80_0000;

/// The magnitude pattern of infinity.
pub const INFINITE: u32 = 0x7f80_0000;

/// How many bits of `n / d` lie below a 24 bit significand: the least `e` with
/// `n / d < 2^(24 + e)`.
pub open spec fn excess(n: nat, d: nat) -> nat
    decreases n - d,
{
    if d == 0 || n < d * 0x100_0000 {
        0
    } else {
        1 + excess(n, 2 * d)
    }
}

/// The integer nearest to `n / d`, the even one of two that are equally near.
pub open spec fn nearest_even(n: nat, d: nat) -> nat {
    let q = n / d;
    let r = n % d;
    if 2 * r < d || (2 * r == d && q % 2 == 0) {
        q
    } else {
        q + 1
    }
}

/// The magnitude pattern nearest to `n / d` units. The exponent and the significand of the
/// nearest value are laid out so that a carry out of the significand moves into the exponent, and
/// everything past the largest finite magnitude is infinity.
pub open spec fn round_magnitude(n: nat, d: nat) -> nat {
    let e = excess(n, d);
    let pattern = e * 0x80_0000 + nearest_even(n, d * pow2(e));
    if pattern < 0x7f80_0000 {
        pattern
    } else {
        0x7f80_0000
    }
}

/// The number of units that a finite magnitude pattern stands for.
pub open spec fn magnitude_value(pattern: nat) -> nat {
    let exponent = pattern / 0x80_0000;
    let fraction = pattern % 0x80_0000;
    if exponent == 0 {
        fraction
    } else {
        (fraction + 0x80_0000) * pow2((exponent - 1) as nat)
    }
}

/// The numerator of `m * 2^s`.
pub open spec fn scaled_num(m: nat, s: int) -> nat {
    if s >= 0 {
        m * pow2(s as nat)
    } else {
        m
    }
}

/// The denominator of `m * 2^s`.
pub open spec fn scaled_den(s: int) -> nat {
    if s >= 0 {
        1
    } else {
        pow2((-s) as nat)
    }
}

/// What characterises the excess of `n / d`.
pub proof fn lemma_excess(n: nat, d: nat)
    requires
        d > 0,
    ensures
        n < d * pow2(24 + excess(n, d)),
        excess(n, d) > 0 ==> n >= d * pow2((23 + excess(n, d)) as nat),
    decreases n - d,
{
    lemma2_to64();
    if n >= d * 0x100_0000 {
        lemma_excess(n, 2 * d);
        let e = excess(n, 2 * d);
        assert(excess(n, d) == e + 1);
        lemma_pow2_unfold(25 + e);
        lemma_pow2_unfold(24 + e);
        assert((2 * d) * pow2(24 + e) == d * (2 * pow2(24 + e))) by (nonlinear_arith);
        assert((2 * d) * pow2((23 + e) as nat) == d * (2 * pow2((23 + e) as nat)))
            by (nonlinear_arith);
        if e == 0 {
            assert(pow2(24) == 0x100_0000);
        }
    }
}

/// The excess is the only exponent with its two bounds.
pub proof fn lemma_excess_unique(n: nat, d: nat, e: nat)
    requires
        d > 0,
        n < d * pow2(24 + e),
        e > 0 ==> n >= d * pow2((23 + e) as nat),
    ensures
        excess(n, d) == e,
{
    lemma_excess(n, d);
    let f = excess(n, d);
    if f < e {
        lemma_pow2_monotone(24 + f, (23 + e) as nat);
        assert(d * pow2(24 + f) <= d * pow2((23 + e) as nat)) by (nonlinear_arith)
            requires
                pow2(24 + f) <= pow2((23 + e) as nat),
        ;
    } else if e < f {
        lemma_pow2_monotone(24 + e, (23 + f) as nat);
        assert(d * pow2(24 + e) <= d * pow2((23 + f) as nat)) by (nonlinear_arith)
            requires
                pow2(24 + e) <= pow2((23 + f) as nat),
        ;
    }
}

/// Powers of two grow with the exponent.
pub proof fn lemma_pow2_monotone(a: nat, b: nat)
    requires
        a <= b,
    ensures
        pow2(a) <= pow2(b),
{
    if a < b {
        lemma_pow2_strictly_increases(a, b);
    }
}

/// Multiplying both terms by the same factor changes neither quotient nor rounding.
pub proof fn lemma_nearest_even_scale(n: nat, d: nat, c: nat)
    requires
        d > 0,
        c > 0,
    ensures
        nearest_even(n * c, d * c) == nearest_even(n, d),
{
    lemma_fundamental_div_mod(n as int, d as int);
    let q = (n / d) as int;
    let r = (n % d) as int;
    assert(n * c == q * (d * c) + r * c) by (nonlinear_arith)
        requires
            n == d * q + r,
    ;
    assert(0 <= r * c < d * c) by (nonlinear_arith)
        requires
            0 <= r < d,
            c > 0,
    ;
    lemma_fundamental_div_mod_converse((n * c) as int, (d * c) as int, q, r * c);
    assert((2 * (r * c) < d * c) == (2 * r < d)) by (nonlinear_arith)
        requires
            c > 0,
    ;
    assert((2 * (r * c) == d * c) == (2 * r == d)) by (nonlinear_arith)
        requires
            c > 0,
    ;
}

/// Rounding depends on the quotient alone.
pub proof fn lemma_round_scale(n: nat, d: nat, c: nat)
    requires
        d > 0,
        c > 0,
    ensures
        round_magnitude(n * c, d * c) == round_magnitude(n, d),
{
    lemma_excess(n, d);
    let e = excess(n, d);
    let hi = pow2(24 + e);
    assert(n * c < (d * c) * hi) by (nonlinear_arith)
        requires
            n < d * hi,
            c > 0,
    ;
    if e > 0 {
        let lo = pow2((23 + e) as nat);
        assert(n * c >= (d * c) * lo) by (nonlinear_arith)
            requires
                n >= d * lo,
                c > 0,
        ;
    }
    assert(d * c > 0) by (nonlinear_arith)
        requires
            d > 0,
            c > 0,
    ;
    lemma_excess_unique(n * c, d * c, e);
    lemma_pow2_pos(e);
    let u = pow2(e);
    assert(d * u > 0) by (nonlinear_arith)
        requires
            d > 0,
            u > 0,
    ;
    assert((d * c) * u == (d * u) * c) by (nonlinear_arith);
    lemma_nearest_even_scale(n, d * u, c);
}

/// The nearest integer seen from the count of half units below `n / d` and from whether `n / d`
/// is a whole number of them.
proof fn lemma_nearest_even_by_halves(n: nat, d: nat)
    requires
        d > 0,
    ensures
        nearest_even(n, d) == {
            let t = (2 * n) / d;
            if t % 2 == 0 || ((2 * n) % d == 0 && (t / 2) % 2 == 0) {
                t / 2
            } else {
                t / 2 + 1
            }
        },
{
    lemma_fundamental_div_mod(n as int, d as int);
    let q = (n / d) as int;
    let r = (n % d) as int;
    if 2 * r < d {
        assert(2 * n == (2 * q) * d + 2 * r) by (nonlinear_arith)
            requires
                n == d * q + r,
        ;
        lemma_fundamental_div_mod_converse((2 * n) as int, d as int, 2 * q, 2 * r);
    } else {
        assert(2 * n == (2 * q + 1) * d + (2 * r - d)) by (nonlinear_arith)
            requires
                n == d * q + r,
        ;
        lemma_fundamental_div_mod_converse((2 * n) as int, d as int, 2 * q + 1, 2 * r - d);
    }
}

/// A quotient of a quotient, and the remainders that go with it, when the outer divisor is even
/// and the inner quotient is either taken as it is or moved up to the next odd number.
proof fn lemma_odd_between(n: nat, d: nat, q: nat, j: nat, h: nat)
    requires
        d > 0,
        h > 0,
        h % 2 == 0,
        q * d < n < (q + 1) * d,
        j == q || j == q + 1,
        j % 2 == 1,
    ensures
        n / (d * h) == j / h,
        n % (d * h) != 0,
        j % h != 0,
{
    let k = h / 2;
    assert(h == 2 * k);
    lemma_fundamental_div_mod(j as int, h as int);
    let t = (j / h) as int;
    let r = (j % h) as int;
    if r == 0 {
        assert(j == 2 * (k * t)) by (nonlinear_arith)
            requires
                j == h * t,
                h == 2 * k,
        ;
    }
    // The odd number lies strictly inside its multiple of `h`, and so does the value beside it.
    assert(h * t + 1 <= j <= h * t + h - 1);
    assert(h * t <= q);
    assert(q + 1 <= h * t + h);
    let dh = d * h;
    let rem = n - t * dh;
    assert(rem > 0) by (nonlinear_arith)
        requires
            rem == n - t * dh,
            dh == d * h,
            q * d < n,
            h * t <= q,
            d > 0,
    ;
    assert(rem < dh) by (nonlinear_arith)
        requires
            rem == n - t * dh,
            dh == d * h,
            n < (q + 1) * d,
            q + 1 <= h * t + h,
            d > 0,
    ;
    assert(dh > 0);
    assert(n == t * dh + rem);
    lemma_fundamental_div_mod_converse(n as int, dh as int, t, rem as int);
}

/// A value strictly between two neighbouring multiples of a fine enough grid step rounds as the
/// odd one of the two multiples does: no rounding boundary separates them.
pub proof fn lemma_round_inexact(n: nat, d: nat, q: nat, j: nat, s: int)
    requires
        d > 0,
        q >= 0x400_0000,
        q * scaled_num(1, s) * d < n * scaled_den(s) < (q + 1) * scaled_num(1, s) * d,
        j == q || j == q + 1,
        j % 2 == 1,
    ensures
        round_magnitude(n, d) == round_magnitude(scaled_num(j, s), scaled_den(s)),
{
    let x: nat = if s >= 0 {
        s as nat
    } else {
        0
    };
    let y: nat = if s >= 0 {
        0
    } else {
        (-s) as nat
    };
    let a = pow2(x);
    let b = pow2(y);
    lemma2_to64();
    lemma_pow2_pos(x);
    lemma_pow2_pos(y);
    assert(1 * pow2(x) == pow2(x));
    assert(scaled_num(1, s) == a);
    assert(scaled_den(s) == b);
    assert(j * 1 == j);
    assert(scaled_num(j, s) == j * a);

    lemma_excess(n, d);
    let e = excess(n, d);
    let top = pow2(24 + e);
    // Compare the power that bounds the value with the grid step.
    assert(q * a < b * top) by (nonlinear_arith)
        requires
            q * a * d < n * b,
            n < d * top,
            d > 0,
            b > 0,
    ;
    assert(y + 24 + e >= x + 27) by {
        if y + 24 + e <= x + 26 {
            lemma_pow2_monotone(y + 24 + e, x + 26);
            lemma_pow2_adds(y, 24 + e);
            lemma_pow2_adds(x, 26);
            assert(y + (24 + e) == y + 24 + e);
            assert(b * top <= a * 0x400_0000);
            assert(q * a >= a * 0x400_0000) by (nonlinear_arith)
                requires
                    q >= 0x400_0000,
                    a > 0,
            ;
        }
    }
    // In grid steps: `w` holds one unit of the rounded significand, `h` half of one.
    let wexp = (y + e - x) as nat;
    let w = pow2(wexp);
    let h = pow2((wexp - 1) as nat);
    lemma_pow2_unfold(wexp);
    lemma_pow2_unfold((wexp - 1) as nat);
    lemma_pow2_pos((wexp - 2) as nat);
    assert(h % 2 == 0);
    assert(b * pow2(e) == a * w) by {
        lemma_pow2_adds(y, e);
        lemma_pow2_adds(x, wexp);
        assert(y + e == x + wexp);
    }
    let c = pow2((wexp + 23) as nat);
    lemma_pow2_unfold((wexp + 24) as nat);
    lemma_pow2_unfold((wexp + 23) as nat);
    assert(c % 2 == 0);
    assert(b * top == a * (2 * c)) by {
        lemma_pow2_adds(y, 24 + e);
        lemma_pow2_adds(x, (wexp + 24) as nat);
        assert(y + (24 + e) == x + (wexp + 24));
    }
    // The odd multiple has the same excess.
    assert(q < 2 * c) by (nonlinear_arith)
        requires
            q * a < a * (2 * c),
            a > 0,
    ;
    assert(j < 2 * c);
    assert(j * a < b * top) by (nonlinear_arith)
        requires
            j < 2 * c,
            b * top == a * (2 * c),
            a > 0,
    ;
    if e > 0 {
        let low = pow2((23 + e) as nat);
        assert(b * low == a * c) by {
            lemma_pow2_adds(y, (23 + e) as nat);
            lemma_pow2_adds(x, (wexp + 23) as nat);
            assert(y + (23 + e) == x + (wexp + 23));
        }
        assert(q + 1 > c) by (nonlinear_arith)
            requires
                (q + 1) * a * d > n * b,
                n >= d * low,
                b * low == a * c,
                a > 0,
                d > 0,
                b > 0,
        ;
        assert(j * a >= b * low) by (nonlinear_arith)
            requires
                j >= c,
                b * low == a * c,
        ;
    }
    lemma_excess_unique(j * a, b, e);
    // And the same half units below it.
    let u = pow2(e);
    lemma_pow2_pos(e);
    let du = d * u;
    let bu = b * u;
    assert(du > 0) by (nonlinear_arith)
        requires
            du == d * u,
            d > 0,
            u > 0,
    ;
    assert(bu > 0) by (nonlinear_arith)
        requires
            bu == b * u,
            b > 0,
            u > 0,
    ;
    let nb = n * b;
    let da = d * a;
    assert(da > 0) by (nonlinear_arith)
        requires
            da == d * a,
            d > 0,
            a > 0,
    ;
    assert(q * da < nb < (q + 1) * da) by (nonlinear_arith)
        requires
            da == d * a,
            nb == n * b,
            q * a * d < n * b,
            n * b < (q + 1) * a * d,
    ;
    lemma_odd_between(nb, da, q, j, h);
    // n / (d u) = (n b) / (d a w), with w two times h
    lemma_nearest_even_scale(n, du, b);
    assert(du * b == 2 * (da * h)) by (nonlinear_arith)
        requires
            du == d * u,
            b * u == a * w,
            da == d * a,
            w == 2 * h,
    ;
    let dah = da * h;
    assert(dah > 0) by (nonlinear_arith)
        requires
            dah == da * h,
            da > 0,
            h > 0,
    ;
    assert(2 * dah == dah * 2);
    assert(2 * nb == nb * 2);
    lemma_halved(nb, dah);
    lemma_nearest_even_by_halves(nb, 2 * dah);
    assert(nearest_even(n, du) == nearest_even(nb, 2 * dah));
    lemma_nearest_even_scale(j, w, a);
    assert(j * a == j * a && w * a == bu) by (nonlinear_arith)
        requires
            bu == b * u,
            b * u == a * w,
    ;
    lemma_halved(j, h);
    lemma_nearest_even_by_halves(j, 2 * h);
    assert(nearest_even(j * a, bu) == nearest_even(j, w));
}

/// Halving both terms of a quotient keeps it, and keeps whether the remainder vanishes.
proof fn lemma_halved(n: nat, d: nat)
    requires
        d > 0,
    ensures
        (2 * n) / (2 * d) == n / d,
        ((2 * n) % (2 * d) == 0) == (n % d == 0),
{
    lemma_fundamental_div_mod(n as int, d as int);
    let q = (n / d) as int;
    let r = (n % d) as int;
    assert(2 * n == q * (2 * d) + 2 * r) by (nonlinear_arith)
        requires
            n == d * q + r,
    ;
    lemma_fundamental_div_mod_converse((2 * n) as int, (2 * d) as int, q, 2 * r);
}

/// The nearest integer is at most `k` where the quotient is.
proof fn lemma_nearest_even_at_most(n: nat, d: nat, k: nat)
    requires
        d > 0,
        n <= k * d,
    ensures
        nearest_even(n, d) <= k,
{
    lemma_fundamental_div_mod(n as int, d as int);
    let q = (n / d) as int;
    let r = (n % d) as int;
    assert(q < k || (q == k && r == 0)) by (nonlinear_arith)
        requires
            n == d * q + r,
            0 <= r < d,
            n <= k * d,
    ;
}

/// The nearest integer is at least `k` where the quotient is.
proof fn lemma_nearest_even_at_least(n: nat, d: nat, k: nat)
    requires
        d > 0,
        n >= k * d,
    ensures
        nearest_even(n, d) >= k,
{
    lemma_fundamental_div_mod(n as int, d as int);
    let q = (n / d) as int;
    let r = (n % d) as int;
    assert(q >= k) by (nonlinear_arith)
        requires
            n == d * q + r,
            0 <= r < d,
            n >= k * d,
    ;
}

/// A finite magnitude pattern taken apart: significand and exponent, with the bounds that make
/// the pair unique.
pub proof fn lemma_magnitude_parts(pattern: nat) -> (parts: (nat, nat))
    requires
        pattern < 0x7f80_0000,
    ensures
        pattern == parts.1 * 0x80_0000 + parts.0,
        magnitude_value(pattern) == parts.0 * pow2(parts.1),
        parts.0 < 0x100_0000,
        parts.1 <= 253,
        parts.1 > 0 ==> parts.0 >= 0x80_0000,
{
    lemma2_to64();
    let exponent = pattern / 0x80_0000;
    let fraction = pattern % 0x80_0000;
    if exponent == 0 {
        assert(fraction * pow2(0) == fraction);
        (fraction, 0)
    } else {
        ((fraction + 0x80_0000) as nat, (exponent - 1) as nat)
    }
}

/// A quotient that is at most a representable magnitude rounds to at most that magnitude.
pub proof fn lemma_round_at_most(n: nat, d: nat, pattern: nat)
    requires
        d > 0,
        pattern < 0x7f80_0000,
        n <= magnitude_value(pattern) * d,
    ensures
        round_magnitude(n, d) <= pattern,
{
    let (m, f) = lemma_magnitude_parts(pattern);
    lemma2_to64();
    lemma_excess(n, d);
    let e = excess(n, d);
    let p = pow2(f);
    lemma_pow2_pos(f);
    lemma_pow2_adds(24, f);
    assert(n < d * pow2(24 + f)) by (nonlinear_arith)
        requires
            n <= (m * p) * d,
            m < 0x100_0000,
            pow2(24 + f) == 0x100_0000 * p,
            d > 0,
            p > 0,
    ;
    if e > f {
        lemma_pow2_monotone(24 + f, (23 + e) as nat);
        assert(d * pow2(24 + f) <= d * pow2((23 + e) as nat)) by (nonlinear_arith)
            requires
                pow2(24 + f) <= pow2((23 + e) as nat),
        ;
        assert(false);
    }
    let u = pow2(e);
    lemma_pow2_pos(e);
    let du = d * u;
    assert(du > 0) by (nonlinear_arith)
        requires
            du == d * u,
            d > 0,
            u > 0,
    ;
    if e == f {
        assert(n <= m * du) by (nonlinear_arith)
            requires
                n <= (m * u) * d,
                du == d * u,
        ;
        lemma_nearest_even_at_most(n, du, m);
    } else {
        lemma_pow2_adds(24, e);
        assert(n <= 0x100_0000 * du) by (nonlinear_arith)
            requires
                n < d * pow2(24 + e),
                pow2(24 + e) == 0x100_0000 * u,
                du == d * u,
        ;
        lemma_nearest_even_at_most(n, du, 0x100_0000);
    }
}

/// A quotient that is less than half a step above a representable magnitude rounds to at most that
/// magnitude.
pub proof fn lemma_round_near(n: nat, d: nat, m: nat, f: nat)
    requires
        d > 0,
        m < 0x100_0000,
        f > 0 ==> m >= 0x80_0000,
        2 * n < (2 * m + 1) * pow2(f) * d,
    ensures
        round_magnitude(n, d) <= f * 0x80_0000 + m,
{
    lemma2_to64();
    lemma_excess(n, d);
    let e = excess(n, d);
    let p = pow2(f);
    lemma_pow2_pos(f);
    lemma_pow2_adds(24, f);
    assert(n < d * pow2(24 + f)) by (nonlinear_arith)
        requires
            2 * n < (2 * m + 1) * p * d,
            m < 0x100_0000,
            pow2(24 + f) == 0x100_0000 * p,
            d > 0,
            p > 0,
    ;
    if e > f {
        lemma_pow2_monotone(24 + f, (23 + e) as nat);
        assert(d * pow2(24 + f) <= d * pow2((23 + e) as nat)) by (nonlinear_arith)
            requires
                pow2(24 + f) <= pow2((23 + e) as nat),
        ;
        assert(false);
    }
    let u = pow2(e);
    lemma_pow2_pos(e);
    let du = d * u;
    assert(du > 0) by (nonlinear_arith)
        requires
            du == d * u,
            d > 0,
            u > 0,
    ;
    if e == f {
        lemma_fundamental_div_mod(n as int, du as int);
        let q = (n / du) as int;
        let r = (n % du) as int;
        assert(q < m || (q == m && 2 * r < du)) by (nonlinear_arith)
            requires
                n == du * q + r,
                0 <= r < du,
                2 * n < (2 * m + 1) * u * d,
                du == d * u,
        ;
    } else {
        lemma_pow2_adds(24, e);
        assert(n <= 0x100_0000 * du) by (nonlinear_arith)
            requires
                n < d * pow2(24 + e),
                pow2(24 + e) == 0x100_0000 * u,
                du == d * u,
        ;
        lemma_nearest_even_at_most(n, du, 0x100_0000);
    }
}

/// A quotient that is at least a representable magnitude rounds to at least that magnitude.
pub proof fn lemma_round_at_least(n: nat, d: nat, pattern: nat)
    requires
        d > 0,
        pattern < 0x7f80_0000,
        n >= magnitude_value(pattern) * d,
    ensures
        round_magnitude(n, d) >= pattern,
{
    let (m, f) = lemma_magnitude_parts(pattern);
    lemma2_to64();
    lemma_excess(n, d);
    let e = excess(n, d);
    let p = pow2(f);
    lemma_pow2_pos(f);
    if e < f {
        lemma_pow2_adds(23, f);
        lemma_pow2_monotone(24 + e, 23 + f);
        assert(n >= d * pow2(24 + e)) by (nonlinear_arith)
            requires
                n >= (m * p) * d,
                m >= 0x80_0000,
                pow2(24 + e) <= 0x80_0000 * p,
                d > 0,
                p > 0,
        ;
        assert(false);
    }
    let u = pow2(e);
    lemma_pow2_pos(e);
    let du = d * u;
    assert(du > 0) by (nonlinear_arith)
        requires
            du == d * u,
            d > 0,
            u > 0,
    ;
    if e == f {
        assert(n >= m * du) by (nonlinear_arith)
            requires
                n >= (m * u) * d,
                du == d * u,
        ;
        lemma_nearest_even_at_least(n, du, m);
    } else {
        lemma_pow2_adds(23, e);
        assert(n >= 0x80_0000 * du) by (nonlinear_arith)
            requires
                n >= d * pow2((23 + e) as nat),
                pow2(23 + e) == 0x80_0000 * u,
                du == d * u,
        ;
        lemma_nearest_even_at_least(n, du, 0x80_0000);
    }
}

/// A value that the format holds rounds to itself.
pub proof fn lemma_round_exact(pattern: nat)
    requires
        pattern < 0x7f80_0000,
    ensures
        round_magnitude(magnitude_value(pattern), 1) == pattern,
{
    lemma_round_at_most(magnitude_value(pattern), 1, pattern);
    lemma_round_at_least(magnitude_value(pattern), 1, pattern);
}

/// Finite magnitude patterns are ordered as the values they stand for.
pub proof fn lemma_magnitude_order(a: nat, b: nat)
    requires
        a < 0x7f80_0000,
        b < 0x7f80_0000,
    ensures
        (a < b) == (magnitude_value(a) < magnitude_value(b)),
{
    lemma_round_exact(a);
    lemma_round_exact(b);
    if magnitude_value(a) <= magnitude_value(b) {
        lemma_round_at_most(magnitude_value(a), 1, b);
    }
    if magnitude_value(b) <= magnitude_value(a) {
        lemma_round_at_most(magnitude_value(b), 1, a);
    }
}

/// The value of a pattern that is given by exponent and significand, a full carry included.
pub proof fn lemma_pattern_value(e: nat, q: nat)
    requires
        e > 0 ==> q >= 0x80_0000,
        q <= 0x100_0000,
    ensures
        magnitude_value(e * 0x80_0000 + q) == q * pow2(e),
{
    lemma2_to64();
    let pattern = e * 0x80_0000 + q;
    if q == 0x100_0000 {
        lemma_pow2_unfold(e + 1);
        assert(pattern == (e + 2) * 0x80_0000);
        assert(0x80_0000 * pow2(e + 1) == 0x100_0000 * pow2(e));
    } else if q >= 0x80_0000 {
        assert(pattern / 0x80_0000 == e + 1);
        assert(pattern % 0x80_0000 == q - 0x80_0000);
    } else {
        assert(q * pow2(0) == q);
    }
}

/// The value of a rounded quotient, by its exponent and significand.
pub proof fn lemma_round_value(n: nat, d: nat)
    requires
        d > 0,
    ensures
        ({
            let e = excess(n, d);
            let m = nearest_even(n, d * pow2(e));
            &&& m <= 0x100_0000
            &&& e > 0 ==> m >= 0x80_0000
            &&& round_magnitude(n, d) < 0x7f80_0000 ==> magnitude_value(round_magnitude(n, d)) == m
                * pow2(e)
        }),
{
    lemma2_to64();
    lemma_excess(n, d);
    let e = excess(n, d);
    let u = pow2(e);
    lemma_pow2_pos(e);
    let du = d * u;
    assert(du > 0) by (nonlinear_arith)
        requires
            du == d * u,
            d > 0,
            u > 0,
    ;
    lemma_pow2_adds(24, e);
    assert(n <= 0x100_0000 * du) by (nonlinear_arith)
        requires
            n < d * pow2(24 + e),
            pow2(24 + e) == 0x100_0000 * u,
            du == d * u,
    ;
    lemma_nearest_even_at_most(n, du, 0x100_0000);
    if e > 0 {
        lemma_pow2_adds(23, e);
        assert(n >= 0x80_0000 * du) by (nonlinear_arith)
            requires
                n >= d * pow2((23 + e) as nat),
                pow2(23 + e) == 0x80_0000 * u,
                du == d * u,
        ;
        lemma_nearest_even_at_least(n, du, 0x80_0000);
    }
    lemma_pattern_value(e, nearest_even(n, du));
}

/// From the least normal number on, rounding commutes with powers of two.
pub proof fn lemma_round_shifted(n: nat, d: nat, k: nat)
    requires
        d > 0,
        n >= 0x80_0000 * d,
        round_magnitude(n * pow2(k), d) < 0x7f80_0000,
    ensures
        round_magnitude(n, d) < 0x7f80_0000,
        magnitude_value(round_magnitude(n * pow2(k), d)) == magnitude_value(round_magnitude(n, d))
            * pow2(k),
{
    lemma2_to64();
    lemma_excess(n, d);
    let e = excess(n, d);
    let p = pow2(k);
    lemma_pow2_pos(k);
    lemma_pow2_adds(24 + e, k);
    lemma_pow2_adds(23 + e, k);
    assert(n * p < d * pow2(24 + (e + k))) by (nonlinear_arith)
        requires
            n < d * pow2(24 + e),
            pow2(24 + (e + k)) == pow2(24 + e) * p,
            p > 0,
    ;
    assert(d * pow2(23) <= n) by (nonlinear_arith)
        requires
            n >= 0x80_0000 * d,
            pow2(23) == 0x80_0000,
    ;
    assert(n * p >= d * pow2(23 + (e + k))) by (nonlinear_arith)
        requires
            n >= d * pow2(23 + e),
            pow2(23 + (e + k)) == pow2(23 + e) * p,
            p > 0,
    ;
    lemma_excess_unique(n * p, d, e + k);
    lemma_pow2_adds(e, k);
    lemma_pow2_pos(e);
    let du = d * pow2(e);
    assert(du > 0 && d * pow2(e + k) == du * p) by (nonlinear_arith)
        requires
            du == d * pow2(e),
            d > 0,
            pow2(e) > 0,
            pow2(e + k) == pow2(e) * p,
    ;
    lemma_nearest_even_scale(n, du, p);
    let m = nearest_even(n, du);
    assert((e + k) * 0x80_0000 + m == e * 0x80_0000 + m + k * 0x80_0000);
    lemma_round_value(n, d);
    lemma_round_value(n * p, d);
    assert(m * pow2(e + k) == (m * pow2(e)) * p) by (nonlinear_arith)
        requires
            pow2(e + k) == pow2(e) * p,
    ;
}

/// Rounding commutes with doubling for integers.
proof fn lemma_round_doubled(n: nat)
    requires
        round_magnitude(2 * n, 1) < 0x7f80_0000,
    ensures
        round_magnitude(n, 1) < 0x7f80_0000,
        magnitude_value(round_magnitude(2 * n, 1)) == 2 * magnitude_value(round_magnitude(n, 1)),
{
    lemma2_to64();
    if n >= 0x80_0000 {
        assert(n * pow2(1) == 2 * n);
        lemma_round_shifted(n, 1, 1);
    } else {
        assert(excess(n, 1) == 0 && excess(2 * n, 1) == 0);
        assert(1 * pow2(0) == 1);
        assert(nearest_even(n, 1) == n && nearest_even(2 * n, 1) == 2 * n);
        lemma_pattern_value(0, n);
        lemma_pattern_value(0, 2 * n);
    }
}

/// Rounding commutes with powers of two for integers.
pub proof fn lemma_round_int_shifted(n: nat, k: nat)
    requires
        round_magnitude(n * pow2(k), 1) < 0x7f80_0000,
    ensures
        round_magnitude(n, 1) < 0x7f80_0000,
        magnitude_value(round_magnitude(n * pow2(k), 1)) == magnitude_value(round_magnitude(n, 1))
            * pow2(k),
    decreases k,
{
    lemma2_to64();
    if k == 0 {
        assert(n * 1 == n);
    } else {
        let p = pow2((k - 1) as nat);
        lemma_pow2_unfold(k);
        assert(n * pow2(k) == 2 * (n * p)) by (nonlinear_arith)
            requires
                pow2(k) == 2 * p,
        ;
        lemma_round_doubled(n * p);
        lemma_round_int_shifted(n, (k - 1) as nat);
        let v = magnitude_value(round_magnitude(n, 1));
        assert(2 * (v * p) == v * pow2(k)) by (nonlinear_arith)
            requires
                pow2(k) == 2 * p,
        ;
    }
}

/// From the least normal number on, quotients in the ratio of a power of two are rounded to values
/// in that ratio.
pub proof fn lemma_round_ratio(n1: nat, d1: nat, n2: nat, d2: nat, k: nat)
    requires
        d1 > 0,
        d2 > 0,
        n2 * d1 == (n1 * d2) * pow2(k),
        n1 >= 0x80_0000 * d1,
        round_magnitude(n2, d2) < 0x7f80_0000,
    ensures
        round_magnitude(n1, d1) < 0x7f80_0000,
        magnitude_value(round_magnitude(n2, d2)) == magnitude_value(round_magnitude(n1, d1))
            * pow2(k),
{
    lemma_round_scale(n1, d1, d2);
    lemma_round_scale(n2, d2, d1);
    let n = n1 * d2;
    let d = d1 * d2;
    assert(d2 * d1 == d) by (nonlinear_arith)
        requires
            d == d1 * d2,
    ;
    assert(d > 0 && n >= 0x80_0000 * d) by (nonlinear_arith)
        requires
            n == n1 * d2,
            d == d1 * d2,
            n1 >= 0x80_0000 * d1,
            d1 > 0,
            d2 > 0,
    ;
    lemma_round_shifted(n, d, k);
}

/// Where a quotient is at least the least normal number, rounding changes it by no more than one
/// part in two to the 24th.
pub proof fn lemma_round_relative(n: nat, d: nat)
    requires
        d > 0,
        n >= 0x80_0000 * d,
        round_magnitude(n, d) < 0x7f80_0000,
    ensures
        ({
            let v = magnitude_value(round_magnitude(n, d));
            0xff_ffff * n <= 0x100_0000 * (v * d) <= 0x100_0001 * n
        }),
{
    lemma2_to64();
    lemma_excess(n, d);
    lemma_round_value(n, d);
    let e = excess(n, d);
    let u = pow2(e);
    lemma_pow2_pos(e);
    let du = d * u;
    assert(du > 0) by (nonlinear_arith)
        requires
            du == d * u,
            d > 0,
            u > 0,
    ;
    let m = nearest_even(n, du);
    let v = magnitude_value(round_magnitude(n, d));
    lemma_pow2_adds(23, e);
    assert(n >= 0x80_0000 * du) by (nonlinear_arith)
        requires
            e == 0 ==> u == 1,
            n >= 0x80_0000 * d,
            e > 0 ==> n >= d * (0x80_0000 * u),
            du == d * u,
            e >= 0,
    ;
    lemma_fundamental_div_mod(n as int, du as int);
    let q = (n / du) as int;
    let r = (n % du) as int;
    assert(v * d == m * du) by (nonlinear_arith)
        requires
            v == m * u,
            du == d * u,
    ;
    assert((q + 1) * du == q * du + du) by (nonlinear_arith);
    assert(du * q == q * du) by (nonlinear_arith);
    assert(2 * n - du <= 2 * (m * du) <= 2 * n + du);
}

/// Rounding gives the nearest magnitude: the quotient lies between the midpoints of the result with
/// its two neighbours, and it lies on such a midpoint only where the result is even. Infinity stands
/// here for the first magnitude past the finite ones, and nothing bounds what is rounded to it.
pub proof fn law_round_nearest(n: nat, d: nat)
    requires
        d > 0,
    ensures
        ({
            let b = round_magnitude(n, d);
            let v = magnitude_value(b);
            &&& b > 0 ==> {
                let low = (magnitude_value((b - 1) as nat) + v) * d;
                low < 2 * n || (low == 2 * n && b % 2 == 0)
            }
            &&& b < 0x7f80_0000 ==> {
                let high = (v + magnitude_value(b + 1)) * d;
                2 * n < high || (2 * n == high && b % 2 == 0)
            }
        }),
{
    lemma2_to64();
    lemma_excess(n, d);
    let e = excess(n, d);
    let u = pow2(e);
    lemma_pow2_pos(e);
    let du = d * u;
    assert(du > 0) by (nonlinear_arith)
        requires
            du == d * u,
            d > 0,
            u > 0,
    ;
    let m = nearest_even(n, du);
    let b = round_magnitude(n, d);
    let pattern = e * 0x80_0000 + m;
    lemma_fundamental_div_mod(n as int, du as int);
    let q = (n / du) as int;
    let r = (n % du) as int;
    lemma_pow2_adds(24, e);
    assert(n <= 0x100_0000 * du) by (nonlinear_arith)
        requires
            n < d * pow2(24 + e),
            pow2(24 + e) == 0x100_0000 * u,
            du == d * u,
    ;
    lemma_nearest_even_at_most(n, du, 0x100_0000);
    if e > 0 {
        lemma_pow2_adds(23, e);
        assert(n >= 0x80_0000 * du) by (nonlinear_arith)
            requires
                n >= d * pow2((23 + e) as nat),
                pow2(23 + e) == 0x80_0000 * u,
                du == d * u,
        ;
        lemma_nearest_even_at_least(n, du, 0x80_0000);
    }
    lemma_pattern_value(e, m);
    // The quotient is within half a unit of the nearest integer.
    let low_mid = (2 * m - 1) * du;
    let high_mid = (2 * m + 1) * du;
    assert(low_mid <= 2 * n <= high_mid && (low_mid == 2 * n || high_mid == 2 * n ==> m % 2 == 0))
        by {
        assert(low_mid == 2 * (m * du) - du && high_mid == 2 * (m * du) + du) by (nonlinear_arith)
            requires
                low_mid == (2 * m - 1) * du,
                high_mid == (2 * m + 1) * du,
        ;
        assert((q + 1) * du == q * du + du) by (nonlinear_arith);
        assert(du * q == q * du) by (nonlinear_arith);
    }
    if pattern > 0x7f80_0000 {
        // Past infinity, the quotient is greater than the value that stands for infinity.
        lemma_pattern_value(254, 0x80_0000);
        lemma_pattern_value(253, 0xff_ffff);
        lemma_pow2_unfold(254);
        let h = pow2(253);
        lemma_pow2_pos(253);
        assert(e >= 254);
        assert(n >= (0x80_0000 * pow2(254)) * d) by {
            lemma_pow2_monotone(254, e);
            assert(n >= (0x80_0000 * pow2(254)) * d) by (nonlinear_arith)
                requires
                    n >= 0x80_0000 * du,
                    du == d * u,
                    u >= pow2(254),
            ;
        }
        assert((0xff_ffff * h + 0x80_0000 * pow2(254)) * d < 2 * n) by (nonlinear_arith)
            requires
                n >= (0x80_0000 * pow2(254)) * d,
                pow2(254) == 2 * h,
                h > 0,
                d > 0,
        ;
    } else if b > 0 {
        if m > 0x80_0000 || e == 0 {
            lemma_pattern_value(e, (m - 1) as nat);
            assert(((m - 1) * u + m * u) * d == low_mid) by (nonlinear_arith)
                requires
                    low_mid == (2 * m - 1) * du,
                    du == d * u,
            ;
        } else {
            let h = pow2((e - 1) as nat);
            lemma_pow2_pos((e - 1) as nat);
            lemma_pow2_unfold(e);
            lemma_pattern_value((e - 1) as nat, 0xff_ffff);
            assert((e - 1) * 0x80_0000 + 0xff_ffff == b - 1);
            assert((0xff_ffff * h + m * u) * d < 2 * n) by (nonlinear_arith)
                requires
                    m == 0x80_0000,
                    u == 2 * h,
                    n >= 0x80_0000 * du,
                    du == d * u,
                    d > 0,
                    h > 0,
            ;
        }
    }
    if b < 0x7f80_0000 {
        if m < 0x100_0000 {
            lemma_pattern_value(e, m + 1);
            assert((m * u + (m + 1) * u) * d == high_mid) by (nonlinear_arith)
                requires
                    high_mid == (2 * m + 1) * du,
                    du == d * u,
            ;
        } else {
            let w = pow2(e + 1);
            lemma_pow2_unfold(e + 1);
            lemma_pattern_value(e + 1, 0x80_0001);
            assert((e + 1) * 0x80_0000 + 0x80_0001 == b + 1);
            assert(2 * n < (m * u + 0x80_0001 * w) * d) by (nonlinear_arith)
                requires
                    m == 0x100_0000,
                    w == 2 * u,
                    n <= 0x100_0000 * du,
                    du == d * u,
                    d > 0,
                    u > 0,
            ;
        }
    }
}

/// The powers below the 128th fit in 128 bits.
proof fn lemma_pow2_fits(k: nat)
    requires
        k < 128,
    ensures
        pow2(k) <= u128::MAX,
{
    lemma2_to64();
    lemma_pow2_unfold(64);
    lemma_pow2_adds(64, 63);
    lemma_pow2_monotone(k, 127);
}

/// Two to the power `k`.
pub fn power_of_two(k: u32) -> (p: u128)
    requires
        k < 128,
    ensures
        p == pow2(k as nat),
{
    proof {
        lemma2_to64();
    }
    let mut p: u128 = 1;
    let mut i: u32 = 0;
    while i + 16 <= k
        invariant
            i <= k < 128,
            p == pow2(i as nat),
        decreases k - i,
    {
        proof {
            lemma2_to64();
            lemma_pow2_adds(i as nat, 16);
            lemma_pow2_fits((i + 16) as nat);
        }
        p = p * 0x1_0000;
        i = i + 16;
    }
    while i < k
        invariant
            i <= k < 128,
            p == pow2(i as nat),
        decreases k - i,
    {
        proof {
            lemma2_to64();
            lemma_pow2_unfold((i + 1) as nat);
            lemma_pow2_fits((i + 1) as nat);
        }
        p = p * 2;
        i = i + 1;
    }
    p
}

/// The number of binary digits of `m`.
pub fn bit_length(m: u128) -> (len: u32)
    requires
        m < pow2(100),
    ensures
        len <= 100,
        m < pow2(len as nat),
        m > 0 ==> len > 0 && m >= pow2((len - 1) as nat),
        m == 0 ==> len == 0,
{
    proof {
        lemma2_to64();
        lemma_pow2_adds(100, 16);
        lemma_pow2_fits(116);
        lemma_pow2_pos(100);
    }
    let mut p: u128 = 1;
    let mut len: u32 = 0;
    while len + 16 <= 100 && m >= p * 0x1_0000
        invariant
            len <= 100,
            len % 16 == 0,
            p == pow2(len as nat),
            p <= pow2(100),
            pow2(100) * 0x1_0000 <= u128::MAX,
            len > 0 ==> m >= p,
        decreases 100 - len,
    {
        proof {
            lemma2_to64();
            lemma_pow2_adds(len as nat, 16);
            lemma_pow2_monotone((len + 16) as nat, 100);
        }
        p = p * 0x1_0000;
        len = len + 16;
    }
    proof {
        if len > 0 {
            lemma_pow2_monotone((len - 1) as nat, len as nat);
        }
    }
    while m >= p
        invariant
            len <= 100,
            m < pow2(100),
            p == pow2(len as nat),
            p <= pow2(100),
            pow2(100) * 0x1_0000 <= u128::MAX,
            len > 0 ==> m >= pow2((len - 1) as nat),
        decreases 100 - len,
    {
        proof {
            lemma_pow2_unfold((len + 1) as nat);
            lemma_pow2_monotone((len + 1) as nat, 100);
        }
        p = p * 2;
        len = len + 1;
    }
    proof {
        if len > 0 {
            lemma_pow2_pos((len - 1) as nat);
        }
    }
    len
}

/// The integer nearest to `m / 2^shift`, the even one of two that are equally near.
fn round_shift(m: u128, shift: u32) -> (q: u128)
    requires
        m < pow2(100),
    ensures
        q == nearest_even(m as nat, pow2(shift as nat)),
{
    proof {
        lemma_pow2_pos(shift as nat);
    }
    if shift >= 102 {
        proof {
            lemma_pow2_monotone(102, shift as nat);
            lemma_pow2_unfold(101);
            lemma_pow2_unfold(102);
            lemma_fundamental_div_mod_converse(
                m as int,
                pow2(shift as nat) as int,
                0,
                m as int,
            );
        }
        return 0;
    }
    let unit: u128 = power_of_two(shift);
    let q: u128 = m / unit;
    let r: u128 = m % unit;
    proof {
        lemma_pow2_monotone(shift as nat, 102);
        lemma_pow2_unfold(103);
        lemma_pow2_fits(103);
        lemma_pow2_monotone(100, 102);
        lemma_fundamental_div_mod(m as int, unit as int);
        assert(q <= m) by (nonlinear_arith)
            requires
                m == unit * q + r,
                unit > 0,
                r >= 0,
                q >= 0,
        ;
        assert(r < unit);
    }
    if 2 * r < unit || (2 * r == unit && q % 2 == 0) {
        q
    } else {
        q + 1
    }
}

/// The magnitude pattern nearest to `m * 2^s` units.
pub fn round_scaled(m: u128, s: i32) -> (pattern: u32)
    requires
        m < pow2(100),
        -1000 <= s <= 1000,
    ensures
        pattern == round_magnitude(scaled_num(m as nat, s as int), scaled_den(s as int)),
{
    proof {
        lemma2_to64();
        if s < 0 {
            lemma_pow2_pos((-s) as nat);
        }
    }
    if m == 0 {
        proof {
            lemma_round_zero(s as int);
        }
        return 0;
    }
    let len: u32 = bit_length(m);
    let top: i32 = len as i32 + s;
    let e: i32 = if top > 24 {
        top - 24
    } else {
        0
    };
    proof {
        lemma_scaled_excess(m as nat, s as int, len as nat, e as nat);
    }
    let ghost n = scaled_num(m as nat, s as int);
    let ghost d = scaled_den(s as int);
    let q: u128 = if s >= e {
        // Nothing lies below the significand.
        proof {
            lemma_scaled_left(m as nat, s as int, len as nat, e as nat);
        }
        m * power_of_two((s - e) as u32)
    } else {
        proof {
            lemma_scaled_right(m as nat, s as int, e as nat);
        }
        round_shift(m, (e - s) as u32)
    };
    assert(q == nearest_even(n, d * pow2(e as nat)));
    proof {
        lemma_excess(n, d);
        lemma2_to64();
        lemma_pow2_adds(24, e as nat);
        lemma_pow2_pos(e as nat);
        let u = pow2(e as nat);
        let du = d * u;
        assert(n <= 0x100_0000 * du) by (nonlinear_arith)
            requires
                n < d * pow2(24 + e as nat),
                pow2(24 + e as nat) == 0x100_0000 * u,
                du == d * u,
        ;
        assert(du > 0) by (nonlinear_arith)
            requires
                du == d * u,
                d > 0,
                u > 0,
        ;
        lemma_nearest_even_at_most(n, du, 0x100_0000);
        if e > 0 {
            lemma_pow2_adds(23, e as nat);
            assert(n >= 0x80_0000 * du) by (nonlinear_arith)
                requires
                    n >= d * pow2((23 + e as nat) as nat),
                    pow2(23 + e as nat) == 0x80_0000 * u,
                    du == d * u,
            ;
            lemma_nearest_even_at_least(n, du, 0x80_0000);
        }
    }
    if e > 253 {
        return INFINITE;
    }
    let pattern: u32 = e as u32 * EXPONENT_STEP + q as u32;
    if pattern < INFINITE {
        pattern
    } else {
        INFINITE
    }
}

/// Zero rounds to zero at every scale.
proof fn lemma_round_zero(s: int)
    ensures
        round_magnitude(scaled_num(0, s), scaled_den(s)) == 0,
{
    let d = scaled_den(s);
    if s >= 0 {
        assert(0 * pow2(s as nat) == 0);
    } else {
        lemma_pow2_pos((-s) as nat);
    }
    assert(0 < d * 0x100_0000);
    lemma2_to64();
    assert(d * pow2(0) == d);
    lemma_fundamental_div_mod_converse(0, d as int, 0, 0);
}

/// The excess of `m * 2^s` from the binary digits of `m`.
proof fn lemma_scaled_excess(m: nat, s: int, len: nat, e: nat)
    requires
        0 < m < pow2(len),
        len > 0,
        m >= pow2((len - 1) as nat),
        e == if len + s > 24 {
            len + s - 24
        } else {
            0
        },
    ensures
        excess(scaled_num(m, s), scaled_den(s)) == e,
{
    lemma2_to64();
    let n = scaled_num(m, s);
    let d = scaled_den(s);
    if s >= 0 {
        let a = pow2(s as nat);
        lemma_pow2_pos(s as nat);
        lemma_pow2_adds(len, s as nat);
        assert(m * a < pow2(len) * a) by (nonlinear_arith)
            requires
                m < pow2(len),
                a > 0,
        ;
        lemma_pow2_monotone(len + s as nat, 24 + e);
        lemma_pow2_adds((len - 1) as nat, s as nat);
        assert(m * a >= pow2((len - 1) as nat) * a) by (nonlinear_arith)
            requires
                m >= pow2((len - 1) as nat),
        ;
        if e > 0 {
            assert(23 + e == (len - 1) as nat + s as nat);
        }
    } else {
        let b = pow2((-s) as nat);
        lemma_pow2_pos((-s) as nat);
        lemma_pow2_adds((-s) as nat, 24 + e);
        lemma_pow2_monotone(len, (-s) as nat + (24 + e));
        if e > 0 {
            lemma_pow2_adds((-s) as nat, (23 + e) as nat);
            assert((-s) as nat + (23 + e) as nat == (len - 1) as nat);
        }
    }
    lemma_excess_unique(n, d, e);
}

/// A significand that is shifted up is exact.
proof fn lemma_scaled_left(m: nat, s: int, len: nat, e: nat)
    requires
        m < pow2(len),
        len <= 100,
        s >= e,
        e == if len + s > 24 {
            len + s - 24
        } else {
            0
        },
    ensures
        s - e <= 24,
        m * pow2((s - e) as nat) <= 0x100_0000,
        nearest_even(scaled_num(m, s), scaled_den(s) * pow2(e)) == m * pow2((s - e) as nat),
{
    lemma2_to64();
    let k = (s - e) as nat;
    let p = pow2(k);
    let u = pow2(e);
    lemma_pow2_pos(e);
    lemma_pow2_pos(k);
    lemma_pow2_adds(k, e);
    lemma_pow2_adds(len, k);
    lemma_pow2_monotone(len + k, 24);
    let q = m * p;
    assert(q <= pow2(len) * p) by (nonlinear_arith)
        requires
            q == m * p,
            m < pow2(len),
    ;
    assert(scaled_num(m, s) == q * u) by (nonlinear_arith)
        requires
            scaled_num(m, s) == m * (p * u),
            q == m * p,
    ;
    assert(1 * u == u);
    lemma_fundamental_div_mod_converse((q * u) as int, u as int, q as int, 0);
}

/// A significand that is shifted down is rounded at the place where it is cut.
proof fn lemma_scaled_right(m: nat, s: int, e: nat)
    requires
        s < e,
    ensures
        nearest_even(scaled_num(m, s), scaled_den(s) * pow2(e)) == nearest_even(
            m,
            pow2((e - s) as nat),
        ),
{
    lemma2_to64();
    if s >= 0 {
        let a = pow2(s as nat);
        lemma_pow2_pos(s as nat);
        lemma_pow2_pos((e - s) as nat);
        lemma_pow2_adds((e - s) as nat, s as nat);
        assert((e - s) as nat + s as nat == e);
        assert(1 * pow2(e) == pow2(e));
        lemma_nearest_even_scale(m, pow2((e - s) as nat), a);
    } else {
        lemma_pow2_adds((-s) as nat, e);
        assert((-s) as nat + e == (e - s) as nat);
    }
}

} // verus!
