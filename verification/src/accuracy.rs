//! How close single precision results are to exact arithmetic.
//!
//! Values are counted in units of the least positive number, so that a product of two values counts
//! in the square of that unit. One operation is off by at most one part in two to the 24th of the
//! exact result, or by half a unit where the result is below the normal numbers.
use crate::binary32::{lit, size, Binary32};
use crate::rounding::{
    excess, lemma_magnitude_order, lemma_pattern_value, lemma_pow2_monotone, lemma_round_at_least,
    lemma_round_at_most, lemma_round_int_shifted, lemma_round_relative, lemma_round_value,
    magnitude_value, nearest_even, round_magnitude,
};
use crate::scaled::{lemma_signed_size, lemma_zero_size};
use vstd::arithmetic::div_mod::{lemma_fundamental_div_mod, lemma_fundamental_div_mod_converse};
use vstd::arithmetic::power::{lemma_pow_positive, pow};
use vstd::arithmetic::power2::{lemma2_to64, lemma_pow2_adds, lemma_pow2_pos, pow2};
use vstd::prelude::*;

verus! {

/// The number one in units.
pub open spec fn unit() -> nat {
    pow2(149)
}

/// A size up to which nothing that is computed from a few numbers overflows.
pub open spec fn ample() -> nat {
    pow2(250)
}

/// How far two integers are apart.
pub open spec fn gap(a: int, b: int) -> nat {
    size(a - b)
}

/// Whether `v` is the integer `exact`, but for the rounding of one sum.
pub open spec fn rounded(v: int, exact: int) -> bool {
    0x100_0000 * gap(v, exact) <= size(exact)
}

/// Whether `v` is the product of `a` and `b`, but for one rounding.
pub open spec fn rounded_product(v: int, a: int, b: int) -> bool {
    0x100_0000 * gap(v * unit(), a * b) <= size(a * b) + 0x80_0000 * unit()
}

/// Whether `v` is the quotient of `a` and `b`, but for one rounding.
pub open spec fn rounded_quotient(v: int, a: int, b: int) -> bool {
    0x100_0000 * gap(v * b, a * unit()) <= size(a) * unit() + 0x80_0000 * size(b)
}

/// Rounding is off by half a unit at most, or by one part in two to the 24th.
proof fn lemma_round_off(n: nat, d: nat)
    requires
        d > 0,
        round_magnitude(n, d) < 0x7f80_0000,
    ensures
        ({
            let v = magnitude_value(round_magnitude(n, d));
            0x100_0000 * gap(v * d as int, n as int) <= n + 0x80_0000 * d
        }),
        d == 1 ==> 0x100_0000 * gap(
            magnitude_value(round_magnitude(n, d)) as int,
            n as int,
        ) <= n,
{
    lemma2_to64();
    let v = magnitude_value(round_magnitude(n, d));
    if n >= 0x80_0000 * d {
        lemma_round_relative(n, d);
        assert(v * 1 == v);
    } else {
        lemma_round_value(n, d);
        assert(excess(n, d) == 0) by (nonlinear_arith)
            requires
                n < 0x80_0000 * d,
                d > 0,
                n < d * 0x100_0000 ==> excess(n, d) == 0,
        ;
        assert(d * pow2(0) == d);
        lemma_fundamental_div_mod(n as int, d as int);
        let q = (n / d) as int;
        assert((q + 1) * d == q * d + d) by (nonlinear_arith);
        assert(d * q == q * d) by (nonlinear_arith);
        let m = nearest_even(n, d);
        assert(m * pow2(0) == m) by (nonlinear_arith)
            requires
                pow2(0) == 1,
        ;
        assert(2 * gap(v * d as int, n as int) <= d);
    }
}

/// What is not too large is rounded to a finite number.
proof fn lemma_round_finite(n: nat, d: nat)
    requires
        d > 0,
        n <= pow2(260) * d,
    ensures
        round_magnitude(n, d) < 0x7f80_0000,
{
    lemma2_to64();
    lemma_pattern_value(237, 0x80_0000);
    lemma_pow2_adds(23, 237);
    lemma_round_at_most(n, d, 0x7700_0000);
}

/// A sum of finite numbers is the exact sum but for rounding, unless it overflows; and what is not
/// finite stays so.
pub proof fn law_plus_rounded(a: Binary32, b: Binary32)
    ensures
        !a.finite() || !b.finite() ==> !a.plus(b).finite(),
        a.finite() && b.finite() && size(a.value() + b.value()) <= pow2(260) ==> a.plus(
            b,
        ).finite(),
        a.plus(b).finite() ==> rounded(a.plus(b).value(), a.value() + b.value()),
{
    reveal(Binary32::plus);
    let s = a.value() + b.value();
    let m = round_magnitude(size(s), 1);
    lemma_signed_size(s < 0, m);
    lemma_signed_size(a.negative() && b.negative(), 0);
    assert(magnitude_value(0) == 0);
    if a.finite() && b.finite() && s != 0 {
        if size(s) <= pow2(260) {
            lemma_round_finite(size(s), 1);
        }
        if m < 0x7f80_0000 {
            lemma_round_off(size(s), 1);
        }
    }
}

/// A difference of finite numbers is the exact difference but for rounding, unless it overflows.
pub proof fn law_minus_rounded(a: Binary32, b: Binary32)
    ensures
        !a.finite() || !b.finite() ==> !a.minus(b).finite(),
        a.finite() && b.finite() && size(a.value() - b.value()) <= pow2(260) ==> a.minus(
            b,
        ).finite(),
        a.minus(b).finite() ==> rounded(a.minus(b).value(), a.value() - b.value()),
{
    law_plus_rounded(a, b.negated());
    lemma_negated(b);
}

/// The opposite number has the opposite value.
pub proof fn lemma_negated(b: Binary32)
    ensures
        b.negated().value() == -b.value(),
        b.negated().finite() == b.finite(),
{
    lemma_signed_size(!b.negative(), b.magnitude());
}

/// A product of finite numbers is the exact product but for rounding, unless it overflows.
pub proof fn law_times_rounded(a: Binary32, b: Binary32)
    requires
        a.finite(),
        b.finite(),
    ensures
        size(a.value() * b.value()) <= pow2(260) * unit() ==> a.times(b).finite(),
        a.times(b).finite() ==> rounded_product(a.times(b).value(), a.value(), b.value()),
        a.times(b).value() > 0 ==> a.value() * b.value() > 0,
        a.times(b).value() < 0 ==> a.value() * b.value() < 0,
{
    reveal(Binary32::times);
    lemma_pow2_pos(149);
    let p = size(a.value()) * size(b.value());
    let m = round_magnitude(p, unit());
    lemma_signed_size(a.negative() != b.negative(), m);
    let (x, y) = (a.value(), b.value());
    let (sx, sy) = (size(x) as int, size(y) as int);
    lemma_sign_product(x, y);
    if p <= pow2(260) * unit() {
        lemma_round_finite(p, unit());
    }
    if m < 0x7f80_0000 {
        lemma_round_off(p, unit());
        let v = magnitude_value(m);
        assert((-v) * unit() == -(v * unit())) by (nonlinear_arith);
    }
    if p == 0 {
        lemma_round_at_most(0, unit(), 0);
        assert(magnitude_value(0) == 0);
    }
}

/// The sign and the size of a product.
pub proof fn lemma_sign_product(x: int, y: int)
    ensures
        size(x * y) == size(x) * size(y),
        x * y == if (x < 0) != (y < 0) {
            -(size(x) * size(y))
        } else {
            (size(x) * size(y)) as int
        },
        (x * y == 0) == (x == 0 || y == 0),
{
    assert((-x) * y == -(x * y)) by (nonlinear_arith);
    assert(x * (-y) == -(x * y)) by (nonlinear_arith);
    assert((-x) * (-y) == x * y) by (nonlinear_arith);
    assert((x * y == 0) == (x == 0 || y == 0)) by (nonlinear_arith);
    assert(x >= 0 && y >= 0 ==> x * y >= 0) by (nonlinear_arith);
    assert(x >= 0 && y <= 0 ==> x * y <= 0) by (nonlinear_arith);
    assert(x <= 0 && y >= 0 ==> x * y <= 0) by (nonlinear_arith);
    assert(x <= 0 && y <= 0 ==> x * y >= 0) by (nonlinear_arith);
}

/// A quotient of finite numbers is the exact quotient but for rounding, unless it overflows.
pub proof fn law_over_rounded(a: Binary32, b: Binary32)
    requires
        a.finite(),
        b.finite(),
        b.value() != 0,
    ensures
        size(a.value()) * unit() <= pow2(260) * size(b.value()) ==> a.over(b).finite(),
        a.over(b).finite() ==> rounded_quotient(a.over(b).value(), a.value(), b.value()),
{
    reveal(Binary32::over);
    lemma_pow2_pos(149);
    lemma_zero_size(b);
    lemma_zero_size(a);
    let n = size(a.value()) * unit();
    let d = size(b.value());
    let m = round_magnitude(n, d);
    lemma_signed_size(a.negative() != b.negative(), m);
    if n <= pow2(260) * d {
        lemma_round_finite(n, d);
    }
    if m < 0x7f80_0000 {
        lemma_round_off(n, d);
        let v = magnitude_value(m) as int;
        let (x, y, e, u) = (a.value(), b.value(), d as int, unit() as int);
        assert((-v) * (-e) == v * e && (-v) * e == -(v * e) && v * (-e) == -(v * e))
            by (nonlinear_arith);
        assert((-(size(x) as int)) * u == -(size(x) * u)) by (nonlinear_arith);
        if x == 0 {
            assert(n == 0) by (nonlinear_arith)
                requires
                    n == size(x) * unit(),
                    size(x) == 0,
            ;
            lemma_round_at_most(0, d, 0);
            assert(magnitude_value(0) == 0);
            assert(0 * e == 0 && 0 * u == 0 && 0 * (-e) == 0);
        }
    }
}

/// The least factor that `k` roundings can leave, times two to the 24 `k`.
pub open spec fn least(k: nat) -> int {
    pow(0xff_ffff, k)
}

/// Two to the 24 `k`.
pub open spec fn full(k: nat) -> int {
    pow(0x100_0000, k)
}

/// Roundings leave something, and no more than there was.
pub proof fn lemma_factors(k: nat)
    ensures
        0 < least(k) <= full(k),
        least(k + 1) == 0xff_ffff * least(k),
        full(k + 1) == 0x100_0000 * full(k),
        least(0) == 1,
        full(0) == 1,
    decreases k,
{
    reveal(pow);
    lemma_pow_positive(0xff_ffff, k);
    if k > 0 {
        lemma_factors((k - 1) as nat);
    }
}

/// A few million roundings lose less than half.
proof fn lemma_half_left(k: nat)
    requires
        k <= 0x80_0000,
    ensures
        full(k) <= 2 * least(k),
{
    lemma_bernoulli(k);
    lemma_factors(k);
    assert(full(k) <= 2 * least(k)) by (nonlinear_arith)
        requires
            (0x100_0000 - k) * full(k) <= 0x100_0000 * least(k),
            k <= 0x80_0000,
            full(k) > 0,
    ;
}

proof fn lemma_bernoulli(k: nat)
    requires
        k <= 0x100_0000,
    ensures
        (0x100_0000 - k) * full(k) <= 0x100_0000 * least(k),
    decreases k,
{
    lemma_factors(k);
    if k > 0 {
        let j = (k - 1) as nat;
        lemma_bernoulli(j);
        lemma_factors(j);
        let (f, l) = (full(j), least(j));
        assert((0x100_0000 - k) * (0x100_0000 * f) <= 0x100_0000 * (0xff_ffff * l))
            by (nonlinear_arith)
            requires
                (0x100_0000 - j) * f <= 0x100_0000 * l,
                k == j + 1,
                f > 0,
                0 <= j < 0x100_0000,
        ;
    }
}

/// Whether `v` is the sum `s`, of terms with total size `a`, but for `k` roundings in a row.
pub open spec fn accurate(v: int, s: int, a: int, k: nat) -> bool {
    least(k) * gap(v, s) <= (full(k) - least(k)) * a
}

/// Whether an integer is a multiple of two to the power `j`.
pub open spec fn on_grid(v: int, j: nat) -> bool {
    v % (pow2(j) as int) == 0
}

/// Whether `v` is the computed sum of terms. `s` is their exact sum, `a` their total size and `k` the
/// number of roundings in a row. It is finite unless the terms are huge or very many, it is close to
/// the exact sum, and it is the exact sum where all terms are multiples of a power of two, `grid`,
/// and not more than two to the 24th of it together.
#[verifier::opaque]
pub open spec fn sums_to(v: Binary32, s: int, a: int, k: nat, grid: bool, j: nat) -> bool {
    &&& size(s) <= a
    &&& v.finite() ==> accurate(v.value(), s, a, k)
    &&& a <= ample() && k <= 0x40_0000 ==> v.finite()
    &&& grid ==> on_grid(s, j)
    &&& grid && a <= ample() && a <= 0x100_0000 * pow2(j) ==> v.finite() && v.value() == s
}

/// A term is its own sum.
pub proof fn lemma_term(t: Binary32, grid: bool, j: nat)
    requires
        grid ==> on_grid(t.value(), j),
    ensures
        sums_to(t, t.value(), size(t.value()) as int, 0, grid, j),
{
    reveal(sums_to);
    lemma_factors(0);
    assert(0 * size(t.value()) == 0);
    if !t.finite() {
        // Patterns that are not finite have values beyond the ample size.
        let e = t.magnitude() / 0x80_0000;
        lemma_pow2_pos(254);
        lemma_pow2_monotone(250, 254);
        assert(e == 255);
        let f = t.magnitude() % 0x80_0000;
        lemma2_to64();
        assert((f + 0x80_0000) * pow2(254) > pow2(250)) by (nonlinear_arith)
            requires
                pow2(254) >= pow2(250),
                pow2(254) > 0,
                f >= 0,
        ;
    }
}

/// Zero is on every grid.
proof fn lemma_zero_grid(j: nat)
    ensures
        on_grid(0, j),
{
    lemma_pow2_pos(j);
    assert(0int % (pow2(j) as int) == 0) by (nonlinear_arith)
        requires
            pow2(j) > 0,
    ;
}

/// The empty sum.
pub proof fn lemma_no_terms(grid: bool, j: nat)
    ensures
        sums_to(lit(0), 0, 0, 0, grid, j),
{
    assert(magnitude_value(0) == 0);
    lemma_pow2_pos(j);
    lemma_zero_grid(j);
    lemma_term(lit(0), grid, j);
}

/// The opposite of a sum is the sum of the opposite terms.
pub proof fn lemma_opposite_sum(v: Binary32, s: int, a: int, k: nat, grid: bool, j: nat)
    requires
        sums_to(v, s, a, k, grid, j),
    ensures
        sums_to(v.negated(), -s, a, k, grid, j),
{
    reveal(sums_to);
    lemma_negated(v);
    lemma_grid_opposite(s, j);
}

/// The opposite of an integer on a grid is on it.
pub proof fn lemma_grid_opposite(s: int, j: nat)
    ensures
        on_grid(s, j) ==> on_grid(-s, j),
{
    lemma_pow2_pos(j);
    if on_grid(s, j) {
        let p = pow2(j) as int;
        lemma_fundamental_div_mod(s, p);
        let q = s / p;
        assert(-s == (-q) * p) by (nonlinear_arith)
            requires
                s == p * q,
        ;
        lemma_fundamental_div_mod_converse(-s, p, -q, 0);
    }
}

proof fn lemma_grid_sum(s: int, t: int, j: nat)
    requires
        on_grid(s, j),
        on_grid(t, j),
    ensures
        on_grid(s + t, j),
{
    lemma_pow2_pos(j);
    let p = pow2(j) as int;
    lemma_fundamental_div_mod(s, p);
    lemma_fundamental_div_mod(t, p);
    let q = s / p + t / p;
    assert(s + t == p * q) by (nonlinear_arith)
        requires
            s == p * (s / p),
            t == p * (t / p),
            q == s / p + t / p,
    ;
    assert(p * q == q * p) by (nonlinear_arith);
    lemma_fundamental_div_mod_converse(s + t, p, q, 0);
}

/// More roundings allow for more.
proof fn lemma_accurate_more(v: int, s: int, a: int, k: nat, m: nat)
    requires
        accurate(v, s, a, k),
        a >= 0,
        k <= m,
    ensures
        accurate(v, s, a, m),
    decreases m - k,
{
    if k < m {
        lemma_factors(k);
        let (l, f, e) = (least(k), full(k), gap(v, s) as int);
        assert((0xff_ffff * l) * e <= (0x100_0000 * f - 0xff_ffff * l) * a) by (nonlinear_arith)
            requires
                l * e <= (f - l) * a,
                a >= 0,
                f > 0,
        ;
        lemma_accurate_more(v, s, a, k + 1, m);
    }
}

/// Sums of sums, in exact arithmetic.
proof fn lemma_accurate_sum(
    v1: int,
    s1: int,
    a1: int,
    v2: int,
    s2: int,
    a2: int,
    v: int,
    k: nat,
)
    requires
        accurate(v1, s1, a1, k),
        accurate(v2, s2, a2, k),
        size(s1) <= a1,
        size(s2) <= a2,
        rounded(v, v1 + v2),
    ensures
        accurate(v, s1 + s2, a1 + a2, k + 1),
{
    lemma_factors(k);
    let (l, f) = (least(k), full(k));
    let (s, a) = (s1 + s2, a1 + a2);
    let (e1, e2) = (gap(v1, s1) as int, gap(v2, s2) as int);
    let e = e1 + e2;
    assert(l * e <= (f - l) * a) by (nonlinear_arith)
        requires
            l * e1 <= (f - l) * a1,
            l * e2 <= (f - l) * a2,
            e == e1 + e2,
            a == a1 + a2,
    ;
    let g = gap(v, s) as int;
    assert(0x100_0000 * g <= 0x100_0001 * e + a);
    assert((0xff_ffff * l) * g <= (0x100_0000 * f - 0xff_ffff * l) * a) by (nonlinear_arith)
        requires
            l * e <= (f - l) * a,
            0x100_0000 * g <= 0x100_0001 * e + a,
            l > 0,
            f >= l,
            a >= 0,
    ;
}

/// How large an accurate sum can be.
proof fn lemma_accurate_size(v: int, s: int, a: int, k: nat)
    requires
        accurate(v, s, a, k),
        size(s) <= a,
        k <= 0x80_0000,
    ensures
        size(v) <= 2 * a,
{
    lemma_factors(k);
    lemma_half_left(k);
    let (l, f, e) = (least(k), full(k), gap(v, s) as int);
    assert(e <= a) by (nonlinear_arith)
        requires
            l * e <= (f - l) * a,
            f <= 2 * l,
            l > 0,
            a >= 0,
    ;
}

/// Integers up to two to the 24th are rounded to themselves.
proof fn lemma_round_small(m: nat)
    requires
        m <= 0x100_0000,
    ensures
        magnitude_value(round_magnitude(m, 1)) == m,
{
    lemma2_to64();
    lemma_pow2_monotone(25, 260);
    lemma_round_finite(m, 1);
    lemma_round_value(m, 1);
    if m < 0x100_0000 {
        assert(excess(m, 1) == 0);
        assert(1 * pow2(0) == 1);
        assert(nearest_even(m, 1) == m);
        lemma_pattern_value(0, m);
        assert(m * pow2(0) == m) by (nonlinear_arith)
            requires
                pow2(0) == 1,
        ;
    } else {
        assert(excess(m, 1) == 1) by {
            assert(excess(m, 2) == 0);
        }
        assert(1 * pow2(1) == 2);
        assert(m / 2 == 0x80_0000 && m % 2 == 0);
        assert(nearest_even(m, 2) == 0x80_0000);
        assert(0x80_0000 * pow2(1) == m);
    }
}

/// Integers on a grid, up to two to the 24th of its step, are rounded to themselves.
proof fn lemma_grid_exact(n: nat, j: nat)
    requires
        on_grid(n as int, j),
        n <= 0x100_0000 * pow2(j),
        n <= pow2(260),
    ensures
        magnitude_value(round_magnitude(n, 1)) == n,
{
    lemma2_to64();
    lemma_pow2_pos(j);
    let p = pow2(j);
    lemma_fundamental_div_mod(n as int, p as int);
    let m = (n / p) as nat;
    assert(n == m * p) by (nonlinear_arith)
        requires
            n == p * m,
    ;
    assert(m <= 0x100_0000) by (nonlinear_arith)
        requires
            m * p <= 0x100_0000 * p,
            p > 0,
    ;
    lemma_round_finite(n, 1);
    lemma_round_int_shifted(m, j);
    lemma_round_small(m);
}

/// The sum of two sums.
pub proof fn lemma_sum(
    v1: Binary32,
    s1: int,
    a1: int,
    k1: nat,
    v2: Binary32,
    s2: int,
    a2: int,
    k2: nat,
    k: nat,
    grid: bool,
    j: nat,
)
    requires
        sums_to(v1, s1, a1, k1, grid, j),
        sums_to(v2, s2, a2, k2, grid, j),
        k1 < k,
        k2 < k,
    ensures
        sums_to(v1.plus(v2), s1 + s2, a1 + a2, k, grid, j),
{
    reveal(sums_to);
    let v = v1.plus(v2);
    let m = (k - 1) as nat;
    let (s, a) = (s1 + s2, a1 + a2);
    law_plus_rounded(v1, v2);
    if v1.finite() && v2.finite() {
        lemma_accurate_more(v1.value(), s1, a1, k1, m);
        lemma_accurate_more(v2.value(), s2, a2, k2, m);
        if v.finite() {
            lemma_accurate_sum(
                v1.value(),
                s1,
                a1,
                v2.value(),
                s2,
                a2,
                v.value(),
                m,
            );
        }
    }
    if a <= ample() && k <= 0x40_0000 {
        lemma_accurate_size(v1.value(), s1, a1, m);
        lemma_accurate_size(v2.value(), s2, a2, m);
        lemma_room();
    }
    if grid {
        lemma_grid_sum(s1, s2, j);
        if a <= ample() && a <= 0x100_0000 * pow2(j) {
            lemma_room();
            lemma_exact_plus(v1, v2, j);
        }
    }
}

/// What holds with fewer roundings, or whether or not terms are on a grid, holds with more.
pub proof fn lemma_weaker(
    v: Binary32,
    s: int,
    a: int,
    k: nat,
    grid: bool,
    m: nat,
    also: bool,
    j: nat,
)
    requires
        sums_to(v, s, a, k, grid, j),
        k <= m,
        also ==> grid,
    ensures
        sums_to(v, s, a, m, also, j),
{
    reveal(sums_to);
    if v.finite() {
        lemma_accurate_more(v.value(), s, a, k, m);
    }
}

/// There is room above the ample size.
pub proof fn lemma_room()
    ensures
        1024 * ample() <= pow2(260),
        ample() > 0,
{
    lemma2_to64();
    lemma_pow2_adds(250, 10);
    lemma_pow2_pos(250);
}

/// A sum on a grid is exact.
pub proof fn lemma_exact_plus(a: Binary32, b: Binary32, j: nat)
    requires
        a.finite(),
        b.finite(),
        on_grid(a.value() + b.value(), j),
        size(a.value() + b.value()) <= 0x100_0000 * pow2(j),
        size(a.value() + b.value()) <= pow2(260),
    ensures
        a.plus(b).finite(),
        a.plus(b).value() == a.value() + b.value(),
{
    reveal(Binary32::plus);
    let s = a.value() + b.value();
    lemma_grid_opposite(s, j);
    lemma_grid_exact(size(s), j);
    lemma_round_finite(size(s), 1);
    lemma_signed_size(s < 0, round_magnitude(size(s), 1));
    lemma_signed_size(a.negative() && b.negative(), 0);
    assert(magnitude_value(0) == 0);
}

/// Where the exact sum of two numbers is a number itself, the sum is exact.
pub proof fn law_plus_exact(a: Binary32, b: Binary32, p: Binary32)
    requires
        a.finite(),
        b.finite(),
        p.finite(),
        p.value() == a.value() + b.value(),
    ensures
        a.plus(b).finite(),
        a.plus(b).value() == a.value() + b.value(),
{
    reveal(Binary32::plus);
    let s = a.value() + b.value();
    lemma_signed_size(p.negative(), p.magnitude());
    assert(size(s) == magnitude_value(p.magnitude()));
    lemma_round_at_most(size(s), 1, p.magnitude());
    lemma_round_at_least(size(s), 1, p.magnitude());
    lemma_signed_size(s < 0, p.magnitude());
    lemma_signed_size(a.negative() && b.negative(), 0);
    assert(magnitude_value(0) == 0);
}

/// Where the exact difference of two numbers is a number itself, the difference is exact.
pub proof fn law_minus_exact(a: Binary32, b: Binary32, p: Binary32)
    requires
        a.finite(),
        b.finite(),
        p.finite(),
        p.value() == a.value() - b.value(),
    ensures
        a.minus(b).finite(),
        a.minus(b).value() == a.value() - b.value(),
{
    lemma_negated(b);
    law_plus_exact(a, b.negated(), p);
}

/// Where the exact product of two numbers is a number itself, the product is exact.
pub proof fn law_times_exact(a: Binary32, b: Binary32, p: Binary32)
    requires
        a.finite(),
        b.finite(),
        p.finite(),
        p.value() * unit() == a.value() * b.value(),
    ensures
        a.times(b).finite(),
        a.times(b).value() == p.value(),
{
    reveal(Binary32::times);
    lemma_pow2_pos(149);
    lemma_sign_product(a.value(), b.value());
    lemma_sign_product(p.value(), unit() as int);
    let n = size(a.value()) * size(b.value());
    assert(n == magnitude_value(p.magnitude()) * unit());
    lemma_round_at_most(n, unit(), p.magnitude());
    lemma_round_at_least(n, unit(), p.magnitude());
    lemma_signed_size(a.negative() != b.negative(), p.magnitude());
    lemma_zero_size(a);
    lemma_zero_size(b);
}

/// Where the exact quotient of two numbers is a number itself, the quotient is exact.
pub proof fn law_over_exact(a: Binary32, b: Binary32, p: Binary32)
    requires
        a.finite(),
        b.finite(),
        p.finite(),
        b.value() != 0,
        p.value() * b.value() == a.value() * unit(),
    ensures
        a.over(b).finite(),
        a.over(b).value() == p.value(),
{
    reveal(Binary32::over);
    lemma_pow2_pos(149);
    lemma_sign_product(p.value(), b.value());
    lemma_sign_product(a.value(), unit() as int);
    let n = size(a.value()) * unit();
    let d = size(b.value());
    assert(n == magnitude_value(p.magnitude()) * d);
    lemma_round_at_most(n, d, p.magnitude());
    lemma_round_at_least(n, d, p.magnitude());
    lemma_signed_size(a.negative() != b.negative(), p.magnitude());
    lemma_zero_size(a);
    lemma_zero_size(b);
}

/// Taking away what is not below zero does not increase a number, and taking away what is not above
/// zero does not decrease it.
pub proof fn law_minus_order(a: Binary32, b: Binary32)
    requires
        a.finite(),
        b.finite(),
        a.minus(b).finite(),
    ensures
        b.value() >= 0 ==> a.minus(b).value() <= a.value(),
        b.value() <= 0 ==> a.minus(b).value() >= a.value(),
{
    reveal(Binary32::plus);
    lemma_negated(b);
    let s = a.value() - b.value();
    let m = round_magnitude(size(s), 1);
    lemma_signed_size(a.negative(), a.magnitude());
    lemma_signed_size(s < 0, m);
    lemma_signed_size(a.negative() && b.negated().negative(), 0);
    assert(magnitude_value(0) == 0);
    if size(s) <= size(a.value()) {
        lemma_round_at_most(size(s), 1, a.magnitude());
        lemma_magnitude_order(a.magnitude(), m);
    }
    if size(s) >= size(a.value()) {
        lemma_round_at_least(size(s), 1, a.magnitude());
        if m < 0x7f80_0000 {
            lemma_magnitude_order(m, a.magnitude());
        }
    }
}

} // verus!
