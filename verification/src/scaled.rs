//! Operations on numbers that are powers of two apart.
use crate::binary32::{
    floor_root, law_order_of_values, law_root_nearest, lemma_floor_root, lit, round_root, signed,
    size, Binary32,
};
use crate::rounding::{
    lemma_magnitude_order, lemma_round_at_most, lemma_round_inexact, lemma_round_int_shifted,
    lemma_round_ratio, lemma_round_shifted, magnitude_value, round_magnitude, scaled_den, scaled_num,
};
use vstd::arithmetic::power2::{lemma2_to64, lemma_pow2_adds, lemma_pow2_pos, pow2};
use vstd::prelude::*;

verus! {

/// Whether `b` is `a` times two to the power `k`.
#[verifier::opaque]
pub open spec fn ratio(a: nat, b: nat, k: int) -> bool {
    if k >= 0 {
        b == a * pow2(k as nat)
    } else {
        a == b * pow2((-k) as nat)
    }
}

/// Whether `b` is exactly `a` times two to the power `k`, both being finite.
#[verifier::opaque]
pub open spec fn scaled(a: Binary32, b: Binary32, k: int) -> bool {
    &&& a.finite()
    &&& b.finite()
    &&& a.negative() == b.negative()
    &&& ratio(size(a.value()), size(b.value()), k)
}

/// Whether a sum does not overflow; sums do not underflow.
pub open spec fn plus_clean(a: Binary32, b: Binary32) -> bool {
    a.plus(b).finite()
}

/// Whether a product neither overflows nor underflows: it is finite, and exactly zero or at least
/// the least normal number.
#[verifier::opaque]
pub open spec fn times_clean(a: Binary32, b: Binary32) -> bool {
    let product = size(a.value()) * size(b.value());
    a.times(b).finite() && (product == 0 || product >= 0x80_0000 * pow2(149))
}

/// Whether a quotient neither overflows nor underflows, and its denominator is not zero.
#[verifier::opaque]
pub open spec fn over_clean(a: Binary32, b: Binary32) -> bool {
    let numerator = size(a.value()) * pow2(149);
    &&& b.magnitude() != 0
    &&& a.over(b).finite()
    &&& numerator == 0 || numerator >= 0x80_0000 * size(b.value())
}

/// The value of a number that is made of sign and magnitude.
pub proof fn lemma_signed_size(negative: bool, magnitude: nat)
    requires
        magnitude < 0x8000_0000,
    ensures
        signed(negative, magnitude).magnitude() == magnitude,
        signed(negative, magnitude).negative() == negative,
        size(signed(negative, magnitude).value()) == magnitude_value(magnitude),
{
}

/// Only zero has the value zero.
pub proof fn lemma_zero_size(a: Binary32)
    requires
        a.finite(),
    ensures
        (size(a.value()) == 0) == (a.magnitude() == 0),
{
    assert(magnitude_value(0) == 0);
    lemma_magnitude_order(0, a.magnitude());
}

/// The relation read the other way.
pub proof fn lemma_scaled_back(a: Binary32, b: Binary32, k: int)
    requires
        scaled(a, b, k),
    ensures
        scaled(b, a, -k),
{
    reveal(scaled);
    reveal(ratio);
    lemma2_to64();
    if k == 0 {
        assert(size(a.value()) * 1 == size(a.value()));
        assert(size(b.value()) * 1 == size(b.value()));
    }
}

/// Every finite number is itself times one.
pub proof fn lemma_scaled_same(a: Binary32)
    requires
        a.finite(),
    ensures
        scaled(a, a, 0),
{
    reveal(scaled);
    reveal(ratio);
    lemma2_to64();
    assert(size(a.value()) * 1 == size(a.value()));
}

/// Zero is zero times every power.
pub proof fn lemma_scaled_zero(k: int)
    ensures
        scaled(lit(0), lit(0), k),
{
    reveal(scaled);
    reveal(ratio);
    assert(magnitude_value(0) == 0);
    assert(size(lit(0).value()) == 0);
    assert(0 * pow2(k as nat) == 0 && 0 * pow2((-k) as nat) == 0);
}

/// Signs go along.
pub proof fn lemma_scaled_negated(a: Binary32, b: Binary32, k: int)
    requires
        scaled(a, b, k),
    ensures
        scaled(a.negated(), b.negated(), k),
{
    reveal(scaled);
    reveal(ratio);
    lemma_signed_size(!a.negative(), a.magnitude());
    lemma_signed_size(!b.negative(), b.magnitude());
}

/// Values go along.
proof fn lemma_scaled_values(a: Binary32, b: Binary32, k: nat)
    requires
        scaled(a, b, k as int),
    ensures
        b.value() == a.value() * pow2(k),
{
    reveal(scaled);
    reveal(ratio);
    let (x, y, p) = (size(a.value()) as int, size(b.value()) as int, pow2(k) as int);
    assert((-x) * p == -(x * p)) by (nonlinear_arith);
}

/// The order goes along.
pub proof fn lemma_scaled_order(a: Binary32, b: Binary32, c: Binary32, d: Binary32, k: int)
    requires
        scaled(a, b, k),
        scaled(c, d, k),
    ensures
        a.less(c) == b.less(d),
    decreases
        if k >= 0 {
            0int
        } else {
            1int
        },
{
    reveal(scaled);
    reveal(ratio);
    if k < 0 {
        lemma_scaled_back(a, b, k);
        lemma_scaled_back(c, d, k);
        lemma_scaled_order(b, a, d, c, -k);
    } else {
        lemma_scaled_values(a, b, k as nat);
        lemma_scaled_values(c, d, k as nat);
        law_order_of_values(a, c);
        law_order_of_values(b, d);
        lemma_pow2_pos(k as nat);
        let (x, y, p) = (a.value(), c.value(), pow2(k as nat) as int);
        assert((x < y) == (x * p < y * p)) by (nonlinear_arith)
            requires
                p > 0,
        ;
    }
}

/// Sums go along, where they do not overflow.
pub proof fn lemma_scaled_plus(a: Binary32, b: Binary32, c: Binary32, d: Binary32, k: int)
    requires
        scaled(a, b, k),
        scaled(c, d, k),
        plus_clean(a, c),
        plus_clean(b, d),
    ensures
        scaled(a.plus(c), b.plus(d), k),
    decreases
        if k >= 0 {
            0int
        } else {
            1int
        },
{
    reveal(scaled);
    reveal(ratio);
    if k < 0 {
        lemma_scaled_back(a, b, k);
        lemma_scaled_back(c, d, k);
        lemma_scaled_plus(b, a, d, c, -k);
        lemma_scaled_back(b.plus(d), a.plus(c), -k);
    } else {
        reveal(Binary32::plus);
        lemma_scaled_values(a, b, k as nat);
        lemma_scaled_values(c, d, k as nat);
        lemma_pow2_pos(k as nat);
        let p = pow2(k as nat) as int;
        let s = a.value() + c.value();
        let t = b.value() + d.value();
        assert(t == s * p) by (nonlinear_arith)
            requires
                t == a.value() * p + c.value() * p,
                s == a.value() + c.value(),
        ;
        assert(size(t) == size(s) * p && (t < 0) == (s < 0) && (t == 0) == (s == 0))
            by (nonlinear_arith)
            requires
                t == s * p,
                p > 0,
                size(t) == (if t < 0 { -t } else { t }),
                size(s) == (if s < 0 { -s } else { s }),
        ;
        if s == 0 {
            assert(magnitude_value(0) == 0);
            lemma_signed_size(a.negative() && c.negative(), 0);
            assert(0 * p == 0);
        } else {
            let (m1, m2) = (round_magnitude(size(s), 1), round_magnitude(size(t), 1));
            lemma_signed_size(s < 0, m1);
            lemma_signed_size(t < 0, m2);
            assert(m2 < 0x7f80_0000);
            assert((size(s) * pow2(k as nat)) as nat == size(t));
            lemma_round_int_shifted(size(s), k as nat);
        }
    }
}

/// Differences go along, where they do not overflow.
pub proof fn lemma_scaled_minus(a: Binary32, b: Binary32, c: Binary32, d: Binary32, k: int)
    requires
        scaled(a, b, k),
        scaled(c, d, k),
        a.minus(c).finite(),
        b.minus(d).finite(),
    ensures
        scaled(a.minus(c), b.minus(d), k),
{
    reveal(scaled);
    reveal(ratio);
    lemma_scaled_negated(c, d, k);
    lemma_scaled_plus(a, b, c.negated(), d.negated(), k);
}

/// Exact products are in the product of the ratios.
proof fn lemma_ratio_product(a: nat, b: nat, c: nat, d: nat, j: int, k: int)
    requires
        ratio(a, b, j),
        ratio(c, d, k),
        j + k >= 0,
    ensures
        b * d == (a * c) * pow2((j + k) as nat),
{
    reveal(ratio);
    let s = pow2((j + k) as nat);
    if j >= 0 && k >= 0 {
        lemma_pow2_adds(j as nat, k as nat);
        let (p, q) = (pow2(j as nat), pow2(k as nat));
        assert(b * d == (a * c) * s) by (nonlinear_arith)
            requires
                b == a * p,
                d == c * q,
                s == p * q,
        ;
    } else if j >= 0 {
        lemma_pow2_adds((j + k) as nat, (-k) as nat);
        let (p, q) = (pow2(j as nat), pow2((-k) as nat));
        assert(b * d == (a * c) * s) by (nonlinear_arith)
            requires
                b == a * p,
                c == d * q,
                p == s * q,
        ;
    } else {
        lemma_pow2_adds((j + k) as nat, (-j) as nat);
        let (p, q) = (pow2((-j) as nat), pow2(k as nat));
        assert(b * d == (a * c) * s) by (nonlinear_arith)
            requires
                a == b * p,
                d == c * q,
                q == s * p,
        ;
    }
}

/// Products go along, where they neither overflow nor underflow.
pub proof fn lemma_scaled_times(a: Binary32, b: Binary32, c: Binary32, d: Binary32, j: int, k: int)
    requires
        scaled(a, b, j),
        scaled(c, d, k),
        times_clean(a, c),
        times_clean(b, d),
    ensures
        scaled(a.times(c), b.times(d), j + k),
    decreases
        if j + k >= 0 {
            0int
        } else {
            1int
        },
{
    reveal(scaled);
    reveal(ratio);
    reveal(times_clean);
    if j + k < 0 {
        lemma_scaled_back(a, b, j);
        lemma_scaled_back(c, d, k);
        lemma_scaled_times(b, a, d, c, -j, -k);
        lemma_scaled_back(b.times(d), a.times(c), -j - k);
    } else {
        reveal(Binary32::times);
        lemma_pow2_pos(149);
        let unit = pow2(149);
        let (p, q) = (size(a.value()) * size(c.value()), size(b.value()) * size(d.value()));
        let f = pow2((j + k) as nat);
        lemma_ratio_product(
            size(a.value()),
            size(b.value()),
            size(c.value()),
            size(d.value()),
            j,
            k,
        );
        let (m1, m2) = (round_magnitude(p, unit), round_magnitude(q, unit));
        let negative = a.negative() != c.negative();
        lemma_signed_size(negative, m1);
        lemma_signed_size(negative, m2);
        if p == 0 {
            assert(q == 0) by (nonlinear_arith)
                requires
                    q == p * f,
                    p == 0,
            ;
            assert(magnitude_value(0) == 0);
            lemma_round_at_most(0, unit, 0);
            assert(m1 == 0 && m2 == 0);
            assert(0 * f == 0);
        } else {
            assert(q * unit == (p * unit) * f) by (nonlinear_arith)
                requires
                    q == p * f,
            ;
            lemma_round_ratio(p, unit, q, unit, (j + k) as nat);
        }
    }
}

/// Quotients go along, where they neither overflow nor underflow.
pub proof fn lemma_scaled_over(a: Binary32, b: Binary32, c: Binary32, d: Binary32, j: int, k: int)
    requires
        scaled(a, b, j),
        scaled(c, d, k),
        over_clean(a, c),
        over_clean(b, d),
    ensures
        scaled(a.over(c), b.over(d), j - k),
    decreases
        if j - k >= 0 {
            0int
        } else {
            1int
        },
{
    reveal(scaled);
    reveal(ratio);
    reveal(over_clean);
    if j - k < 0 {
        lemma_scaled_back(a, b, j);
        lemma_scaled_back(c, d, k);
        lemma_scaled_over(b, a, d, c, -j, -k);
        lemma_scaled_back(b.over(d), a.over(c), k - j);
    } else {
        reveal(Binary32::over);
        lemma_pow2_pos(149);
        let unit = pow2(149);
        lemma_scaled_back(c, d, k);
        lemma_zero_size(c);
        lemma_zero_size(d);
        let f = pow2((j - k) as nat);
        let (sa, sb, sc, sd) = (
            size(a.value()),
            size(b.value()),
            size(c.value()),
            size(d.value()),
        );
        lemma_ratio_product(sa, sb, sd, sc, j, -k);
        assert(sb * sc == (sa * sd) * f);
        let (n1, n2) = (sa * unit, sb * unit);
        assert(n2 * sc == (n1 * sd) * f) by (nonlinear_arith)
            requires
                sb * sc == (sa * sd) * f,
                n1 == sa * unit,
                n2 == sb * unit,
        ;
        let (m1, m2) = (round_magnitude(n1, sc), round_magnitude(n2, sd));
        let negative = a.negative() != c.negative();
        lemma_signed_size(negative, m1);
        lemma_signed_size(negative, m2);
        if n1 == 0 {
            assert(n2 == 0) by (nonlinear_arith)
                requires
                    n2 * sc == (n1 * sd) * f,
                    n1 == 0,
                    sc > 0,
                    n2 >= 0,
            ;
            assert(magnitude_value(0) == 0);
            lemma_round_at_most(0, sc, 0);
            lemma_round_at_most(0, sd, 0);
            assert(0 * f == 0);
        } else {
            lemma_round_ratio(n1, sc, n2, sd, (j - k) as nat);
        }
    }
}

/// The integer root of a number of at least two to the 149th is large.
proof fn lemma_root_large(x: nat)
    requires
        x >= pow2(149),
    ensures
        floor_root(x) >= 0x400_0000,
{
    lemma2_to64();
    lemma_pow2_adds(26, 26);
    lemma_pow2_adds(52, 97);
    lemma_pow2_pos(97);
    lemma_floor_root(x);
    let r = floor_root(x);
    assert(r >= 0x400_0000) by (nonlinear_arith)
        requires
            x < (r + 1) * (r + 1),
            x >= pow2(149),
            pow2(149) == (0x400_0000 * 0x400_0000) * pow2(97),
            pow2(97) >= 1,
            r >= 0,
    ;
}

/// The rounded root of four times a large number is twice its rounded root.
proof fn lemma_round_root_doubled(x: nat)
    requires
        x >= pow2(149),
        round_root(4 * x) < 0x7f80_0000,
    ensures
        magnitude_value(round_root(4 * x)) == 2 * magnitude_value(round_root(x)),
{
    lemma2_to64();
    lemma_floor_root(x);
    lemma_floor_root(4 * x);
    lemma_root_large(x);
    let r = floor_root(x);
    let t = floor_root(4 * x);
    assert(t == 2 * r || t == 2 * r + 1) by (nonlinear_arith)
        requires
            r * r <= x < (r + 1) * (r + 1),
            t * t <= 4 * x < (t + 1) * (t + 1),
            r >= 0,
            t >= 0,
    ;
    if r * r == x {
        assert(t == 2 * r && t * t == 4 * x) by (nonlinear_arith)
            requires
                r * r == x,
                t * t <= 4 * x < (t + 1) * (t + 1),
                t == 2 * r || t == 2 * r + 1,
                r >= 0,
        ;
        assert(r * pow2(1) == 2 * r);
        lemma_round_int_shifted(r, 1);
    } else {
        assert(t * t != 4 * x) by {
            if t == 2 * r {
                assert(t * t == 4 * (r * r)) by (nonlinear_arith)
                    requires
                        t == 2 * r,
                ;
            } else {
                assert(t * t == 4 * (r * r + r) + 1) by (nonlinear_arith)
                    requires
                        t == 2 * r + 1,
                ;
            }
        }
        let n = 2 * r + 1;
        let j: nat = if r % 2 == 1 {
            r
        } else {
            r + 1
        };
        assert(scaled_num(1, 1) == 2 && scaled_den(1) == 1);
        lemma_round_inexact(2 * t + 1, 2, r, j, 1);
        lemma_round_inexact(2 * n, 2, r, j, 1);
        assert(n * pow2(1) == 2 * n);
        lemma_round_shifted(n, 2, 1);
    }
}

/// Roots go along: of a number and four times it, they are a factor of two apart.
pub proof fn lemma_scaled_root(a: Binary32, b: Binary32)
    requires
        scaled(a, b, 2),
        !a.negative(),
    ensures
        scaled(a.root(), b.root(), 1),
        !a.root().negative(),
{
    reveal(scaled);
    reveal(ratio);
    lemma2_to64();
    lemma_zero_size(a);
    lemma_zero_size(b);
    if a.magnitude() == 0 {
        reveal(Binary32::root);
        assert(size(b.value()) == 0 * pow2(2));
        assert(a.root() == a && b.root() == b);
        assert(size(b.value()) == size(a.value()) * pow2(1));
    } else {
        law_root_nearest(a);
        law_root_nearest(b);
        reveal(Binary32::root);
        let unit = pow2(149);
        lemma_pow2_pos(149);
        let x = size(a.value()) * unit;
        assert(size(b.value()) * unit == 4 * x) by (nonlinear_arith)
            requires
                size(b.value()) == size(a.value()) * 4,
                x == size(a.value()) * unit,
        ;
        assert(x >= unit) by (nonlinear_arith)
            requires
                x == size(a.value()) * unit,
                size(a.value()) >= 1,
        ;
        assert(round_root(4 * x) < 0x7f80_0000) by {
            assert(b.root() == signed(false, round_root(4 * x)));
            lemma_root_range(4 * x);
        }
        lemma_root_range(x);
        lemma_signed_size(false, round_root(x));
        lemma_signed_size(false, round_root(4 * x));
        lemma_round_root_doubled(x);
        assert(a.root() == signed(false, round_root(x)));
        assert(b.root() == signed(false, round_root(4 * x)));
        assert(size(b.root().value()) == size(a.root().value()) * pow2(1));
    }
}

/// A rounded root is a magnitude pattern.
proof fn lemma_root_range(x: nat)
    ensures
        round_root(x) <= 0x7f80_0000,
{
}

} // verus!
