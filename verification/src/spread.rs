//! How far displacements go.
use crate::binary32::{law_order_of_values, law_root_nearest, lit, size, Binary32};
use crate::rounding::{
    excess, lemma_magnitude_order, lemma_magnitude_parts, lemma_pattern_value, lemma_pow2_monotone,
    lemma_round_at_least, lemma_round_at_most, lemma_round_exact, lemma_round_relative,
    lemma_round_value, magnitude_value, nearest_even, round_magnitude,
};
use crate::sampling::{law_uniform_sample_range, offset_of, uniform_sample, HALF, ONE};
use crate::scaled::{lemma_signed_size, lemma_zero_size, over_clean, times_clean};
use vstd::arithmetic::power2::{
    lemma2_to64, lemma_pow2_adds, lemma_pow2_pos, lemma_pow2_unfold, pow2,
};
use vstd::prelude::*;

verus! {

/// A sample moved to be about zero.
pub open spec fn centred(raw: u32) -> Binary32 {
    uniform_sample(raw).minus(lit(HALF))
}

/// The length by which the direction of two centred samples is divided.
pub open spec fn direction_length(raw_x: u32, raw_y: u32) -> Binary32 {
    let (x, y) = (centred(raw_x), centred(raw_y));
    lit(0).plus(x.times(x)).plus(y.times(y)).root()
}

/// Whether `v` is within one part in two to the 24th of `n`.
pub open spec fn near(n: nat, v: nat) -> bool {
    0xff_ffff * n <= 0x100_0000 * v <= 0x100_0001 * n
}

/// A centred sample is zero, for the sample one half alone, or neither tiny nor above one half.
proof fn lemma_centred(raw: u32)
    ensures
        centred(raw).finite(),
        (centred(raw).magnitude() == 0) == (uniform_sample(raw) == lit(HALF)),
        centred(raw).magnitude() != 0 ==> pow2(119) <= size(centred(raw).value()) <= pow2(148),
{
    reveal(Binary32::plus);
    lemma2_to64();
    law_uniform_sample_range(raw);
    let s = uniform_sample(raw);
    let h = lit(HALF);
    let c = centred(raw);
    let unit = pow2(119);
    lemma_pow2_pos(119);
    // The sample as a multiple of the unit.
    let (m, e) = lemma_magnitude_parts(s.magnitude());
    assert(e >= 119);
    lemma_pow2_adds((e - 119) as nat, 119);
    let k = m * pow2((e - 119) as nat);
    assert(s.value() == k * unit) by (nonlinear_arith)
        requires
            s.value() == m * pow2(e),
            pow2(e) == pow2((e - 119) as nat) * unit,
            k == m * pow2((e - 119) as nat),
    ;
    lemma_pattern_value(125, 0x80_0000);
    lemma_pattern_value(126, 0x80_0000);
    lemma_pow2_adds(6, 119);
    lemma_pow2_adds(23, 125);
    lemma_pow2_adds(23, 126);
    lemma_pow2_unfold(149);
    assert(h.value() == pow2(148));
    assert(lit(ONE).value() == pow2(149));
    let half: int = 0x2000_0000;
    assert(h.value() == half * unit);
    law_order_of_values(s, lit(ONE));
    assert(0 <= s.value() < pow2(149));
    // The exact difference.
    let nh = h.negated();
    lemma_signed_size(true, HALF as nat);
    let d = s.value() + nh.value();
    let t = k - half;
    assert(d == t * unit) by (nonlinear_arith)
        requires
            d == k * unit - half * unit,
            t == k - half,
    ;
    assert(size(d) <= pow2(148));
    if d == 0 {
        lemma_signed_size(false, 0);
        lemma_magnitude_order(s.magnitude(), h.magnitude());
        lemma_magnitude_order(h.magnitude(), s.magnitude());
        assert(s.bits == HALF);
    } else {
        assert(size(d) >= unit) by (nonlinear_arith)
            requires
                d == t * unit,
                d != 0,
                unit > 0,
                size(d) == (if d < 0 { -d } else { d }),
        ;
        let r = round_magnitude(size(d), 1);
        lemma_pattern_value(96, 0x80_0000);
        lemma_pow2_adds(23, 96);
        lemma_round_at_least(size(d), 1, 0x3080_0000);
        lemma_round_at_most(size(d), 1, HALF as nat);
        lemma_signed_size(d < 0, r);
        lemma_magnitude_order(r, 0x3080_0000);
        lemma_magnitude_order(HALF as nat, r);
    }
}

/// A clean product is within one part in two to the 24th.
pub proof fn lemma_times_near(a: Binary32, b: Binary32)
    requires
        a.finite(),
        b.finite(),
        times_clean(a, b),
    ensures
        near(size(a.value()) * size(b.value()), size(a.times(b).value()) * pow2(149)),
{
    reveal(Binary32::times);
    reveal(times_clean);
    lemma_pow2_pos(149);
    let p = size(a.value()) * size(b.value());
    let r = round_magnitude(p, pow2(149));
    lemma_signed_size(a.negative() != b.negative(), r);
    if p == 0 {
        lemma_round_at_most(0, pow2(149), 0);
        assert(magnitude_value(0) == 0);
        assert(0 * pow2(149) == 0);
    } else {
        lemma_round_relative(p, pow2(149));
    }
}

/// A clean quotient is within one part in two to the 24th.
pub proof fn lemma_over_near(a: Binary32, b: Binary32)
    requires
        a.finite(),
        b.finite(),
        a.magnitude() != 0,
        over_clean(a, b),
    ensures
        a.over(b).finite(),
        near(size(a.value()) * pow2(149), size(a.over(b).value()) * size(b.value())),
{
    reveal(Binary32::over);
    reveal(over_clean);
    lemma_pow2_pos(149);
    lemma_zero_size(a);
    lemma_zero_size(b);
    let n = size(a.value()) * pow2(149);
    assert(n > 0) by (nonlinear_arith)
        requires
            n == size(a.value()) * pow2(149),
            size(a.value()) > 0,
            pow2(149) > 0,
    ;
    lemma_signed_size(a.negative() != b.negative(), round_magnitude(n, size(b.value())));
    lemma_round_relative(n, size(b.value()));
}

/// The square of a centred sample is clean, and at most one quarter.
proof fn lemma_square_clean(raw: u32)
    ensures
        times_clean(centred(raw), centred(raw)),
        centred(raw).times(centred(raw)).magnitude() <= 0x3e80_0000,
        !centred(raw).times(centred(raw)).negative(),
{
    reveal(Binary32::times);
    reveal(times_clean);
    lemma2_to64();
    lemma_centred(raw);
    let c = centred(raw);
    lemma_zero_size(c);
    let v = size(c.value());
    let p = v * v;
    lemma_pow2_pos(149);
    lemma_pattern_value(124, 0x80_0000);
    lemma_pow2_adds(23, 124);
    lemma_pow2_adds(147, 149);
    lemma_pow2_adds(148, 148);
    lemma_pow2_adds(119, 119);
    lemma_pow2_adds(23, 149);
    lemma_pow2_monotone(172, 238);
    if v == 0 {
        assert(p == 0) by (nonlinear_arith)
            requires
                p == v * v,
                v == 0,
        ;
        lemma_round_at_most(0, pow2(149), 0);
    } else {
        assert(pow2(238) <= p <= pow2(296)) by (nonlinear_arith)
            requires
                p == v * v,
                pow2(119) <= v <= pow2(148),
                pow2(238) == pow2(119) * pow2(119),
                pow2(296) == pow2(148) * pow2(148),
                pow2(119) >= 0,
        ;
        lemma_round_at_most(p, pow2(149), 0x3e80_0000);
    }
    lemma_signed_size(false, round_magnitude(p, pow2(149)));
}

/// A sum of numbers without sign is within one part in two to the 24th.
proof fn lemma_plus_near(a: Binary32, b: Binary32)
    requires
        a.magnitude() <= 0x3e80_0000,
        b.magnitude() <= 0x3e80_0000,
        !a.negative(),
        !b.negative(),
    ensures
        a.plus(b).finite(),
        !a.plus(b).negative(),
        near(size(a.value()) + size(b.value()), size(a.plus(b).value())),
{
    reveal(Binary32::plus);
    lemma2_to64();
    let n = size(a.value()) + size(b.value());
    lemma_magnitude_order(0x3e80_0000, a.magnitude());
    lemma_magnitude_order(0x3e80_0000, b.magnitude());
    lemma_pattern_value(124, 0x80_0000);
    lemma_pattern_value(125, 0x80_0000);
    lemma_pow2_unfold(125);
    assert(n <= magnitude_value(HALF as nat));
    lemma_round_at_most(n, 1, HALF as nat);
    lemma_signed_size(false, round_magnitude(n, 1));
    lemma_signed_size(false, 0);
    assert(magnitude_value(0) == 0);
    if n >= 0x80_0000 {
        lemma_round_relative(n, 1);
    } else if n > 0 {
        lemma_round_value(n, 1);
        assert(excess(n, 1) == 0);
        assert(1 * pow2(0) == 1);
        assert(nearest_even(n, 1) == n);
    }
}

/// Nothing is added to zero.
proof fn lemma_zero_plus(a: Binary32)
    requires
        a.finite(),
        !a.negative(),
    ensures
        lit(0).plus(a) == a,
{
    reveal(Binary32::plus);
    lemma_zero_size(a);
    assert(magnitude_value(0) == 0);
    lemma_round_exact(a.magnitude());
}

/// The square of a root is within about two parts in two to the 24th.
pub proof fn lemma_root_near(a: Binary32)
    requires
        a.finite(),
        !a.negative(),
        a.magnitude() != 0,
    ensures
        ({
            let w = size(a.value()) * pow2(149);
            let r = size(a.root().value());
            &&& a.root().finite()
            &&& 0xff_ffff * 0xff_ffff * (r * r) <= 0x100_0000 * 0x100_0000 * w
            &&& 0x100_0000 * 0x100_0000 * w <= 0x100_0001 * 0x100_0001 * (r * r)
        }),
{
    lemma2_to64();
    law_order_of_values(lit(0), a);
    lemma_zero_size(a);
    assert(magnitude_value(0) == 0);
    law_root_nearest(a);
    let b = a.root().magnitude();
    let (m, e) = lemma_magnitude_parts(b);
    let u = pow2(e);
    lemma_pow2_pos(e);
    assert(e > 0);
    lemma_pattern_value(e, m + 1);
    let v = magnitude_value(b);
    let up = magnitude_value(b + 1);
    let down = magnitude_value((b - 1) as nat);
    assert(up == v + u) by (nonlinear_arith)
        requires
            v == m * u,
            up == (m + 1) * u,
    ;
    assert(down <= v && v - down <= u) by {
        if m > 0x80_0000 {
            lemma_pattern_value(e, (m - 1) as nat);
            assert(down == v - u) by (nonlinear_arith)
                requires
                    v == m * u,
                    down == (m - 1) * u,
            ;
        } else {
            let h = pow2((e - 1) as nat);
            lemma_pow2_unfold(e);
            lemma_pattern_value((e - 1) as nat, 0xff_ffff);
            assert((e - 1) * 0x80_0000 + 0xff_ffff == b - 1);
            assert(v == 0x100_0000 * h);
        }
    }
    assert(0x80_0000 * u <= v) by (nonlinear_arith)
        requires
            v == m * u,
            m >= 0x80_0000,
    ;
    let low = down + v;
    let high = v + up;
    let w = size(a.value()) * pow2(149);
    assert(size(a.root().value()) == v);
    assert(0xff_ffff * (2 * v) <= 0x100_0000 * low);
    assert(0x100_0000 * high <= 0x100_0001 * (2 * v));
    assert(0xff_ffff * 0xff_ffff * (v * v) <= 0x100_0000 * 0x100_0000 * w) by (nonlinear_arith)
        requires
            0xff_ffff * (2 * v) <= 0x100_0000 * low,
            low * low <= 4 * w,
            v >= 0,
    ;
    assert(0x100_0000 * 0x100_0000 * w <= 0x100_0001 * 0x100_0001 * (v * v)) by (nonlinear_arith)
        requires
            0x100_0000 * high <= 0x100_0001 * (2 * v),
            4 * w <= high * high,
            high >= 0,
    ;
}

/// Squares of near numbers.
proof fn lemma_near_square(n: nat, v: nat)
    requires
        near(n, v),
    ensures
        0xff_ffff * 0xff_ffff * (n * n) <= 0x100_0000 * 0x100_0000 * (v * v),
        0x100_0000 * 0x100_0000 * (v * v) <= 0x100_0001 * 0x100_0001 * (n * n),
{
    assert(0xff_ffff * 0xff_ffff * (n * n) <= 0x100_0000 * 0x100_0000 * (v * v))
        by (nonlinear_arith)
        requires
            0xff_ffff * n <= 0x100_0000 * v,
    ;
    assert(0x100_0000 * 0x100_0000 * (v * v) <= 0x100_0001 * 0x100_0001 * (n * n))
        by (nonlinear_arith)
        requires
            0x100_0000 * v <= 0x100_0001 * n,
    ;
}

/// The bounds put together: `q` for the squared direction, `r2` for its squared length, `f2` for the
/// squared factor, `l` for the squared offset and `m2` for the squared distance.
proof fn lemma_compose(q: nat, w: nat, r2: nat, f2: nat, l: nat, m2: nat, v: nat)
    requires
        v > 0,
        0xff_ffff * 0xff_ffff * q <= 0x100_0000 * 0x100_0000 * w,
        0x100_0000 * 0x100_0000 * w <= 0x100_0001 * 0x100_0001 * q,
        0xff_ffff * 0xff_ffff * r2 <= 0x100_0000 * 0x100_0000 * w,
        0x100_0000 * 0x100_0000 * w <= 0x100_0001 * 0x100_0001 * r2,
        0xff_ffff * 0xff_ffff * (m2 * v) <= 0x100_0000 * 0x100_0000 * (f2 * r2),
        0x100_0000 * 0x100_0000 * (f2 * r2) <= 0x100_0001 * 0x100_0001 * (m2 * v),
        0xff_ffff * 0xff_ffff * (q * f2) <= 0x100_0000 * 0x100_0000 * (l * v),
        0x100_0000 * 0x100_0000 * (l * v) <= 0x100_0001 * 0x100_0001 * (q * f2),
    ensures
        0xf_ffff * m2 <= 0x10_0000 * l <= 0x10_0001 * m2,
{
    let a: nat = 0xff_ffff * 0xff_ffff;
    let b: nat = 0x100_0001 * 0x100_0001;
    let (qf, rf, mv, lv) = (q * f2, f2 * r2, m2 * v, l * v);
    assert(a * qf <= b * rf) by (nonlinear_arith)
        requires
            a * q <= b * r2,
            qf == q * f2,
            rf == f2 * r2,
            f2 >= 0,
    ;
    assert(a * rf <= b * qf) by (nonlinear_arith)
        requires
            a * r2 <= b * q,
            qf == q * f2,
            rf == f2 * r2,
            f2 >= 0,
    ;
    assert(0x10_0000 * lv <= 0x10_0001 * mv && 0xf_ffff * mv <= 0x10_0000 * lv)
        by (nonlinear_arith)
        requires
            0xffff_fe00_0001 * qf <= 0x1_0000_0200_0001 * rf,
            0xffff_fe00_0001 * rf <= 0x1_0000_0200_0001 * qf,
            0xffff_fe00_0001 * mv <= 0x1_0000_0000_0000 * rf <= 0x1_0000_0200_0001 * mv,
            0xffff_fe00_0001 * qf <= 0x1_0000_0000_0000 * lv <= 0x1_0000_0200_0001 * qf,
    ;
    assert(0x10_0000 * l <= 0x10_0001 * m2) by (nonlinear_arith)
        requires
            0x10_0000 * (l * v) <= 0x10_0001 * (m2 * v),
            v > 0,
    ;
    assert(0xf_ffff * m2 <= 0x10_0000 * l) by (nonlinear_arith)
        requires
            0xf_ffff * (m2 * v) <= 0x10_0000 * (l * v),
            v > 0,
    ;
}

/// The bounds of all operations put together, in terms of the operands.
proof fn lemma_assemble(
    sx: nat,
    sy: nat,
    w: nat,
    r: nat,
    f: nat,
    m: nat,
    lx: nat,
    ly: nat,
    unit: nat,
)
    requires
        unit > 0,
        0xff_ffff * 0xff_ffff * (sx * sx + sy * sy) <= 0x100_0000 * 0x100_0000 * w,
        0x100_0000 * 0x100_0000 * w <= 0x100_0001 * 0x100_0001 * (sx * sx + sy * sy),
        0xff_ffff * 0xff_ffff * (r * r) <= 0x100_0000 * 0x100_0000 * w,
        0x100_0000 * 0x100_0000 * w <= 0x100_0001 * 0x100_0001 * (r * r),
        near(m * unit, f * r),
        near(sx * f, lx * unit),
        near(sy * f, ly * unit),
    ensures
        0xf_ffff * (m * m) <= 0x10_0000 * (lx * lx + ly * ly) <= 0x10_0001 * (m * m),
{
    let q = sx * sx + sy * sy;
    lemma_near_square(m * unit, f * r);
    lemma_near_square(sx * f, lx * unit);
    lemma_near_square(sy * f, ly * unit);
    let v = unit * unit;
    let l = lx * lx + ly * ly;
    assert(v > 0) by (nonlinear_arith)
        requires
            v == unit * unit,
            unit > 0,
    ;
    assert((m * unit) * (m * unit) == (m * m) * v && (f * r) * (f * r) == (f * f) * (r * r))
        by (nonlinear_arith)
        requires
            v == unit * unit,
    ;
    assert((sx * f) * (sx * f) + (sy * f) * (sy * f) == q * (f * f)) by (nonlinear_arith)
        requires
            q == sx * sx + sy * sy,
    ;
    assert((lx * unit) * (lx * unit) + (ly * unit) * (ly * unit) == l * v) by (nonlinear_arith)
        requires
            v == unit * unit,
            l == lx * lx + ly * ly,
    ;
    lemma_compose(q, w, r * r, f * f, l, m * m, v);
}

/// An offset is as long as it should be: unless both samples are one half, and where nothing
/// overflows or underflows, its squared length differs from that of the displacement length by no
/// more than one part in two to the 20th, and so its length by about half of that.
pub proof fn law_offset_length(min_d: Binary32, raw_x: u32, raw_y: u32)
    requires
        min_d.finite(),
        lit(0).less(min_d),
        uniform_sample(raw_x) != lit(HALF) || uniform_sample(raw_y) != lit(HALF),
        over_clean(min_d, direction_length(raw_x, raw_y)),
        times_clean(centred(raw_x), min_d.over(direction_length(raw_x, raw_y))),
        times_clean(centred(raw_y), min_d.over(direction_length(raw_x, raw_y))),
    ensures
        ({
            let (ox, oy) = offset_of(min_d, raw_x, raw_y);
            let squared = ox.value() * ox.value() + oy.value() * oy.value();
            let wanted = min_d.value() * min_d.value();
            0xf_ffff * wanted <= 0x10_0000 * squared <= 0x10_0001 * wanted
        }),
{
    let (x, y) = (centred(raw_x), centred(raw_y));
    lemma_centred(raw_x);
    lemma_centred(raw_y);
    lemma_square_clean(raw_x);
    lemma_square_clean(raw_y);
    lemma_times_near(x, x);
    lemma_times_near(y, y);
    let (xx, yy) = (x.times(x), y.times(y));
    lemma_zero_plus(xx);
    lemma_plus_near(xx, yy);
    let sum = xx.plus(yy);
    let unit = pow2(149);
    lemma_pow2_pos(149);
    let (sx, sy) = (size(x.value()), size(y.value()));
    let (vx, vy) = (size(xx.value()), size(yy.value()));
    let s = size(sum.value());
    let q = sx * sx + sy * sy;
    let w = s * unit;
    lemma_sum_near(sx * sx, sy * sy, vx, vy, s, unit);
    lemma_zero_size(x);
    lemma_zero_size(y);
    lemma_zero_size(sum);
    assert(q > 0) by (nonlinear_arith)
        requires
            q == sx * sx + sy * sy,
            sx > 0 || sy > 0,
            sx >= 0,
            sy >= 0,
    ;
    assert(s > 0) by (nonlinear_arith)
        requires
            0xff_ffff * 0xff_ffff * q <= 0x100_0000 * 0x100_0000 * (s * unit),
            q > 0,
            s >= 0,
    ;
    lemma_root_near(sum);
    let length = sum.root();
    let r = size(length.value());
    let factor = min_d.over(length);
    lemma_over_near(min_d, length);
    lemma_times_near(x, factor);
    lemma_times_near(y, factor);
    let f = size(factor.value());
    let m = size(min_d.value());
    let (lx, ly) = (size(x.times(factor).value()), size(y.times(factor).value()));
    lemma_assemble(sx, sy, w, r, f, m, lx, ly, unit);
    lemma_square_of_size(x.times(factor).value());
    lemma_square_of_size(y.times(factor).value());
    lemma_square_of_size(min_d.value());
}

proof fn lemma_square_of_size(v: int)
    ensures
        v * v == size(v) * size(v),
{
    assert((-v) * (-v) == v * v) by (nonlinear_arith);
}

/// Two near terms and their near sum.
pub proof fn lemma_sum_near(a: nat, b: nat, va: nat, vb: nat, s: nat, unit: nat)
    requires
        near(a, va * unit),
        near(b, vb * unit),
        near(va + vb, s),
    ensures
        0xff_ffff * 0xff_ffff * (a + b) <= 0x100_0000 * 0x100_0000 * (s * unit),
        0x100_0000 * 0x100_0000 * (s * unit) <= 0x100_0001 * 0x100_0001 * (a + b),
{
    let c = va + vb;
    let (cu, su) = (c * unit, s * unit);
    assert(cu == va * unit + vb * unit) by (nonlinear_arith)
        requires
            cu == c * unit,
            c == va + vb,
    ;
    assert(0xff_ffff * cu <= 0x100_0000 * su) by (nonlinear_arith)
        requires
            0xff_ffff * c <= 0x100_0000 * s,
            cu == c * unit,
            su == s * unit,
            unit >= 0,
    ;
    assert(0x100_0000 * su <= 0x100_0001 * cu) by (nonlinear_arith)
        requires
            0x100_0000 * s <= 0x100_0001 * c,
            cu == c * unit,
            su == s * unit,
            unit >= 0,
    ;
    let (ua, ub) = (va * unit, vb * unit);
    assert(0xff_ffff * 0xff_ffff * (a + b) <= 0x100_0000 * 0x100_0000 * su && 0x100_0000
        * 0x100_0000 * su <= 0x100_0001 * 0x100_0001 * (a + b)) by (nonlinear_arith)
        requires
            0xff_ffff * a <= 0x100_0000 * ua <= 0x100_0001 * a,
            0xff_ffff * b <= 0x100_0000 * ub <= 0x100_0001 * b,
            cu == ua + ub,
            0xff_ffff * cu <= 0x100_0000 * su <= 0x100_0001 * cu,
    ;
}

} // verus!
