//! What a pair of nodes does, in exact terms: its distance, its force and its entries of the
//! Hessian.
//!
//! With the distance `d` and the ideal distance `s`, the stress of a pair is `((d - s) / s)^2`. Its
//! force is the derivative of the stress, and its entries of the Hessian are the second derivatives.
use crate::accuracy::{full, law_minus_rounded, law_plus_rounded, least, lemma_factors, rounded, unit};
use crate::binary32::{law_order_of_values, law_root_nearest, lit, size, Binary32};
use crate::doubling::pull_clean;
use crate::model::{dist2, force, pair_of, Axis};
use crate::rounding::{lemma_pattern_value, magnitude_value};
use crate::sampling::ONE;
use crate::scaled::{lemma_zero_size, times_clean};
use crate::spread::{lemma_over_near, lemma_root_near, lemma_sum_near, lemma_times_near, near};
use vstd::arithmetic::power::lemma_pow_adds;
use vstd::arithmetic::power2::{lemma2_to64, lemma_pow2_adds, lemma_pow2_pos, pow2};
use vstd::prelude::*;

verus! {

/// Whether two sizes are equal but for `k` roundings: each is at least the other times `k` factors
/// of one less one part in two to the 24th.
#[verifier::opaque]
pub open spec fn within(a: nat, b: nat, k: nat) -> bool {
    least(k) * a <= full(k) * b && least(k) * b <= full(k) * a
}

proof fn lemma_within_near(n: nat, v: nat)
    requires
        near(n, v),
    ensures
        within(n, v, 1),
        within(v, n, 1),
{
    reveal(within);
    lemma_factors(0);
}

/// Two roundings.
proof fn lemma_within_two(q: nat, w: nat)
    requires
        0xff_ffff * 0xff_ffff * q <= 0x100_0000 * 0x100_0000 * w,
        0x100_0000 * 0x100_0000 * w <= 0x100_0001 * 0x100_0001 * q,
    ensures
        within(q, w, 2),
{
    reveal(within);
    lemma_factors(0);
    lemma_factors(1);
    assert(0xffff_fe00_0001 * w <= 0x1_0000_0000_0000 * q) by (nonlinear_arith)
        requires
            0x100_0000 * 0x100_0000 * w <= 0x100_0001 * 0x100_0001 * q,
            q >= 0,
            w >= 0,
    ;
    assert(least(2) == 0xffff_fe00_0001 && full(2) == 0x1_0000_0000_0000);
}

/// Exchanging the two.
proof fn lemma_within_back(a: nat, b: nat, k: nat)
    requires
        within(a, b, k),
    ensures
        within(b, a, k),
{
    reveal(within);
}

proof fn lemma_within_times(a: nat, b: nat, k: nat, c: nat)
    requires
        within(a, b, k),
    ensures
        within(a * c, b * c, k),
{
    reveal(within);
    let (l, f) = (least(k), full(k));
    assert(l * (a * c) <= f * (b * c) && l * (b * c) <= f * (a * c)) by (nonlinear_arith)
        requires
            l * a <= f * b,
            l * b <= f * a,
            c >= 0,
    ;
}

proof fn lemma_within_over(a: nat, b: nat, k: nat, c: nat)
    requires
        within(a * c, b * c, k),
        c > 0,
    ensures
        within(a, b, k),
{
    reveal(within);
    let (l, f) = (least(k), full(k));
    assert(l * a <= f * b && l * b <= f * a) by (nonlinear_arith)
        requires
            l * (a * c) <= f * (b * c),
            l * (b * c) <= f * (a * c),
            c > 0,
    ;
}

proof fn lemma_within_then(a: nat, b: nat, k: nat, c: nat, m: nat)
    requires
        within(a, b, k),
        within(b, c, m),
    ensures
        within(a, c, k + m),
{
    reveal(within);
    lemma_pow_adds(0xff_ffff, k, m);
    lemma_pow_adds(0x100_0000, k, m);
    lemma_factors(k);
    lemma_factors(m);
    let (l, f, p, q) = (least(k), full(k), least(m), full(m));
    lemma_chain(l, a as int, f, b as int, p, q, c as int);
    lemma_chain(p, c as int, q, b as int, l, f, a as int);
    assert(p * l == l * p && q * f == f * q) by (nonlinear_arith);
}

proof fn lemma_chain(l: int, a: int, f: int, b: int, p: int, q: int, c: int)
    requires
        l * a <= f * b,
        p * b <= q * c,
        f > 0,
        p > 0,
    ensures
        (l * p) * a <= (f * q) * c,
{
    assert((l * p) * a == p * (l * a)) by (nonlinear_arith);
    assert(p * (l * a) <= p * (f * b)) by (nonlinear_arith)
        requires
            l * a <= f * b,
            p > 0,
    ;
    assert(p * (f * b) == f * (p * b)) by (nonlinear_arith);
    assert(f * (p * b) <= f * (q * c)) by (nonlinear_arith)
        requires
            p * b <= q * c,
            f > 0,
    ;
    assert(f * (q * c) == (f * q) * c) by (nonlinear_arith);
}

/// Replacing one factor by one that it is close to.
proof fn lemma_within_swap(a: nat, rest: nat, x: nat, y: nat, k: nat, m: nat)
    requires
        within(a, x * rest, k) || within(x * rest, a, k),
        within(x, y, m) || within(y, x, m),
    ensures
        within(a, y * rest, k + m),
{
    if !within(a, x * rest, k) {
        lemma_within_back(x * rest, a, k);
    }
    if !within(x, y, m) {
        lemma_within_back(y, x, m);
    }
    lemma_within_times(x, y, m, rest);
    lemma_within_then(a, x * rest, k, y * rest, m);
}

/// The exact distance of two nodes, from the rounded differences of their coordinates.
pub open spec fn exact_square(dx: Binary32, dy: Binary32) -> nat {
    size(dx.value()) * size(dx.value()) + size(dy.value()) * size(dy.value())
}

/// Whether the squared length of a difference is computed without overflow and underflow.
pub open spec fn length_ordinary(dx: Binary32, dy: Binary32) -> bool {
    &&& dx.finite() && dy.finite()
    &&& times_clean(dx, dx) && times_clean(dy, dy)
    &&& dx.times(dx).plus(dy.times(dy)).finite()
}

proof fn lemma_square_sign(a: Binary32, b: Binary32)
    requires
        a.finite(),
        b.finite(),
        times_clean(a, b),
    ensures
        a.times(b).finite(),
        a.times(b).negative() == (a.negative() != b.negative()),
        (size(a.times(b).value()) == 0) == (size(a.value()) == 0 || size(b.value()) == 0),
{
    reveal(Binary32::times);
    reveal(times_clean);
    lemma_pow2_pos(149);
    lemma_times_near(a, b);
    let p = size(a.value()) * size(b.value());
    let v = size(a.times(b).value());
    assert((p == 0) == (size(a.value()) == 0 || size(b.value()) == 0)) by (nonlinear_arith)
        requires
            p == size(a.value()) * size(b.value()),
    ;
    assert((p == 0) == (v == 0)) by (nonlinear_arith)
        requires
            0xff_ffff * p <= 0x100_0000 * (v * pow2(149)),
            0x100_0000 * (v * pow2(149)) <= 0x100_0001 * p,
            pow2(149) > 0,
            p >= 0,
            v >= 0,
    ;
}

/// A clean product, its sign and its size.
proof fn lemma_product(a: Binary32, b: Binary32)
    requires
        a.finite(),
        b.finite(),
        times_clean(a, b),
    ensures
        a.times(b).finite(),
        a.times(b).negative() == (a.negative() != b.negative()),
        (size(a.times(b).value()) == 0) == (size(a.value()) == 0 || size(b.value()) == 0),
        within(size(a.value()) * size(b.value()), size(a.times(b).value()) * unit(), 1),
{
    lemma_square_sign(a, b);
    lemma_times_near(a, b);
    lemma_within_near(size(a.value()) * size(b.value()), size(a.times(b).value()) * unit());
}

proof fn lemma_length(dx: Binary32, dy: Binary32)
    requires
        length_ordinary(dx, dy),
    ensures
        ({
            let d2 = dx.times(dx).plus(dy.times(dy));
            &&& !d2.negative()
            &&& within(exact_square(dx, dy), size(d2.value()) * unit(), 2)
            &&& (d2.magnitude() == 0) == (exact_square(dx, dy) == 0)
            &&& d2.magnitude() != 0 ==> {
                &&& d2.root().finite() && !d2.root().negative() && d2.root().value() > 0
                &&& within(
                    size(d2.root().value()) * size(d2.root().value()),
                    exact_square(dx, dy),
                    4,
                )
            }
        }),
{
    lemma2_to64();
    let (xx, yy) = (dx.times(dx), dy.times(dy));
    let d2 = xx.plus(yy);
    lemma_square_sign(dx, dx);
    lemma_square_sign(dy, dy);
    lemma_times_near(dx, dx);
    lemma_times_near(dy, dy);
    law_plus_rounded(xx, yy);
    assert(!d2.negative()) by {
        reveal(Binary32::plus);
    }
    let (a, b) = (size(dx.value()) * size(dx.value()), size(dy.value()) * size(dy.value()));
    let (va, vb) = (size(xx.value()), size(yy.value()));
    let s = size(d2.value());
    assert(near(va + vb, s));
    let u = unit();
    lemma_pow2_pos(149);
    lemma_sum_near(a, b, va, vb, s, u);
    let w = s * u;
    let q = exact_square(dx, dy);
    lemma_within_two(q, w);
    lemma_zero_size(d2);
    assert((q == 0) == (s == 0)) by (nonlinear_arith)
        requires
            0xff_ffff * 0xff_ffff * q <= 0x100_0000 * 0x100_0000 * (s * u),
            0x100_0000 * 0x100_0000 * (s * u) <= 0x100_0001 * 0x100_0001 * q,
            u > 0,
            q >= 0,
            s >= 0,
    ;
    if d2.magnitude() != 0 {
        lemma_root_near(d2);
        let r = size(d2.root().value());
        law_order_of_values(lit(0), d2);
        assert(magnitude_value(0) == 0);
        law_root_nearest(d2);
        lemma_zero_size(d2.root());
        let r2 = r * r;
        lemma_within_two(r2, w);
        lemma_within_back(q, w, 2);
        lemma_within_then(r2, w, 2, q, 2);
    }
}

/// The squared distance of two nodes is the sum of the squares of their coordinate differences, but
/// for two roundings, and its root is the distance but for two more.
pub proof fn law_distance(n: nat, x: Seq<Binary32>, u: int, v: int)
    requires
        length_ordinary(x[u].minus(x[v]), x[n + u].minus(x[n + v])),
    ensures
        ({
            let q = exact_square(x[u].minus(x[v]), x[n + u].minus(x[n + v]));
            let d2 = dist2(n, x, u, v);
            let d = size(d2.root().value());
            &&& d2.finite()
            &&& d2.value() >= 0
            &&& within(q, size(d2.value()) * unit(), 2)
            &&& (d2.value() == 0) == (q == 0)
            &&& q > 0 ==> within(d * d, q, 4)
        }),
        x[u].minus(x[v]).finite() ==> rounded(
            x[u].minus(x[v]).value(),
            x[u].value() - x[v].value(),
        ),
        x[n + u].minus(x[n + v]).finite() ==> rounded(
            x[n + u].minus(x[n + v]).value(),
            x[n + u].value() - x[n + v].value(),
        ),
{
    lemma_length(x[u].minus(x[v]), x[n + u].minus(x[n + v]));
    law_minus_rounded(x[u], x[v]);
    law_minus_rounded(x[n + u], x[n + v]);
    lemma_zero_size(dist2(n, x, u, v));
}

/// The exact values of the constants.
proof fn lemma_constants()
    ensures
        size(lit(ONE).value()) == unit(),
        size(lit(0x4000_0000).value()) == 2 * unit(),
        size(lit(0x4080_0000).value()) == 4 * unit(),
        unit() > 0,
{
    lemma2_to64();
    lemma_pattern_value(126, 0x80_0000);
    lemma_pattern_value(127, 0x80_0000);
    lemma_pattern_value(128, 0x80_0000);
    lemma_pow2_adds(23, 126);
    lemma_pow2_adds(126, 1);
    lemma_pow2_adds(126, 2);
    lemma_pow2_pos(149);
}

/// Whether the factor of the coordinate differences of a pair is computed without overflow and
/// underflow, and so is the product of the factor with a difference.
pub open spec fn force_ordinary(dx: Binary32, dy: Binary32, c: Binary32, s: Binary32) -> bool {
    let d2 = dx.times(dx).plus(dy.times(dy));
    let t = lit(0x4000_0000).times(d2.root().minus(s));
    let factor = t.times(lit(ONE).over(s.times(s))).times(lit(ONE).over(d2.root()));
    &&& length_ordinary(dx, dy)
    &&& d2.value() > 0
    &&& s.finite() && s.value() > 0
    &&& pull_clean(d2, s)
    &&& times_clean(c, factor)
}

proof fn lemma_force_chain(
    f: nat,
    c: nat,
    gs: nat,
    t2: nat,
    r: nat,
    t: nat,
    rid2: nat,
    s2: nat,
    s: nat,
    d: nat,
    diff: nat,
    u: nat,
)
    requires
        u > 0,
        within(c * gs, f * u, 1),
        within(t2 * r, gs * u, 1),
        within(t * rid2, t2 * u, 1),
        within((2 * u) * diff, t * u, 1),
        within(u * u, rid2 * s2, 1),
        within(u * u, r * d, 1),
        within(s * s, s2 * u, 1),
    ensures
        within(f * (s * s) * d, 2 * c * diff * (u * u), 7),
{
    // f u u ~ c t2 r
    lemma_within_times(c * gs, f * u, 1, u);
    assert((f * u) * u == f * (u * u)) by (nonlinear_arith);
    assert((c * gs) * u == (gs * u) * c) by (nonlinear_arith);
    lemma_within_back((c * gs) * u, (f * u) * u, 1);
    lemma_within_swap(f * (u * u), c, gs * u, t2 * r, 1, 1);
    // f u u u ~ c t rid2 r
    lemma_within_times(f * (u * u), (t2 * r) * c, 2, u);
    assert((f * (u * u)) * u == f * (u * u * u)) by (nonlinear_arith);
    assert(((t2 * r) * c) * u == (t2 * u) * (r * c)) by (nonlinear_arith);
    lemma_within_swap(f * (u * u * u), r * c, t2 * u, t * rid2, 2, 1);
    // times s2 d
    lemma_within_times(f * (u * u * u), (t * rid2) * (r * c), 3, s2 * d);
    let a = (f * (u * u * u)) * (s2 * d);
    assert(((t * rid2) * (r * c)) * (s2 * d) == (rid2 * s2) * (t * c * (r * d))) by (nonlinear_arith);
    lemma_within_swap(a, t * c * (r * d), rid2 * s2, u * u, 3, 1);
    assert((u * u) * (t * c * (r * d)) == (r * d) * (t * c * (u * u))) by (nonlinear_arith);
    lemma_within_swap(a, t * c * (u * u), r * d, u * u, 4, 1);
    // without u u u
    let cube = u * u * u;
    assert(cube > 0) by (nonlinear_arith)
        requires
            cube == u * u * u,
            u > 0,
    ;
    assert(a == (f * s2 * d) * cube) by (nonlinear_arith)
        requires
            a == (f * (u * u * u)) * (s2 * d),
            cube == u * u * u,
    ;
    assert((u * u) * (t * c * (u * u)) == ((t * u) * c) * cube) by (nonlinear_arith)
        requires
            cube == u * u * u,
    ;
    lemma_within_over(f * s2 * d, (t * u) * c, 5, cube);
    lemma_within_swap(f * s2 * d, c, t * u, (2 * u) * diff, 5, 1);
    // times u
    lemma_within_times(f * s2 * d, ((2 * u) * diff) * c, 6, u);
    assert((((2 * u) * diff) * c) * u == 2 * c * diff * (u * u)) by (nonlinear_arith);
    assert((f * s2 * d) * u == (s2 * u) * (f * d)) by (nonlinear_arith);
    lemma_within_back((s2 * u) * (f * d), 2 * c * diff * (u * u), 6);
    lemma_within_swap(2 * c * diff * (u * u), f * d, s2 * u, s * s, 6, 1);
    assert((s * s) * (f * d) == f * (s * s) * d) by (nonlinear_arith);
    lemma_within_back(2 * c * diff * (u * u), f * (s * s) * d, 7);
}

/// The reciprocals that forces and Hessian entries share.
proof fn lemma_reciprocals(d2: Binary32, s: Binary32)
    requires
        d2.finite(),
        d2.value() > 0,
        !d2.negative(),
        d2.root().finite(),
        d2.root().value() > 0,
        s.finite(),
        s.value() > 0,
        pull_clean(d2, s),
    ensures
        ({
            let s2 = s.times(s);
            let rid2 = lit(ONE).over(s2);
            let r = lit(ONE).over(d2.root());
            let u = unit();
            &&& s2.finite() && rid2.finite() && r.finite()
            &&& !rid2.negative() && !r.negative()
            &&& within(size(s.value()) * size(s.value()), size(s2.value()) * u, 1)
            &&& within(u * u, size(rid2.value()) * size(s2.value()), 1)
            &&& within(u * u, size(r.value()) * size(d2.root().value()), 1)
        }),
{
    reveal(pull_clean);
    lemma_constants();
    lemma_zero_size(lit(ONE));
    lemma_square_sign(s, s);
    let s2 = s.times(s);
    lemma_times_near(s, s);
    lemma_over_near(lit(ONE), s2);
    lemma_over_near(lit(ONE), d2.root());
    lemma_within_near(size(s.value()) * size(s.value()), size(s2.value()) * unit());
    let rid2 = lit(ONE).over(s2);
    let r = lit(ONE).over(d2.root());
    lemma_within_near(unit() * unit(), size(rid2.value()) * size(s2.value()));
    lemma_within_near(unit() * unit(), size(r.value()) * size(d2.root().value()));
    assert(!rid2.negative() && !r.negative()) by {
        reveal(Binary32::over);
    }
}

/// The factor of the differences, and its product with one of them.
proof fn lemma_force(dx: Binary32, dy: Binary32, c: Binary32, s: Binary32)
    requires
        force_ordinary(dx, dy, c, s),
        c.finite(),
    ensures
        ({
            let d = dx.times(dx).plus(dy.times(dy)).root();
            let diff = d.minus(s);
            let t = lit(0x4000_0000).times(diff);
            let factor = t.times(lit(ONE).over(s.times(s))).times(lit(ONE).over(d));
            let f = c.times(factor);
            let (sf, sc, ss, sd, sg) = (
                size(f.value()),
                size(c.value()),
                size(s.value()),
                size(d.value()),
                size(diff.value()),
            );
            &&& f.finite() && diff.finite()
            &&& within(sf * (ss * ss) * sd, 2 * sc * sg * (unit() * unit()), 7)
            &&& (f.value() > 0) == (c.value() * diff.value() > 0)
            &&& (f.value() < 0) == (c.value() * diff.value() < 0)
        }),
{
    let d2 = dx.times(dx).plus(dy.times(dy));
    let d = d2.root();
    lemma_length(dx, dy);
    lemma_zero_size(d2);
    assert(magnitude_value(0) == 0);
    lemma_reciprocals(d2, s);
    lemma_constants();
    reveal(pull_clean);
    let u = unit();
    let two = lit(0x4000_0000);
    let diff = d.minus(s);
    let t = two.times(diff);
    let s2 = s.times(s);
    let rid2 = lit(ONE).over(s2);
    let r = lit(ONE).over(d);
    let t2 = t.times(rid2);
    let gs = t2.times(r);
    let f = c.times(gs);
    lemma_product(two, diff);
    lemma_product(t, rid2);
    lemma_product(t2, r);
    lemma_product(c, gs);
    lemma_force_chain(
        size(f.value()),
        size(c.value()),
        size(gs.value()),
        size(t2.value()),
        size(r.value()),
        size(t.value()),
        size(rid2.value()),
        size(s2.value()),
        size(s.value()),
        size(d.value()),
        size(diff.value()),
        u,
    );
    lemma_reciprocal_positive(size(rid2.value()), size(s2.value()), u);
    lemma_reciprocal_positive(size(r.value()), size(d.value()), u);
    lemma_product_sign(c.value(), diff.value());
    assert((size(f.value()) == 0) == (c.value() == 0 || diff.value() == 0));
    lemma_sign_of(f);
    lemma_sign_of(c);
    lemma_sign_of(diff);
}

proof fn lemma_reciprocal_positive(a: nat, b: nat, u: nat)
    requires
        within(u * u, a * b, 1),
        u > 0,
    ensures
        a > 0,
{
    reveal(within);
    lemma_factors(0);
    assert(a > 0) by (nonlinear_arith)
        requires
            0xff_ffff * (u * u) <= 0x100_0000 * (a * b),
            u > 0,
            a >= 0,
    ;
}

proof fn lemma_product_sign(a: int, b: int)
    ensures
        (a * b > 0) == ((a > 0 && b > 0) || (a < 0 && b < 0)),
        (a * b < 0) == ((a > 0 && b < 0) || (a < 0 && b > 0)),
{
    assert(a > 0 && b > 0 ==> a * b > 0) by (nonlinear_arith);
    assert(a < 0 && b < 0 ==> a * b > 0) by (nonlinear_arith);
    assert(a > 0 && b < 0 ==> a * b < 0) by (nonlinear_arith);
    assert(a < 0 && b > 0 ==> a * b < 0) by (nonlinear_arith);
    assert(a == 0 || b == 0 ==> a * b == 0) by (nonlinear_arith);
}

proof fn lemma_sign_of(a: Binary32)
    ensures
        a.value() > 0 ==> !a.negative(),
        a.value() < 0 ==> a.negative(),
        size(a.value()) == 0 || a.negative() == (a.value() < 0),
{
}

/// Whether a number is the force of a pair, in exact terms: `2 (d - s) / (s^2 d)` times the
/// coordinate difference `c`, but for its roundings, and of the sign of `(d - s) c`.
pub open spec fn is_force(f: Binary32, d: Binary32, s: Binary32, c: Binary32) -> bool {
    exists|diff: int| #[trigger] force_with(f, d, s, c, diff)
}

/// The force with the rounded difference of distance and ideal distance.
pub open spec fn force_with(f: Binary32, d: Binary32, s: Binary32, c: Binary32, diff: int) -> bool {
    let (sf, sc, ss, sd) = (
        size(f.value()),
        size(c.value()),
        size(s.value()),
        size(d.value()),
    );
    &&& rounded(diff, d.value() - s.value())
    &&& f.finite()
    &&& within(sf * (ss * ss) * sd, 2 * sc * size(diff) * (unit() * unit()), 7)
    &&& (f.value() > 0) == (c.value() * diff > 0)
    &&& (f.value() < 0) == (c.value() * diff < 0)
}

/// The force of a pair on its first node is the derivative of the stress, `2 (d - s) / (s^2 d)`
/// times the coordinate difference, but for seven roundings: it has the sign of the coordinate
/// difference where the nodes are further apart than their ideal distance, the opposite one where
/// they are closer, and none where they are at it or level along the axis. This holds for any number
/// of nodes, wherever nothing overflows or underflows.
pub proof fn law_force(n: nat, x: Seq<Binary32>, u: int, v: int, s: Binary32, axis: Axis)
    requires
        ({
            let dx = x[u].minus(x[v]);
            let dy = x[n + u].minus(x[n + v]);
            force_ordinary(
                dx,
                dy,
                match axis {
                    Axis::X => dx,
                    Axis::Y => dy,
                },
                s,
            )
        }),
    ensures
        ({
            let dx = x[u].minus(x[v]);
            let dy = x[n + u].minus(x[n + v]);
            let c = match axis {
                Axis::X => dx,
                Axis::Y => dy,
            };
            let d = dx.times(dx).plus(dy.times(dy)).root();
            is_force(force(n, x, u, v, s, axis), d, s, c)
        }),
{
    let dx = x[u].minus(x[v]);
    let dy = x[n + u].minus(x[n + v]);
    let c = match axis {
        Axis::X => dx,
        Axis::Y => dy,
    };
    lemma_force(dx, dy, c, s);
    let d = dx.times(dx).plus(dy.times(dy)).root();
    law_minus_rounded(d, s);
    assert(force_with(force(n, x, u, v, s, axis), d, s, c, d.minus(s).value()));
}

/// A pair is a matter of its own: its squared distance, its forces and its entries of the Hessian
/// depend on the coordinates of the two nodes and on their ideal distance alone, whatever the number
/// of nodes and wherever the two stand among them.
pub proof fn law_pair_alone(
    n: nat,
    x: Seq<Binary32>,
    u: int,
    v: int,
    m: nat,
    y: Seq<Binary32>,
    a: int,
    b: int,
    s: Binary32,
)
    requires
        x[u] == y[a],
        x[v] == y[b],
        x[n + u] == y[m + a],
        x[n + v] == y[m + b],
    ensures
        dist2(n, x, u, v) == dist2(m, y, a, b),
        force(n, x, u, v, s, Axis::X) == force(m, y, a, b, s, Axis::X),
        force(n, x, u, v, s, Axis::Y) == force(m, y, a, b, s, Axis::Y),
        pair_of(n, x, u, v, s).idk_x == pair_of(m, y, a, b, s).idk_x,
        pair_of(n, x, u, v, s).idk_y == pair_of(m, y, a, b, s).idk_y,
        0 <= u < 0x1_0000 && 0 <= v < 0x1_0000 ==> pair_of(n, x, u, v, s).u == u && pair_of(
            n,
            x,
            u,
            v,
            s,
        ).v == v,
{
}

/// Whether an entry of the Hessian is computed without overflow and underflow; `a` is the coordinate
/// difference across the axis.
pub open spec fn entry_ordinary(dx: Binary32, dy: Binary32, a: Binary32, s: Binary32) -> bool {
    let d2 = dx.times(dx).plus(dy.times(dy));
    let rid2 = lit(ONE).over(s.times(s));
    let r = lit(ONE).over(d2.root());
    let r3 = r.times(r).times(r);
    let p = lit(0x4000_0000).times(rid2);
    let c = p.times(s).times(r3);
    let four = lit(0x4080_0000).times(rid2);
    &&& length_ordinary(dx, dy)
    &&& d2.value() > 0
    &&& s.finite() && s.value() > 0
    &&& pull_clean(d2, s)
    &&& times_clean(r, r) && times_clean(r.times(r), r)
    &&& times_clean(lit(0x4000_0000), rid2) && times_clean(p, s) && times_clean(p.times(s), r3)
    &&& times_clean(c, a) && times_clean(c.times(a), a)
    &&& times_clean(lit(0x4080_0000), rid2)
    &&& c.times(a).times(a).minus(four).finite()
}

proof fn lemma_bend_chain(
    bend: nat,
    ca: nat,
    c: nat,
    q: nat,
    p: nat,
    r3: nat,
    rr: nat,
    r: nat,
    rid2: nat,
    s2: nat,
    s: nat,
    a: nat,
    d: nat,
    u: nat,
)
    requires
        u > 0,
        s > 0,
        within(ca * a, bend * u, 1),
        within(c * a, ca * u, 1),
        within(q * r3, c * u, 1),
        within(p * s, q * u, 1),
        within((2 * u) * rid2, p * u, 1),
        within(rr * r, r3 * u, 1),
        within(r * r, rr * u, 1),
        within(u * u, rid2 * s2, 1),
        within(u * u, r * d, 1),
        within(s * s, s2 * u, 1),
    ensures
        within(bend * s * (d * d * d), 2 * (a * a) * (u * u * u), 12),
{
    // bend u^2 ~ c a a
    let b1 = bend * u;
    lemma_within_times(ca * a, b1, 1, u);
    assert((ca * a) * u == (ca * u) * a) by (nonlinear_arith);
    let b2 = b1 * u;
    lemma_within_swap(b2, a, ca * u, c * a, 1, 1);
    // bend u^3 ~ q r3 a a
    lemma_within_times(b2, (c * a) * a, 2, u);
    let b3 = b2 * u;
    assert(((c * a) * a) * u == (c * u) * (a * a)) by (nonlinear_arith);
    lemma_within_swap(b3, a * a, c * u, q * r3, 2, 1);
    // bend u^4 ~ p s r3 a a
    lemma_within_times(b3, (q * r3) * (a * a), 3, u);
    let b4 = b3 * u;
    assert(((q * r3) * (a * a)) * u == (q * u) * (r3 * (a * a))) by (nonlinear_arith);
    lemma_within_swap(b4, r3 * (a * a), q * u, p * s, 3, 1);
    // bend u^5 ~ 2 u rid2 s r3 a a
    lemma_within_times(b4, (p * s) * (r3 * (a * a)), 4, u);
    let b5 = b4 * u;
    assert(((p * s) * (r3 * (a * a))) * u == (p * u) * (s * (r3 * (a * a)))) by (nonlinear_arith);
    lemma_within_swap(b5, s * (r3 * (a * a)), p * u, (2 * u) * rid2, 4, 1);
    // bend u^6 ~ ... rr r
    lemma_within_times(b5, ((2 * u) * rid2) * (s * (r3 * (a * a))), 5, u);
    let b6 = b5 * u;
    let k = ((2 * u) * rid2) * (s * (a * a));
    assert((((2 * u) * rid2) * (s * (r3 * (a * a)))) * u == (r3 * u) * k) by (nonlinear_arith)
        requires
            k == ((2 * u) * rid2) * (s * (a * a)),
    ;
    lemma_within_swap(b6, k, r3 * u, rr * r, 5, 1);
    lemma_within_times(b6, (rr * r) * k, 6, u);
    let b7 = b6 * u;
    assert(((rr * r) * k) * u == (rr * u) * (r * k)) by (nonlinear_arith);
    lemma_within_swap(b7, r * k, rr * u, r * r, 6, 1);
    // times s2 d d d
    let d3 = d * d * d;
    lemma_within_times(b7, (r * r) * (r * k), 7, s2 * d3);
    let w = b7 * (s2 * d3);
    let j = (2 * u) * (s * (a * a));
    let rd = r * d;
    let r_cube = r * r * r;
    let rd_cube = rd * rd * rd;
    assert(k == rid2 * j) by (nonlinear_arith)
        requires
            k == ((2 * u) * rid2) * (s * (a * a)),
            j == (2 * u) * (s * (a * a)),
    ;
    assert((r * r) * (r * k) == r_cube * (rid2 * j)) by (nonlinear_arith)
        requires
            r_cube == r * r * r,
            k == rid2 * j,
    ;
    assert(r_cube * d3 == rd_cube) by (nonlinear_arith)
        requires
            r_cube == r * r * r,
            d3 == d * d * d,
            rd == r * d,
            rd_cube == rd * rd * rd,
    ;
    assert((r_cube * (rid2 * j)) * (s2 * d3) == (rid2 * s2) * ((r_cube * d3) * j))
        by (nonlinear_arith);
    let uu = u * u;
    lemma_within_swap(w, rd * rd * rd * j, rid2 * s2, uu, 7, 1);
    assert(uu * (rd * rd * rd * j) == rd * (rd * rd * j * uu)) by (nonlinear_arith);
    lemma_within_swap(w, rd * rd * j * uu, rd, uu, 8, 1);
    assert(uu * (rd * rd * j * uu) == rd * (rd * j * uu * uu)) by (nonlinear_arith);
    lemma_within_swap(w, rd * j * uu * uu, rd, uu, 9, 1);
    assert(uu * (rd * j * uu * uu) == rd * (j * uu * uu * uu)) by (nonlinear_arith);
    lemma_within_swap(w, j * uu * uu * uu, rd, uu, 10, 1);
    // without u^7
    let u7 = uu * uu * uu * u;
    assert(u7 > 0) by (nonlinear_arith)
        requires
            u7 == uu * uu * uu * u,
            uu == u * u,
            u > 0,
    ;
    assert(b7 == bend * u7) by (nonlinear_arith)
        requires
            b1 == bend * u,
            b2 == b1 * u,
            b3 == b2 * u,
            b4 == b3 * u,
            b5 == b4 * u,
            b6 == b5 * u,
            b7 == b6 * u,
            uu == u * u,
            u7 == uu * uu * uu * u,
    ;
    assert(w == (bend * s2 * d3) * u7) by (nonlinear_arith)
        requires
            w == b7 * (s2 * d3),
            b7 == bend * u7,
    ;
    let goal = 2 * (s * (a * a)) * uu;
    assert(uu * (j * uu * uu * uu) == goal * u7) by (nonlinear_arith)
        requires
            j == (2 * u) * (s * (a * a)),
            goal == 2 * (s * (a * a)) * uu,
            u7 == uu * uu * uu * u,
    ;
    lemma_within_over(bend * s2 * d3, goal, 11, u7);
    // times u
    lemma_within_times(bend * s2 * d3, goal, 11, u);
    assert((bend * s2 * d3) * u == (s2 * u) * (bend * d3)) by (nonlinear_arith);
    lemma_within_back((s2 * u) * (bend * d3), goal * u, 11);
    lemma_within_swap(goal * u, bend * d3, s2 * u, s * s, 11, 1);
    assert((s * s) * (bend * d3) == (bend * s * d3) * s) by (nonlinear_arith);
    let end = 2 * (a * a) * (u * u * u);
    assert(goal * u == end * s) by (nonlinear_arith)
        requires
            goal == 2 * (s * (a * a)) * uu,
            uu == u * u,
            end == 2 * (a * a) * (u * u * u),
    ;
    lemma_within_over(end, bend * s * d3, 12, s);
    lemma_within_back(end, bend * s * d3, 12);
}

/// Whether a number is an entry of the Hessian of a pair, in exact terms: `2 a^2 / (s d^3)` less
/// `4 / s^2`, each but for its roundings, where `a` is the coordinate difference across the axis.
pub open spec fn is_entry(idk: Binary32, d: Binary32, s: Binary32, a: Binary32) -> bool {
    exists|bend: nat, four: nat| #[trigger] entry_parts(idk, d, s, a, bend, four)
}

/// The two parts of an entry of the Hessian.
pub open spec fn entry_parts(
    idk: Binary32,
    d: Binary32,
    s: Binary32,
    a: Binary32,
    bend: nat,
    four: nat,
) -> bool {
    let (sd, ss, sa) = (size(d.value()), size(s.value()), size(a.value()));
    let u = unit();
    &&& within(bend * ss * (sd * sd * sd), 2 * (sa * sa) * (u * u * u), 12)
    &&& within(four * (ss * ss), 4 * (u * u * u), 3)
    &&& idk.finite() && rounded(idk.value(), bend - four)
}

proof fn lemma_four_chain(four: nat, rid2: nat, s2: nat, s: nat, u: nat)
    requires
        u > 0,
        within((4 * u) * rid2, four * u, 1),
        within(u * u, rid2 * s2, 1),
        within(s * s, s2 * u, 1),
    ensures
        within(four * (s * s), 4 * (u * u * u), 3),
{
    assert((4 * u) * rid2 == (4 * rid2) * u) by (nonlinear_arith);
    lemma_within_over(4 * rid2, four, 1, u);
    lemma_within_times(4 * rid2, four, 1, s2);
    assert((4 * rid2) * s2 == (rid2 * s2) * 4) by (nonlinear_arith);
    lemma_within_swap(four * s2, 4, rid2 * s2, u * u, 1, 1);
    lemma_within_times(four * s2, (u * u) * 4, 2, u);
    assert(((u * u) * 4) * u == 4 * (u * u * u)) by (nonlinear_arith);
    assert((four * s2) * u == (s2 * u) * four) by (nonlinear_arith);
    lemma_within_back((s2 * u) * four, 4 * (u * u * u), 2);
    lemma_within_swap(4 * (u * u * u), four, s2 * u, s * s, 2, 1);
    assert((s * s) * four == four * (s * s)) by (nonlinear_arith);
    lemma_within_back(4 * (u * u * u), four * (s * s), 3);
}

proof fn lemma_entry(dx: Binary32, dy: Binary32, a: Binary32, s: Binary32)
    requires
        entry_ordinary(dx, dy, a, s),
        a.finite(),
    ensures
        ({
            let d = dx.times(dx).plus(dy.times(dy)).root();
            let rid2 = lit(ONE).over(s.times(s));
            let r = lit(ONE).over(d);
            let c = lit(0x4000_0000).times(rid2).times(s).times(r.times(r).times(r));
            is_entry(
                c.times(a).times(a).minus(lit(0x4080_0000).times(rid2)),
                d,
                s,
                a,
            )
        }),
{
    let d2 = dx.times(dx).plus(dy.times(dy));
    let d = d2.root();
    lemma_length(dx, dy);
    lemma_zero_size(d2);
    assert(magnitude_value(0) == 0);
    lemma_reciprocals(d2, s);
    lemma_constants();
    let u = unit();
    let (two, cst) = (lit(0x4000_0000), lit(0x4080_0000));
    let s2 = s.times(s);
    let rid2 = lit(ONE).over(s2);
    let r = lit(ONE).over(d);
    let rr = r.times(r);
    let r3 = rr.times(r);
    let p = two.times(rid2);
    let q = p.times(s);
    let c = q.times(r3);
    let ca = c.times(a);
    let bend = ca.times(a);
    let four = cst.times(rid2);
    lemma_product(r, r);
    lemma_product(rr, r);
    lemma_product(two, rid2);
    lemma_product(p, s);
    lemma_product(q, r3);
    lemma_product(c, a);
    lemma_product(ca, a);
    lemma_product(cst, rid2);
    lemma_sign_of(s);
    let (vr, vrr, vr3, vp, vq, vc, vca, vb, vf, vrid, vs, va, vs2, vd) = (
        size(r.value()),
        size(rr.value()),
        size(r3.value()),
        size(p.value()),
        size(q.value()),
        size(c.value()),
        size(ca.value()),
        size(bend.value()),
        size(four.value()),
        size(rid2.value()),
        size(s.value()),
        size(a.value()),
        size(s2.value()),
        size(d.value()),
    );
    lemma_bend_chain(vb, vca, vc, vq, vp, vr3, vrr, vr, vrid, vs2, vs, va, vd, u);
    lemma_four_chain(vf, vrid, vs2, vs, u);
    law_minus_rounded(bend, four);
    lemma_sign_of(bend);
    lemma_sign_of(four);
    assert(bend.value() == vb && four.value() == vf);
    assert(entry_parts(bend.minus(four), d, s, a, vb, vf));
}

/// The record of a pair holds its entries of the Hessian: along each axis the second derivative of
/// the stress, for any number of nodes, wherever nothing overflows or underflows.
pub proof fn law_hessian_entries(n: nat, x: Seq<Binary32>, u: int, v: int, s: Binary32)
    requires
        ({
            let dx = x[u].minus(x[v]);
            let dy = x[n + u].minus(x[n + v]);
            entry_ordinary(dx, dy, dx, s) && entry_ordinary(dx, dy, dy, s)
        }),
    ensures
        ({
            let dx = x[u].minus(x[v]);
            let dy = x[n + u].minus(x[n + v]);
            let d = dx.times(dx).plus(dy.times(dy)).root();
            let p = pair_of(n, x, u, v, s);
            is_entry(p.idk_x, d, s, dy) && is_entry(p.idk_y, d, s, dx)
        }),
{
    let dx = x[u].minus(x[v]);
    let dy = x[n + u].minus(x[n + v]);
    lemma_entry(dx, dy, dx, s);
    lemma_entry(dx, dy, dy, s);
}

} // verus!
