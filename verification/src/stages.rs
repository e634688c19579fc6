//! What the integrator does to each coordinate, in exact arithmetic but for rounding.
use crate::accuracy::{
    ample, law_minus_exact, law_minus_order, law_minus_rounded, law_over_exact,
    law_over_rounded, law_plus_exact, law_plus_rounded, law_times_exact, law_times_rounded,
    lemma_room, lemma_sign_product, rounded, rounded_product, rounded_quotient, unit,
};
use crate::binary32::{lit, size, Binary32};
use crate::context::State;
use crate::laws::law_pinned;
use crate::model::{separated, Graph};
use crate::motion::{
    blended, descended, ends, midway, moved, pinned, settled, squares, step_at, stepped, Drift, Lock,
    Tick, World,
};
use crate::rounding::lemma_pattern_value;
use crate::settling::law_separated_stays;
use vstd::arithmetic::power2::{lemma2_to64, lemma_pow2_adds, lemma_pow2_pos, pow2};
use vstd::prelude::*;

verus! {

/// The constants of the schemes are two and six.
proof fn lemma_weights()
    ensures
        lit(0x4000_0000).finite(),
        lit(0x4000_0000).value() == 2 * unit(),
        lit(0x40c0_0000).finite(),
        lit(0x40c0_0000).value() == 6 * unit(),
        unit() > 0,
{
    lemma2_to64();
    lemma_pattern_value(127, 0x80_0000);
    lemma_pattern_value(128, 0xc0_0000);
    lemma_pow2_adds(24, 126);
    lemma_pow2_adds(126, 1);
    lemma_pow2_adds(126, 2);
    lemma_pow2_adds(23, 126);
    lemma_pow2_pos(149);
}

/// Whether `p` is the exact product of a step and a slope, and `q` what it leaves of `from`.
pub open spec fn unrounded_step(
    from: Binary32,
    step: Binary32,
    slope: Binary32,
    p: Binary32,
    q: Binary32,
) -> bool {
    &&& p.finite() && q.finite()
    &&& p.value() * unit() == step.value() * slope.value()
    &&& q.value() == from.value() - p.value()
}

/// Whether a coordinate was lowered from `from` to `to` by a step along a slope: it is `from` less
/// the product of the step and the slope, with the product and the difference rounded. It is so
/// exactly where neither needs rounding.
#[verifier::opaque]
pub open spec fn lowered(from: Binary32, to: Binary32, step: Binary32, slope: Binary32) -> bool {
    &&& to == from.minus(step.times(slope))
    &&& from.finite() && step.finite() && slope.finite() ==> {
        &&& size(from.value()) <= ample() && size(step.value() * slope.value()) <= ample() * unit()
            ==> to.finite()
        &&& to.finite() ==> exists|m: int|
            {
                &&& #[trigger] rounded_product(m, step.value(), slope.value())
                &&& rounded(to.value(), from.value() - m)
            }
        &&& to.finite() && step.value() * slope.value() >= 0 ==> to.value() <= from.value()
        &&& to.finite() && step.value() * slope.value() <= 0 ==> to.value() >= from.value()
        &&& forall|p: Binary32, q: Binary32| #[trigger]
            unrounded_step(from, step, slope, p, q) ==> to.finite() && to.value() == q.value()
    }
}

/// The size of a product is close enough to the exact one.
proof fn lemma_product_size(v: int, a: int, b: int)
    requires
        rounded_product(v, a, b),
        size(a * b) <= ample() * unit(),
    ensures
        size(v) <= 2 * ample(),
{
    lemma_room();
    lemma_pow2_pos(149);
    let (u, p, m) = (unit() as int, size(a * b) as int, ample() as int);
    let s = size(v) as int;
    assert((-v) * u == -(v * u)) by (nonlinear_arith);
    assert(s * u >= 0) by (nonlinear_arith)
        requires
            s >= 0,
            u > 0,
    ;
    assert(0x100_0000 * (s * u) <= 0x100_0000 * p + p + 0x80_0000 * u);
    assert(s <= 2 * m) by (nonlinear_arith)
        requires
            0x100_0000 * (s * u) <= 0x100_0000 * p + p + 0x80_0000 * u,
            p <= m * u,
            u > 0,
            m > 0,
    ;
}

proof fn lemma_lowered(from: Binary32, step: Binary32, slope: Binary32)
    ensures
        lowered(from, from.minus(step.times(slope)), step, slope),
{
    reveal(lowered);
    let p = step.times(slope);
    let to = from.minus(p);
    if from.finite() && step.finite() && slope.finite() {
        lemma_room();
        lemma_pow2_pos(149);
        law_times_rounded(step, slope);
        law_minus_rounded(from, p);
        if size(from.value()) <= ample() && size(step.value() * slope.value()) <= ample() * unit() {
            assert(ample() * unit() <= pow2(260) * unit()) by (nonlinear_arith)
                requires
                    1024 * ample() <= pow2(260),
            ;
            lemma_product_size(p.value(), step.value(), slope.value());
        }
        if to.finite() {
            assert(rounded_product(p.value(), step.value(), slope.value()));
            law_minus_order(from, p);
        }
        assert forall|e: Binary32, q: Binary32| #[trigger]
            unrounded_step(from, step, slope, e, q) implies to.finite() && to.value()
            == q.value() by {
            law_times_exact(step, slope, e);
            law_minus_exact(from, p, q);
        }
    }
}

/// A step against the gradient, for any number of nodes: each coordinate is the old one less the
/// step size times its entry of the gradient, but for rounding. With a positive step size no
/// coordinate with a positive gradient increases, and none with a negative gradient decreases.
pub proof fn law_step_lowers(graph: Graph, from: Seq<Binary32>, at: Seq<Binary32>, i: int)
    requires
        0 <= i < 2 * graph.n,
    ensures
        stepped(graph, from, at).len() == 2 * graph.n,
        lowered(from[i], stepped(graph, from, at)[i], step_at(graph, at), graph.gradients(at)[i]),
{
    lemma_lowered(from[i], step_at(graph, at), graph.gradients(at)[i]);
}

/// Where neither the product `p` nor the difference `q` is rounded, a step against the gradient is
/// exact: the coordinate is the old one less the step size times its entry of the gradient.
pub proof fn law_step_exact(
    graph: Graph,
    from: Seq<Binary32>,
    at: Seq<Binary32>,
    i: int,
    p: Binary32,
    q: Binary32,
)
    requires
        0 <= i < 2 * graph.n,
        from[i].finite(),
        step_at(graph, at).finite(),
        graph.gradients(at)[i].finite(),
        unrounded_step(from[i], step_at(graph, at), graph.gradients(at)[i], p, q),
    ensures
        stepped(graph, from, at)[i].finite(),
        stepped(graph, from, at)[i].value() * unit() == from[i].value() * unit() - step_at(
            graph,
            at,
        ).value() * graph.gradients(at)[i].value(),
{
    law_times_exact(step_at(graph, at), graph.gradients(at)[i], p);
    law_minus_exact(from[i], step_at(graph, at).times(graph.gradients(at)[i]), q);
    assert((from[i].value() - p.value()) * unit() == from[i].value() * unit() - p.value() * unit())
        by (nonlinear_arith);
}

/// Whether `d` is the exact difference of `a` and `x`, `h` its half, and `m` half way.
pub open spec fn unrounded_half(
    x: Binary32,
    a: Binary32,
    d: Binary32,
    h: Binary32,
    m: Binary32,
) -> bool {
    &&& d.finite() && h.finite() && m.finite()
    &&& d.value() == a.value() - x.value()
    &&& 2 * h.value() == d.value()
    &&& m.value() == x.value() + h.value()
}

/// Whether `m` is half way from `x` to `a`, with the difference, its half and the sum rounded. It is
/// so exactly where none of them needs rounding.
#[verifier::opaque]
pub open spec fn halved(x: Binary32, a: Binary32, m: Binary32) -> bool {
    &&& m == x.plus(a.minus(x).over(lit(0x4000_0000)))
    &&& x.finite() && a.finite() ==> {
        &&& size(x.value()) <= ample() && size(a.value()) <= ample() ==> m.finite()
        &&& m.finite() ==> exists|d: int, h: int|
            {
                &&& #[trigger] rounded(d, a.value() - x.value())
                &&& #[trigger] rounded_quotient(h, d, 2 * unit() as int)
                &&& rounded(m.value(), x.value() + h)
            }
        &&& forall|d: Binary32, h: Binary32, e: Binary32| #[trigger]
            unrounded_half(x, a, d, h, e) ==> m.finite() && 2 * m.value() == x.value() + a.value()
    }
}

/// A rounded sum is not much larger than the exact one.
proof fn lemma_rounded_size(v: int, exact: int)
    requires
        rounded(v, exact),
    ensures
        size(v) <= 2 * size(exact),
{
}

proof fn lemma_half_exact(x: Binary32, a: Binary32, d: Binary32, h: Binary32, m: Binary32)
    requires
        x.finite(),
        a.finite(),
        unrounded_half(x, a, d, h, m),
    ensures
        ({
            let r = x.plus(a.minus(x).over(lit(0x4000_0000)));
            r.finite() && 2 * r.value() == x.value() + a.value()
        }),
{
    lemma_weights();
    law_minus_exact(a, x, d);
    let e = a.minus(x);
    assert(h.value() * (2 * unit()) == (2 * h.value()) * unit()) by (nonlinear_arith);
    law_over_exact(e, lit(0x4000_0000), h);
    law_plus_exact(x, e.over(lit(0x4000_0000)), m);
}

proof fn lemma_halved(x: Binary32, a: Binary32)
    ensures
        halved(x, a, x.plus(a.minus(x).over(lit(0x4000_0000)))),
{
    reveal(halved);
    let two = lit(0x4000_0000);
    let d = a.minus(x);
    let h = d.over(two);
    let m = x.plus(h);
    if x.finite() && a.finite() {
        assert forall|p: Binary32, q: Binary32, e: Binary32| #[trigger]
            unrounded_half(x, a, p, q, e) implies m.finite() && 2 * m.value() == x.value()
            + a.value() by {
            lemma_half_exact(x, a, p, q, e);
        }
        lemma_weights();
        lemma_room();
        law_minus_rounded(a, x);
        law_plus_rounded(x, h);
        if d.finite() {
            law_over_rounded(d, two);
            let (u, t, v) = (unit() as int, size(d.value()) as int, h.value());
            if size(x.value()) <= ample() && size(a.value()) <= ample() {
                lemma_rounded_size(d.value(), a.value() - x.value());
                assert(t * u <= pow2(260) * (2 * u)) by (nonlinear_arith)
                    requires
                        0 <= t <= pow2(260),
                        u > 0,
                ;
                assert(h.finite());
                let s = size(v) as int;
                assert(s * (2 * u) == size(v * two.value())) by (nonlinear_arith)
                    requires
                        two.value() == 2 * u,
                        u > 0,
                        s == size(v),
                        v >= 0 ==> size(v) == v,
                        v < 0 ==> size(v) == -v,
                        v * two.value() >= 0 ==> size(v * two.value()) == v * two.value(),
                        v * two.value() < 0 ==> size(v * two.value()) == -(v * two.value()),
                ;
                assert((-d.value()) * u == -(d.value() * u)) by (nonlinear_arith);
                assert(t * u == size(d.value() * u)) by (nonlinear_arith)
                    requires
                        u > 0,
                        t == size(d.value()),
                        d.value() >= 0 ==> size(d.value()) == d.value(),
                        d.value() < 0 ==> size(d.value()) == -d.value(),
                        d.value() * u >= 0 ==> size(d.value() * u) == d.value() * u,
                        d.value() * u < 0 ==> size(d.value() * u) == -(d.value() * u),
                ;
                assert(0x100_0000 * (s * (2 * u)) <= 0x100_0000 * (t * u) + t * u + 0x80_0000 * (2
                    * u));
                assert(s <= t + 1) by (nonlinear_arith)
                    requires
                        0x100_0000 * (s * (2 * u)) <= 0x100_0000 * (t * u) + t * u + 0x80_0000 * (2
                            * u),
                        u > 0,
                        t >= 0,
                        s >= 0,
                ;
                assert(size(x.value() + v) <= pow2(260));
            }
            if m.finite() {
                assert(rounded(d.value(), a.value() - x.value()));
                assert(rounded_quotient(h.value(), d.value(), 2 * unit() as int));
            }
        } else {
            assert(!h.finite()) by {
                reveal(Binary32::over);
            }
        }
    }
}

/// The middle of a stage, for any number of nodes: each coordinate is half way between the two, but
/// for rounding.
pub proof fn law_midway_halves(x: Seq<Binary32>, a: Seq<Binary32>, len: nat, i: int)
    requires
        0 <= i < len,
    ensures
        midway(x, a, len).len() == len,
        halved(x[i], a[i], midway(x, a, len)[i]),
{
    lemma_halved(x[i], a[i]);
}

/// Where neither the difference `d`, nor its half `h`, nor the sum `m` is rounded, the middle is
/// exact: twice the middle is the sum of the two.
pub proof fn law_midway_exact(
    x: Seq<Binary32>,
    a: Seq<Binary32>,
    len: nat,
    i: int,
    d: Binary32,
    h: Binary32,
    m: Binary32,
)
    requires
        0 <= i < len,
        x[i].finite(),
        a[i].finite(),
        unrounded_half(x[i], a[i], d, h, m),
    ensures
        midway(x, a, len)[i].finite(),
        2 * midway(x, a, len)[i].value() == x[i].value() + a[i].value(),
{
    lemma_half_exact(x[i], a[i], d, h, m);
}

/// Whether `v` is a sixth of `a + 2 b + 2 c + d`, with each operation rounded: `p` and `q` are the
/// doubled terms, `r`, `s` and `t` the sums.
pub open spec fn mean_parts(
    a: int,
    b: int,
    c: int,
    d: int,
    v: int,
    p: int,
    q: int,
    r: int,
    s: int,
    t: int,
) -> bool {
    &&& rounded_product(p, 2 * unit() as int, b)
    &&& rounded_product(q, 2 * unit() as int, c)
    &&& rounded(r, a + p)
    &&& rounded(s, r + q)
    &&& rounded(t, s + d)
    &&& rounded_quotient(v, t, 6 * unit() as int)
}

/// Whether all parts of a weighted mean are exact: `p` and `q` are the doubled stages, `r`, `s` and
/// `t` the sums and `v` the mean.
pub open spec fn unrounded_mean(
    a: Binary32,
    b: Binary32,
    c: Binary32,
    d: Binary32,
    parts: (Binary32, Binary32, Binary32, Binary32, Binary32, Binary32),
) -> bool {
    let (p, q, r, s, t, v) = parts;
    &&& p.finite() && q.finite() && r.finite() && s.finite() && t.finite() && v.finite()
    &&& p.value() == 2 * b.value()
    &&& q.value() == 2 * c.value()
    &&& r.value() == a.value() + p.value()
    &&& s.value() == r.value() + q.value()
    &&& t.value() == s.value() + d.value()
    &&& 6 * v.value() == t.value()
}

/// Whether `v` is the weighted mean of the four stages, a sixth of `a + 2 b + 2 c + d`, with each
/// operation rounded. It is so exactly where none needs rounding.
#[verifier::opaque]
pub open spec fn averaged(a: Binary32, b: Binary32, c: Binary32, d: Binary32, v: Binary32) -> bool {
    &&& v == a.plus(lit(0x4000_0000).times(b)).plus(lit(0x4000_0000).times(c)).plus(d).over(
        lit(0x40c0_0000),
    )
    &&& a.finite() && b.finite() && c.finite() && d.finite() ==> {
        &&& size(a.value()) <= ample() && size(b.value()) <= ample() && size(c.value()) <= ample()
            && size(d.value()) <= ample() ==> v.finite()
        &&& v.finite() ==> exists|p: int, q: int, r: int, s: int, t: int| #[trigger]
            mean_parts(
                a.value(),
                b.value(),
                c.value(),
                d.value(),
                v.value(),
                p,
                q,
                r,
                s,
                t,
            )
        &&& forall|parts: (Binary32, Binary32, Binary32, Binary32, Binary32, Binary32)| #[trigger]
            unrounded_mean(a, b, c, d, parts) ==> v.finite() && 6 * v.value() == a.value() + 2
                * b.value() + 2 * c.value() + d.value()
    }
}

proof fn lemma_mean_exact(
    a: Binary32,
    b: Binary32,
    c: Binary32,
    d: Binary32,
    parts: (Binary32, Binary32, Binary32, Binary32, Binary32, Binary32),
)
    requires
        a.finite() && b.finite() && c.finite() && d.finite(),
        unrounded_mean(a, b, c, d, parts),
    ensures
        ({
            let m = a.plus(lit(0x4000_0000).times(b)).plus(lit(0x4000_0000).times(c)).plus(d).over(
                lit(0x40c0_0000),
            );
            &&& m.finite()
            &&& 6 * m.value() == a.value() + 2 * b.value() + 2 * c.value() + d.value()
        }),
{
    let (p, q, r, s, t, v) = parts;
    let two = lit(0x4000_0000);
    let six = lit(0x40c0_0000);
    lemma_weights();
    assert((2 * b.value()) * unit() == (2 * unit()) * b.value()) by (nonlinear_arith);
    assert((2 * c.value()) * unit() == (2 * unit()) * c.value()) by (nonlinear_arith);
    law_times_exact(two, b, p);
    law_times_exact(two, c, q);
    let rr = a.plus(two.times(b));
    law_plus_exact(a, two.times(b), r);
    let ss = rr.plus(two.times(c));
    law_plus_exact(rr, two.times(c), s);
    let tt = ss.plus(d);
    law_plus_exact(ss, d, t);
    assert(v.value() * (6 * unit()) == (6 * v.value()) * unit()) by (nonlinear_arith);
    law_over_exact(tt, six, v);
}

/// Twice a number of ample size.
proof fn lemma_twice(b: Binary32)
    requires
        b.finite(),
    ensures
        ({
            let p = lit(0x4000_0000).times(b);
            &&& p.finite() ==> rounded_product(p.value(), 2 * unit() as int, b.value())
            &&& size(b.value()) <= ample() ==> p.finite() && size(p.value()) <= 4 * ample()
        }),
{
    let two = lit(0x4000_0000);
    lemma_weights();
    lemma_room();
    law_times_rounded(two, b);
    let p = two.times(b);
    if size(b.value()) <= ample() {
        let (u, e, v) = (unit() as int, b.value(), p.value());
        lemma_sign_product(two.value(), e);
        lemma_sign_product(v, u);
        let (z, s) = (size(e) as int, size(v) as int);
        assert(size(two.value()) * size(e) == 2 * (z * u)) by (nonlinear_arith)
            requires
                size(two.value()) == 2 * u,
                z == size(e),
        ;
        assert(2 * (z * u) <= pow2(260) * u) by (nonlinear_arith)
            requires
                2 * z <= pow2(260),
                u > 0,
        ;
        assert(0x100_0000 * (s * u) <= 0x100_0000 * (2 * (z * u)) + 2 * (z * u) + 0x80_0000 * u);
        assert(s <= 4 * ample()) by (nonlinear_arith)
            requires
                0x100_0000 * (s * u) <= 0x100_0000 * (2 * (z * u)) + 2 * (z * u) + 0x80_0000 * u,
                0 <= z <= ample(),
                u > 0,
                ample() > 0,
        ;
    }
}

/// The sums of a weighted mean.
proof fn lemma_mean_sums(a: Binary32, p: Binary32, q: Binary32, d: Binary32)
    requires
        a.finite(),
        d.finite(),
    ensures
        ({
            let r = a.plus(p);
            let s = r.plus(q);
            let t = s.plus(d);
            &&& t.finite() ==> {
                &&& p.finite() && q.finite()
                &&& rounded(r.value(), a.value() + p.value())
                &&& rounded(s.value(), r.value() + q.value())
                &&& rounded(t.value(), s.value() + d.value())
            }
            &&& p.finite() && q.finite() && size(a.value()) <= ample() && size(p.value()) <= 4
                * ample() && size(q.value()) <= 4 * ample() && size(d.value()) <= ample() ==> {
                &&& t.finite()
                &&& size(t.value()) <= pow2(260)
            }
        }),
{
    let r = a.plus(p);
    let s = r.plus(q);
    let t = s.plus(d);
    lemma_room();
    law_plus_rounded(a, p);
    law_plus_rounded(r, q);
    law_plus_rounded(s, d);
    if t.finite() || (p.finite() && size(a.value()) <= ample() && size(p.value()) <= 4 * ample()) {
        lemma_rounded_size(r.value(), a.value() + p.value());
        if s.finite() {
            lemma_rounded_size(s.value(), r.value() + q.value());
        }
        if t.finite() {
            lemma_rounded_size(t.value(), s.value() + d.value());
        }
    }
}

/// A quotient by six.
proof fn lemma_sixth(t: Binary32)
    ensures
        ({
            let v = t.over(lit(0x40c0_0000));
            &&& v.finite() ==> t.finite() && rounded_quotient(
                v.value(),
                t.value(),
                6 * unit() as int,
            )
            &&& t.finite() && size(t.value()) <= pow2(260) ==> v.finite()
        }),
{
    let six = lit(0x40c0_0000);
    lemma_weights();
    if t.finite() {
        law_over_rounded(t, six);
        if size(t.value()) <= pow2(260) {
            assert(size(t.value()) * unit() <= pow2(260) * (6 * unit())) by (nonlinear_arith)
                requires
                    0 <= size(t.value()) <= pow2(260),
                    unit() > 0,
            ;
        }
    } else {
        assert(!t.over(six).finite()) by {
            reveal(Binary32::over);
        }
    }
}

proof fn lemma_averaged(a: Binary32, b: Binary32, c: Binary32, d: Binary32)
    ensures
        averaged(
            a,
            b,
            c,
            d,
            a.plus(lit(0x4000_0000).times(b)).plus(lit(0x4000_0000).times(c)).plus(d).over(
                lit(0x40c0_0000),
            ),
        ),
{
    reveal(averaged);
    let p = lit(0x4000_0000).times(b);
    let q = lit(0x4000_0000).times(c);
    let r = a.plus(p);
    let s = r.plus(q);
    let t = s.plus(d);
    let v = t.over(lit(0x40c0_0000));
    if a.finite() && b.finite() && c.finite() && d.finite() {
        assert forall|parts: (Binary32, Binary32, Binary32, Binary32, Binary32, Binary32)| #[trigger]
            unrounded_mean(a, b, c, d, parts) implies v.finite() && 6 * v.value() == a.value() + 2
            * b.value() + 2 * c.value() + d.value() by {
            lemma_mean_exact(a, b, c, d, parts);
        }
        lemma_twice(b);
        lemma_twice(c);
        lemma_mean_sums(a, p, q, d);
        lemma_sixth(t);
        if v.finite() {
            assert(mean_parts(
                a.value(),
                b.value(),
                c.value(),
                d.value(),
                v.value(),
                p.value(),
                q.value(),
                r.value(),
                s.value(),
                t.value(),
            ));
        }
    }
}

/// The outcome of the Runge-Kutta scheme, for any number of nodes: each coordinate is a sixth of the
/// first and the last stage and twice the two others, but for rounding.
pub proof fn law_blended_averages(
    a: Seq<Binary32>,
    b: Seq<Binary32>,
    c: Seq<Binary32>,
    d: Seq<Binary32>,
    len: nat,
    i: int,
)
    requires
        0 <= i < len,
    ensures
        blended(a, b, c, d, len).len() == len,
        averaged(a[i], b[i], c[i], d[i], blended(a, b, c, d, len)[i]),
{
    lemma_averaged(a[i], b[i], c[i], d[i]);
}

/// Where no operation is rounded, six times the outcome is the exact weighted sum of the stages.
pub proof fn law_blended_exact(
    a: Seq<Binary32>,
    b: Seq<Binary32>,
    c: Seq<Binary32>,
    d: Seq<Binary32>,
    len: nat,
    i: int,
    parts: (Binary32, Binary32, Binary32, Binary32, Binary32, Binary32),
)
    requires
        0 <= i < len,
        a[i].finite() && b[i].finite() && c[i].finite() && d[i].finite(),
        unrounded_mean(a[i], b[i], c[i], d[i], parts),
    ensures
        blended(a, b, c, d, len)[i].finite(),
        6 * blended(a, b, c, d, len)[i].value() == a[i].value() + 2 * b[i].value() + 2
            * c[i].value() + d[i].value(),
{
    lemma_mean_exact(a[i], b[i], c[i], d[i], parts);
}

/// Whether no lock names a node.
pub open spec fn free(locks: Seq<Lock>, node: int) -> bool {
    forall|k: int| 0 <= k < locks.len() ==> (#[trigger] locks[k]).node.whole() != node
}

/// Whether a lock is the last one of its node.
pub open spec fn last_of_node(locks: Seq<Lock>, k: int) -> bool {
    forall|j: int|
        k < j < locks.len() ==> (#[trigger] locks[j]).node.whole() != locks[k].node.whole()
}

/// Whether each node that a lock names is where the last lock on it holds it.
pub open spec fn held_in(locks: Seq<Lock>, n: nat, to: Seq<Binary32>) -> bool {
    forall|k: int|
        0 <= k < locks.len() && #[trigger] last_of_node(locks, k) ==> {
            &&& to[locks[k].node.whole() as int] == locks[k].x
            &&& to[n + locks[k].node.whole()] == locks[k].y
        }
}

/// Whether `start` is `x` with the locked nodes put where they are held.
pub open spec fn put_back(
    locks: Seq<Lock>,
    n: nat,
    x: Seq<Binary32>,
    start: Seq<Binary32>,
) -> bool {
    &&& start.len() == 2 * n
    &&& held_in(locks, n, start)
    &&& forall|v: int|
        0 <= v < n && #[trigger] free(locks, v) ==> start[v] == x[v] && start[n + v] == x[n + v]
}

/// Whether `to` is `from` after a step against the gradient at `at`, with the locked nodes where they
/// are held.
pub open spec fn descends(
    graph: Graph,
    locks: Seq<Lock>,
    from: Seq<Binary32>,
    at: Seq<Binary32>,
    to: Seq<Binary32>,
) -> bool {
    let n = graph.n;
    let g = graph.gradients(at);
    let step = step_at(graph, at);
    &&& to.len() == 2 * n
    &&& held_in(locks, n, to)
    &&& forall|v: int|
        0 <= v < n && #[trigger] free(locks, v) ==> {
            &&& lowered(from[v], to[v], step, g[v])
            &&& lowered(from[n + v], to[n + v], step, g[n + v])
        }
}

/// Whether each of the first coordinates is half way.
pub open spec fn halves(
    x: Seq<Binary32>,
    a: Seq<Binary32>,
    m: Seq<Binary32>,
    len: nat,
) -> bool {
    m.len() == len && forall|i: int| 0 <= i < len ==> halved(x[i], a[i], #[trigger] m[i])
}

/// Whether all locks name a node of the graph.
pub open spec fn locks_name_nodes(w: World) -> bool {
    forall|k: int| 0 <= k < w.locks.len() ==> (#[trigger] w.locks[k]).node.whole() < w.graph.n
}

proof fn lemma_put_back(x: Seq<Binary32>, n: nat, locks: Seq<Lock>)
    requires
        x.len() == 2 * n,
        forall|k: int| 0 <= k < locks.len() ==> (#[trigger] locks[k]).node.whole() < n,
    ensures
        put_back(locks, n, x, pinned(x, n, locks, locks.len())),
{
    law_pinned(x, n, locks, locks.len());
    let start = pinned(x, n, locks, locks.len());
    assert forall|k: int| 0 <= k < locks.len() && #[trigger] last_of_node(locks, k) implies {
        &&& start[locks[k].node.whole() as int] == locks[k].x
        &&& start[n + locks[k].node.whole()] == locks[k].y
    } by {
        let l = locks[k];
    }
    assert forall|v: int| 0 <= v < n && #[trigger] free(locks, v) implies start[v] == x[v] && start[
    n + v] == x[n + v] by {
        assert(start[v] == x[v]);
    }
}

proof fn lemma_descends(graph: Graph, locks: Seq<Lock>, from: Seq<Binary32>, at: Seq<Binary32>)
    requires
        forall|k: int| 0 <= k < locks.len() ==> (#[trigger] locks[k]).node.whole() < graph.n,
    ensures
        descends(
            graph,
            locks,
            from,
            at,
            pinned(stepped(graph, from, at), graph.n, locks, locks.len()),
        ),
{
    let n = graph.n;
    let raw = stepped(graph, from, at);
    let to = pinned(raw, n, locks, locks.len());
    lemma_put_back(raw, n, locks);
    let g = graph.gradients(at);
    let step = step_at(graph, at);
    assert forall|v: int| 0 <= v < n && #[trigger] free(locks, v) implies {
        &&& lowered(from[v], to[v], step, g[v])
        &&& lowered(from[n + v], to[n + v], step, g[n + v])
    } by {
        law_step_lowers(graph, from, at, v);
        law_step_lowers(graph, from, at, n + v);
    }
}

proof fn lemma_halves(x: Seq<Binary32>, a: Seq<Binary32>, len: nat)
    ensures
        halves(x, a, midway(x, a, len), len),
{
    let m = midway(x, a, len);
    assert forall|i: int| 0 <= i < len implies halved(x[i], a[i], #[trigger] m[i]) by {
        law_midway_halves(x, a, len, i);
    }
}

/// The course of a step of gradient descent: the locked nodes are put back, giving `start`, and the
/// coincident nodes displaced; then all nodes go down by `steps`. The step can be made where
/// displacing ends.
pub open spec fn descent_course(
    w: World,
    x: Seq<Binary32>,
    draws: u64,
    t: Tick,
    can: bool,
    start: Seq<Binary32>,
    steps: Seq<Binary32>,
) -> bool {
    let n = w.graph.n;
    &&& put_back(w.locks, n, x, start)
    &&& can == ends(n, w.min_d, Drift { x: start, draws })
    &&& settled(n, w.min_d, Drift { x: start, draws }) == Drift { x: t.at, draws: t.draws }
    &&& descends(w.graph, w.locks, t.at, t.at, t.x)
    &&& steps.len() == 2 * n
    &&& forall|i: int|
        0 <= i < 2 * n ==> #[trigger] steps[i] == step_at(w.graph, t.at).times(
            w.graph.gradients(t.at)[i],
        )
    &&& t.disp == squares(steps, 2 * n)
}

/// A step in any mode but the first two is one of gradient descent: the nodes without a lock go down
/// from where they settle, by the step size times the gradient there.
pub proof fn law_descent_tick(w: World, x: Seq<Binary32>, draws: u64, mode: u32)
    requires
        mode != 0,
        mode != 1,
        x.len() == 2 * w.graph.n,
        locks_name_nodes(w),
    ensures
        exists|start: Seq<Binary32>, steps: Seq<Binary32>| #[trigger]
            descent_course(
                w,
                x,
                draws,
                w.tick(x, draws, mode),
                w.tick_ends(x, draws, mode),
                start,
                steps,
            ),
{
    let n = w.graph.n;
    let t = w.tick(x, draws, mode);
    let start = pinned(x, n, w.locks, w.locks.len());
    lemma_put_back(x, n, w.locks);
    let s1 = w.settle(start, draws);
    lemma_descends(w.graph, w.locks, s1.x, s1.x);
    let steps = Seq::new(
        2 * n,
        |i: int| step_at(w.graph, s1.x).times(w.graph.gradients(s1.x)[i]),
    );
    assert(s1 == Drift { x: t.at, draws: t.draws });
    assert(descent_course(w, x, draws, t, w.tick_ends(x, draws, mode), start, steps));
}

/// The course of a step of the midpoint scheme. From `s1`, where the nodes settle, a descent leads to
/// `a`; the nodes settle once more half way, at `m2`; the gradient there takes them down from `s1`,
/// to `raw` if nothing were locked. The step can be made where displacing ends both times.
pub open spec fn midpoint_course(
    w: World,
    x: Seq<Binary32>,
    draws: u64,
    t: Tick,
    can: bool,
    start: Seq<Binary32>,
    s1: Drift,
    a: Seq<Binary32>,
    m2: Seq<Binary32>,
    raw: Seq<Binary32>,
) -> bool {
    let n = w.graph.n;
    &&& put_back(w.locks, n, x, start)
    &&& can == (ends(n, w.min_d, Drift { x: start, draws }) && ends(
        n,
        w.min_d,
        Drift { x: m2, draws: s1.draws },
    ))
    &&& settled(n, w.min_d, Drift { x: start, draws }) == s1
    &&& descends(w.graph, w.locks, s1.x, s1.x, a)
    &&& halves(s1.x, a, m2, 2 * n)
    &&& settled(n, w.min_d, Drift { x: m2, draws: s1.draws }) == Drift { x: t.at, draws: t.draws }
    &&& descends(w.graph, Seq::empty(), s1.x, t.at, raw)
    &&& descends(w.graph, w.locks, s1.x, t.at, t.x)
    &&& t.disp == moved(s1.x, raw, 2 * n)
}

/// A step in the second mode takes the course of the midpoint scheme.
pub proof fn law_midpoint_tick(w: World, x: Seq<Binary32>, draws: u64)
    requires
        x.len() == 2 * w.graph.n,
        locks_name_nodes(w),
    ensures
        exists|
            start: Seq<Binary32>,
            s1: Drift,
            a: Seq<Binary32>,
            m2: Seq<Binary32>,
            raw: Seq<Binary32>,
        | #[trigger]
            midpoint_course(
                w,
                x,
                draws,
                w.tick(x, draws, 1),
                w.tick_ends(x, draws, 1),
                start,
                s1,
                a,
                m2,
                raw,
            ),
{
    let n = w.graph.n;
    let t = w.tick(x, draws, 1);
    let start = pinned(x, n, w.locks, w.locks.len());
    lemma_put_back(x, n, w.locks);
    let s1 = w.settle(start, draws);
    let a = descended(w.graph, w.locks, s1.x);
    lemma_descends(w.graph, w.locks, s1.x, s1.x);
    let m2 = midway(s1.x, a, 2 * n);
    lemma_halves(s1.x, a, 2 * n);
    let s2 = w.settle(m2, s1.draws);
    let raw = stepped(w.graph, s1.x, s2.x);
    lemma_descends(w.graph, Seq::empty(), s1.x, s2.x);
    lemma_descends(w.graph, w.locks, s1.x, s2.x);
    assert(s2 == Drift { x: t.at, draws: t.draws });
    assert(midpoint_course(w, x, draws, t, w.tick_ends(x, draws, 1), start, s1, a, m2, raw));
}

/// The stages of a step of the Runge-Kutta scheme.
pub struct Stages {
    pub start: Seq<Binary32>,
    pub s1: Drift,
    pub a: Seq<Binary32>,
    pub m2: Seq<Binary32>,
    pub s2: Drift,
    pub b: Seq<Binary32>,
    pub m3: Seq<Binary32>,
    pub s3: Drift,
    pub c: Seq<Binary32>,
    pub d: Seq<Binary32>,
}

/// The course of a step of the Runge-Kutta scheme: a descent from where the nodes settle, one from
/// half way to the first, one from half way to the second, and one from the third; the outcome is
/// the weighted mean of the four. The step can be made where displacing ends at all four stages.
pub open spec fn runge_kutta_course(
    w: World,
    x: Seq<Binary32>,
    draws: u64,
    t: Tick,
    can: bool,
    r: Stages,
) -> bool {
    let n = w.graph.n;
    &&& put_back(w.locks, n, x, r.start)
    &&& can == {
        &&& ends(n, w.min_d, Drift { x: r.start, draws })
        &&& ends(n, w.min_d, Drift { x: r.m2, draws: r.s1.draws })
        &&& ends(n, w.min_d, Drift { x: r.m3, draws: r.s2.draws })
        &&& ends(n, w.min_d, Drift { x: r.c, draws: r.s3.draws })
    }
    &&& settled(n, w.min_d, Drift { x: r.start, draws }) == r.s1
    &&& descends(w.graph, w.locks, r.s1.x, r.s1.x, r.a)
    &&& halves(r.s1.x, r.a, r.m2, 2 * n)
    &&& settled(n, w.min_d, Drift { x: r.m2, draws: r.s1.draws }) == r.s2
    &&& descends(w.graph, w.locks, r.s2.x, r.s2.x, r.b)
    &&& halves(r.s1.x, r.b, r.m3, 2 * n)
    &&& settled(n, w.min_d, Drift { x: r.m3, draws: r.s2.draws }) == r.s3
    &&& descends(w.graph, w.locks, r.s3.x, r.s3.x, r.c)
    &&& settled(n, w.min_d, Drift { x: r.c, draws: r.s3.draws }) == Drift {
        x: t.at,
        draws: t.draws,
    }
    &&& descends(w.graph, w.locks, t.at, t.at, r.d)
    &&& t.x.len() == 2 * n
    &&& forall|i: int|
        0 <= i < 2 * n ==> averaged(r.a[i], r.b[i], t.at[i], r.d[i], #[trigger] t.x[i])
    &&& t.disp == moved(r.s1.x, t.x, 2 * n)
}

/// A step in the first mode takes the course of the Runge-Kutta scheme.
pub proof fn law_runge_kutta_tick(w: World, x: Seq<Binary32>, draws: u64)
    requires
        x.len() == 2 * w.graph.n,
        locks_name_nodes(w),
    ensures
        exists|r: Stages| #[trigger]
            runge_kutta_course(
                w,
                x,
                draws,
                w.tick(x, draws, 0),
                w.tick_ends(x, draws, 0),
                r,
            ),
{
    let n = w.graph.n;
    let t = w.tick(x, draws, 0);
    let start = pinned(x, n, w.locks, w.locks.len());
    lemma_put_back(x, n, w.locks);
    let s1 = w.settle(start, draws);
    let a = descended(w.graph, w.locks, s1.x);
    lemma_descends(w.graph, w.locks, s1.x, s1.x);
    let m2 = midway(s1.x, a, 2 * n);
    lemma_halves(s1.x, a, 2 * n);
    let s2 = w.settle(m2, s1.draws);
    let b = descended(w.graph, w.locks, s2.x);
    lemma_descends(w.graph, w.locks, s2.x, s2.x);
    let m3 = midway(s1.x, b, 2 * n);
    lemma_halves(s1.x, b, 2 * n);
    let s3 = w.settle(m3, s2.draws);
    let c = descended(w.graph, w.locks, s3.x);
    lemma_descends(w.graph, w.locks, s3.x, s3.x);
    let s4 = w.settle(c, s3.draws);
    let d = descended(w.graph, w.locks, s4.x);
    lemma_descends(w.graph, w.locks, s4.x, s4.x);
    assert(s4 == Drift { x: t.at, draws: t.draws });
    assert forall|i: int| 0 <= i < 2 * n implies averaged(
        a[i],
        b[i],
        t.at[i],
        d[i],
        #[trigger] t.x[i],
    ) by {
        law_blended_averages(a, b, s4.x, d, 2 * n, i);
    }
    let r = Stages { start, s1, a, m2, s2, b, m3, s3, c, d };
    assert(runge_kutta_course(w, x, draws, t, w.tick_ends(x, draws, 0), r));
}

/// A step of gradient descent without locks, from positions at which no two nodes coincide, is exact
/// where neither the product `p` nor the difference `q` is rounded: each coordinate is the old one
/// less the step size times its entry of the gradient.
pub proof fn law_descent_exact(
    w: World,
    x: Seq<Binary32>,
    draws: u64,
    mode: u32,
    i: int,
    p: Binary32,
    q: Binary32,
)
    requires
        mode != 0,
        mode != 1,
        w.locks.len() == 0,
        x.len() == 2 * w.graph.n,
        separated(w.graph.n, x),
        0 <= i < 2 * w.graph.n,
        x[i].finite(),
        step_at(w.graph, x).finite(),
        w.graph.gradients(x)[i].finite(),
        unrounded_step(x[i], step_at(w.graph, x), w.graph.gradients(x)[i], p, q),
    ensures
        ({
            let t = w.tick(x, draws, mode);
            &&& t.at == x
            &&& t.draws == draws
            &&& t.x[i].finite()
            &&& t.x[i].value() * unit() == x[i].value() * unit() - step_at(w.graph, x).value()
                * w.graph.gradients(x)[i].value()
        }),
{
    law_separated_stays(w.graph.n, w.min_d, Drift { x, draws });
    law_step_exact(w.graph, x, x, i, p, q);
}

/// Whether two movements in a row differ by less than the threshold, relative to the second.
pub open spec fn calm(before: Binary32, now: Binary32, threshold: Binary32) -> bool {
    before.over(now).minus(lit(0x3f80_0000)).unsigned().less(threshold)
}

/// Whether steps follow one another from the positions `x` on, and only the last one may have been
/// calm.
pub open spec fn run_course(
    w: World,
    x: Seq<Binary32>,
    draws: u64,
    mode: u32,
    threshold: Binary32,
    stress: Binary32,
    ticks: Seq<Tick>,
) -> bool {
    &&& ticks.len() > 0
    &&& ticks[0] == w.tick(x, draws, mode)
    &&& forall|i: int, j: int|
        0 <= i && j == i + 1 && j < ticks.len() ==> #[trigger] ticks[j] == w.tick(
            (#[trigger] ticks[i]).x,
            ticks[i].draws,
            mode,
        )
    &&& ticks.len() > 1 ==> !calm(stress, ticks[0].disp, threshold)
    &&& forall|i: int, j: int|
        0 <= i && j == i + 1 && j < ticks.len() - 1 ==> !calm(
            (#[trigger] ticks[i]).disp,
            (#[trigger] ticks[j]).disp,
            threshold,
        )
}

/// Whether the last of the steps was calm.
pub open spec fn ends_calm(ticks: Seq<Tick>, stress: Binary32, threshold: Binary32) -> bool {
    if ticks.len() == 1 {
        calm(stress, ticks[0].disp, threshold)
    } else {
        calm(ticks[ticks.len() - 2].disp, ticks[ticks.len() - 1].disp, threshold)
    }
}

/// Whether each of the steps can be made.
pub open spec fn all_end(
    w: World,
    x: Seq<Binary32>,
    draws: u64,
    mode: u32,
    ticks: Seq<Tick>,
) -> bool {
    &&& w.tick_ends(x, draws, mode)
    &&& forall|i: int|
        0 <= i < ticks.len() - 1 ==> w.tick_ends((#[trigger] ticks[i]).x, ticks[i].draws, mode)
}

/// A run makes step after step, each from where the one before ended, until one moves the nodes
/// nearly as far as the one before did, or the given number of steps is made. What it gives is its
/// last step. It can be made where each of its steps can.
pub proof fn law_run_steps(
    w: World,
    x: Seq<Binary32>,
    draws: u64,
    mode: u32,
    threshold: Binary32,
    stress: Binary32,
    left: nat,
)
    requires
        left > 0,
    ensures
        exists|ticks: Seq<Tick>|
            {
                &&& #[trigger] run_course(w, x, draws, mode, threshold, stress, ticks)
                &&& ticks.len() <= left
                &&& ticks.len() < left ==> ends_calm(ticks, stress, threshold)
                &&& w.run(x, draws, mode, threshold, stress, left) == ticks.last()
                &&& w.run_ends(x, draws, mode, threshold, stress, left) == all_end(
                    w,
                    x,
                    draws,
                    mode,
                    ticks,
                )
            },
    decreases left,
{
    let t = w.tick(x, draws, mode);
    if left <= 1 || calm(stress, t.disp, threshold) {
        let ticks = seq![t];
        assert(left == 1 ==> w.run_ends(t.x, t.draws, mode, threshold, t.disp, 0));
        assert(run_course(w, x, draws, mode, threshold, stress, ticks));
    } else {
        let m = (left - 1) as nat;
        law_run_steps(w, t.x, t.draws, mode, threshold, t.disp, m);
        let rest = choose|ticks: Seq<Tick>|
            {
                &&& #[trigger] run_course(w, t.x, t.draws, mode, threshold, t.disp, ticks)
                &&& ticks.len() <= m
                &&& ticks.len() < m ==> ends_calm(ticks, t.disp, threshold)
                &&& w.run(t.x, t.draws, mode, threshold, t.disp, m) == ticks.last()
                &&& w.run_ends(t.x, t.draws, mode, threshold, t.disp, m) == all_end(
                    w,
                    t.x,
                    t.draws,
                    mode,
                    ticks,
                )
            };
        let ticks = seq![t] + rest;
        assert(ticks[0] == t);
        assert forall|i: int| 0 < i < ticks.len() implies #[trigger] ticks[i] == rest[i - 1] by {}
        assert forall|i: int, j: int|
            0 <= i && j == i + 1 && j < ticks.len() implies #[trigger] ticks[j] == w.tick(
            (#[trigger] ticks[i]).x,
            ticks[i].draws,
            mode,
        ) by {
            if i > 0 {
                assert(rest[j - 1] == w.tick(rest[i - 1].x, rest[i - 1].draws, mode));
            }
        }
        assert forall|i: int, j: int|
            0 <= i && j == i + 1 && j < ticks.len() - 1 implies !calm(
            (#[trigger] ticks[i]).disp,
            (#[trigger] ticks[j]).disp,
            threshold,
        ) by {
            if i > 0 {
                assert(!calm(rest[i - 1].disp, rest[j - 1].disp, threshold));
            }
        }
        assert(run_course(w, x, draws, mode, threshold, stress, ticks));
        assert(ticks.last() == rest.last());
        if all_end(w, t.x, t.draws, mode, rest) && w.tick_ends(x, draws, mode) {
            assert forall|i: int| 0 <= i < ticks.len() - 1 implies w.tick_ends(
                (#[trigger] ticks[i]).x,
                ticks[i].draws,
                mode,
            ) by {
                if i > 0 {
                    assert(w.tick_ends(rest[i - 1].x, rest[i - 1].draws, mode));
                }
            }
        }
        if all_end(w, x, draws, mode, ticks) {
            assert(w.tick_ends(ticks[0].x, ticks[0].draws, mode));
            assert forall|i: int| 0 <= i < rest.len() - 1 implies w.tick_ends(
                (#[trigger] rest[i]).x,
                rest[i].draws,
                mode,
            ) by {
                assert(ticks[i + 1] == rest[i]);
            }
        }
    }
}

/// What steps of the integrator leave of a context: the positions, the generator, and the gradient
/// and the active pairs where the last gradient was taken. Soft locks are gone and the diagonal is
/// no longer tracked; everything else is kept.
pub proof fn law_after_steps(s: State, t: Tick)
    ensures
        s.after(t).x == t.x,
        s.after(t).draws == t.draws,
        s.after(t).g == s.graph.gradients(t.at),
        s.after(t).active == s.graph.active_pairs(t.at),
        s.after(t).lock_us.len() == 0,
        !s.after(t).track_huu,
        s.after(t).graph == s.graph,
        s.after(t).min_d == s.min_d,
        s.after(t).locks == s.locks,
        s.after(t).huu == s.huu,
        s.after(t).max_h == s.max_h,
        s.world().graph == s.graph,
        s.world().min_d == s.min_d,
        s.world().locks == s.locks,
{
}

} // verus!
