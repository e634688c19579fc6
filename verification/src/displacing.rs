//! How coincident nodes are displaced, told node by node.
use crate::accuracy::{
    law_minus_rounded, law_plus_rounded, law_times_rounded, lemma_exact_plus, lemma_negated,
    lemma_room, on_grid, rounded, rounded_product, unit,
};
use crate::binary32::{lit, Binary32};
use crate::model::{dist2, separated};
use crate::motion::{
    crowded, displaced, displaced_times, drifted, drifted_row, ended, ends, ends_after, nudged,
    rounds, settled, touching, Drift,
};
use crate::rounding::{lemma_pattern_value, lemma_pow2_monotone, magnitude_value};
use crate::sampling::{offset_of, pcg32_output, raw_draw, uniform_sample, unit_sample};
use crate::settling::{law_settled, lemma_settled_here, lemma_settled_next};
use vstd::arithmetic::div_mod::lemma_fundamental_div_mod_converse;
use vstd::arithmetic::power2::{lemma2_to64, lemma_pow2_adds, lemma_pow2_pos, pow2};
use vstd::prelude::*;

verus! {

/// Whether two different nodes are no further apart than the least distance that counts.
pub open spec fn coincide(n: nat, x: Seq<Binary32>, u: int, v: int) -> bool {
    u != v && !lit(0x3089_705f).less(dist2(n, x, u, v).root())
}

/// How many nodes before `end` coincide with `u`.
pub open spec fn row_hits(n: nat, x: Seq<Binary32>, u: int, end: nat) -> nat
    decreases end,
{
    if end == 0 {
        0
    } else {
        row_hits(n, x, u, (end - 1) as nat) + if coincide(n, x, u, end - 1) {
            1nat
        } else {
            0
        }
    }
}

/// How many ordered pairs of coincident nodes there are whose first node is before `r`.
pub open spec fn hits(n: nat, x: Seq<Binary32>, r: nat) -> nat
    decreases r,
{
    if r == 0 {
        0
    } else {
        hits(n, x, (r - 1) as nat) + row_hits(n, x, r - 1, n)
    }
}

/// Output `k`, counted from those already taken, of the generator with the fixed seed and stream.
pub open spec fn output(draws: u64, k: nat) -> u32 {
    pcg32_output(
        0xcafe_f00d_d15e_a5e5,
        0xa02_bdbf_7bb3_c0a7,
        ((draws + k) % 0x1_0000_0000_0000_0000) as u64,
    )
}

/// The offset of the node `v` away from `u`: each ordered pair of coincident nodes takes two outputs
/// of the generator, in the order of the pairs.
pub open spec fn shift(
    n: nat,
    x: Seq<Binary32>,
    min_d: Binary32,
    draws: u64,
    u: nat,
    v: nat,
) -> (Binary32, Binary32) {
    let place = hits(n, x, u) + row_hits(n, x, u as int, v);
    offset_of(min_d, output(draws, 2 * place), output(draws, 2 * place + 1))
}

/// The position of the node `v` after the offsets away from those of the first `r` nodes that
/// coincide with it.
pub open spec fn pushed(
    n: nat,
    x: Seq<Binary32>,
    min_d: Binary32,
    draws: u64,
    v: nat,
    r: nat,
) -> (Binary32, Binary32)
    decreases r,
{
    if r == 0 {
        (x[v as int], x[(n + v) as int])
    } else {
        let (px, py) = pushed(n, x, min_d, draws, v, (r - 1) as nat);
        if coincide(n, x, r - 1, v as int) {
            let (ox, oy) = shift(n, x, min_d, draws, (r - 1) as nat, v);
            (px.plus(ox), py.plus(oy))
        } else {
            (px, py)
        }
    }
}

/// Whether the node `v` has its position after the offsets away from the first `r` nodes.
spec fn node_at(
    n: nat,
    x: Seq<Binary32>,
    min_d: Binary32,
    draws: u64,
    to: Seq<Binary32>,
    v: nat,
    r: nat,
) -> bool {
    (to[v as int], to[(n + v) as int]) == pushed(n, x, min_d, draws, v, r)
}

/// What holds of the positions amid a round: rows before `r` are done, and row `r` up to `end`.
spec fn amid(
    n: nat,
    x: Seq<Binary32>,
    min_d: Binary32,
    draws: u64,
    d: Drift,
    r: nat,
    end: nat,
) -> bool {
    &&& d.x.len() == x.len()
    &&& d.draws == (draws + 2 * (hits(n, x, r) + row_hits(n, x, r as int, end)))
        % 0x1_0000_0000_0000_0000
    &&& forall|v: nat| v < end ==> #[trigger] node_at(n, x, min_d, draws, d.x, v, r + 1)
    &&& forall|v: nat| end <= v < n ==> #[trigger] node_at(n, x, min_d, draws, d.x, v, r)
    &&& forall|i: int| 2 * n <= i < x.len() ==> #[trigger] d.x[i] == x[i]
}

proof fn lemma_next_outputs(draws: u64, now: u64, k: nat)
    requires
        now == (draws + 2 * k) % 0x1_0000_0000_0000_0000,
    ensures
        raw_draw(now) == output(draws, 2 * k),
        raw_draw(now.wrapping_add(1)) == output(draws, 2 * k + 1),
        now.wrapping_add(2) == (draws + 2 * (k + 1)) % 0x1_0000_0000_0000_0000,
{
}

proof fn lemma_row(
    n: nat,
    x: Seq<Binary32>,
    min_d: Binary32,
    draws: u64,
    d: Drift,
    r: nat,
    end: nat,
)
    requires
        2 * n <= x.len(),
        r < n,
        end <= n,
        amid(n, x, min_d, draws, d, r, 0),
    ensures
        amid(n, x, min_d, draws, drifted_row(n, x, min_d, d, r as int, end), r, end),
    decreases end,
{
    if end > 0 {
        let e = (end - 1) as nat;
        lemma_row(n, x, min_d, draws, d, r, e);
        let before = drifted_row(n, x, min_d, d, r as int, e);
        let now = drifted_row(n, x, min_d, d, r as int, end);
        let place = hits(n, x, r) + row_hits(n, x, r as int, e);
        assert(touching(n, x, r as int, end - 1) == coincide(n, x, r as int, end - 1));
        if coincide(n, x, r as int, end - 1) {
            assert(now == nudged(n, min_d, before, end - 1));
            lemma_next_outputs(draws, before.draws, place);
        }
        assert(node_at(n, x, min_d, draws, before.x, e, r));
        assert forall|v: nat| v < end implies #[trigger] node_at(
            n,
            x,
            min_d,
            draws,
            now.x,
            v,
            r + 1,
        ) by {
            if v < e {
                assert(node_at(n, x, min_d, draws, before.x, v, r + 1));
            }
        }
        assert forall|v: nat| end <= v < n implies #[trigger] node_at(
            n,
            x,
            min_d,
            draws,
            now.x,
            v,
            r,
        ) by {
            assert(node_at(n, x, min_d, draws, before.x, v, r));
        }
    }
}

proof fn lemma_rows(n: nat, min_d: Binary32, d: Drift, r: nat)
    requires
        2 * n <= d.x.len(),
        r <= n,
    ensures
        amid(n, d.x, min_d, d.draws, drifted(n, d.x, min_d, d, r), r, 0),
    decreases r,
{
    if r > 0 {
        let m = (r - 1) as nat;
        lemma_rows(n, min_d, d, m);
        let before = drifted(n, d.x, min_d, d, m);
        let now = drifted(n, d.x, min_d, d, r);
        lemma_row(n, d.x, min_d, d.draws, before, m, n);
        assert forall|v: nat| 0 <= v < n implies #[trigger] node_at(
            n,
            d.x,
            min_d,
            d.draws,
            now.x,
            v,
            r,
        ) by {
            assert(node_at(n, d.x, min_d, d.draws, now.x, v, m + 1));
        }
    }
}

/// One round of displacements, told node by node and for any number of nodes: each node moves by one
/// offset for every other node that coincided with it before the round, in the order of these, and
/// the generator gives two outputs for each ordered pair of coincident nodes. What follows the
/// coordinates is kept.
pub proof fn law_round(n: nat, min_d: Binary32, d: Drift, v: nat)
    requires
        2 * n <= d.x.len(),
        v < n,
    ensures
        ({
            let to = displaced(n, min_d, d);
            &&& to.x.len() == d.x.len()
            &&& (to.x[v as int], to.x[(n + v) as int]) == pushed(n, d.x, min_d, d.draws, v, n)
            &&& to.draws == (d.draws + 2 * hits(n, d.x, n)) % 0x1_0000_0000_0000_0000
            &&& forall|i: int| 2 * n <= i < d.x.len() ==> #[trigger] to.x[i] == d.x[i]
        }),
{
    lemma_rows(n, min_d, d, n);
    let to = displaced(n, min_d, d);
    assert(node_at(n, d.x, min_d, d.draws, to.x, v, n));
}

proof fn lemma_unpushed(
    n: nat,
    x: Seq<Binary32>,
    min_d: Binary32,
    draws: u64,
    v: nat,
    from: nat,
    to: nat,
)
    requires
        from <= to,
        forall|u: int| from <= u < to ==> !#[trigger] coincide(n, x, u, v as int),
    ensures
        pushed(n, x, min_d, draws, v, to) == pushed(n, x, min_d, draws, v, from),
    decreases to - from,
{
    if from < to {
        lemma_unpushed(n, x, min_d, draws, v, from, (to - 1) as nat);
        assert(!coincide(n, x, to - 1, v as int));
    }
}

/// A node that coincides with no other stays where it is in a round of displacements, and one that
/// coincides with just one other moves by one offset.
pub proof fn law_round_moves(n: nat, min_d: Binary32, d: Drift, v: nat, u: nat)
    requires
        2 * n <= d.x.len(),
        v < n,
        u < n,
        forall|t: int| 0 <= t < n && t != u ==> !#[trigger] coincide(n, d.x, t, v as int),
    ensures
        ({
            let to = displaced(n, min_d, d).x;
            let (ox, oy) = shift(n, d.x, min_d, d.draws, u, v);
            if coincide(n, d.x, u as int, v as int) {
                &&& to[v as int] == d.x[v as int].plus(ox)
                &&& to[(n + v) as int] == d.x[(n + v) as int].plus(oy)
            } else {
                &&& to[v as int] == d.x[v as int]
                &&& to[(n + v) as int] == d.x[(n + v) as int]
            }
        }),
{
    law_round(n, min_d, d, v);
    lemma_unpushed(n, d.x, min_d, d.draws, v, 0, u);
    lemma_unpushed(n, d.x, min_d, d.draws, v, u + 1, n);
}

/// Whether no more displacing is due: all nodes are apart by their squared distances, or all are so
/// by their distances.
pub open spec fn at_rest(n: nat, x: Seq<Binary32>) -> bool {
    ||| forall|u: int, v: int|
        0 <= u < v < n ==> !(#[trigger] dist2(n, x, u, v)).at_most(lit(0x2193_92ee))
    ||| forall|u: int, v: int| 0 <= u < n && 0 <= v < n ==> !#[trigger] coincide(n, x, u, v)
}

proof fn lemma_at_rest(n: nat, x: Seq<Binary32>)
    ensures
        at_rest(n, x) == ended(n, x),
{
    assert forall|u: int, v: int| #[trigger] coincide(n, x, u, v) == touching(n, x, u, v) by {}
    if at_rest(n, x) && !separated(n, x) && crowded(n, x) {
        let (u, v) = choose|u: int, v: int|
            0 <= u < n && 0 <= v < n && #[trigger] touching(n, x, u, v);
        assert(coincide(n, x, u, v));
        assert(!at_rest(n, x));
    }
}

/// Whether each of the drifts is one round of displacements after the one before, and only the last
/// is at rest.
pub open spec fn settling_course(n: nat, min_d: Binary32, course: Seq<Drift>) -> bool {
    &&& course.len() > 0
    &&& forall|i: int, j: int|
        0 <= i && j == i + 1 && j < course.len() ==> #[trigger] course[j] == displaced(
            n,
            min_d,
            #[trigger] course[i],
        )
    &&& forall|i: int| 0 <= i < course.len() - 1 ==> !at_rest(n, (#[trigger] course[i]).x)
    &&& at_rest(n, course.last().x)
}

proof fn lemma_course(n: nat, min_d: Binary32, d: Drift, k: nat)
    requires
        ends_after(n, min_d, d, k),
    ensures
        exists|course: Seq<Drift>|
            {
                &&& #[trigger] settling_course(n, min_d, course)
                &&& course[0] == d
                &&& course.last() == displaced_times(n, min_d, d, k)
            },
    decreases k,
{
    assert(displaced_times(n, min_d, d, 0) == d);
    lemma_at_rest(n, d.x);
    if k == 0 {
        let course = seq![d];
        assert(settling_course(n, min_d, course));
    } else {
        let m = (k - 1) as nat;
        let next = displaced(n, min_d, d);
        assert(displaced_times(n, min_d, next, m) == displaced_times(n, min_d, d, k));
        assert forall|j: nat| j < m implies !ended(
            n,
            (#[trigger] displaced_times(n, min_d, next, j)).x,
        ) by {
            assert(displaced_times(n, min_d, d, j + 1) == displaced_times(n, min_d, next, j));
        }
        lemma_course(n, min_d, next, m);
        let rest = choose|course: Seq<Drift>|
            {
                &&& #[trigger] settling_course(n, min_d, course)
                &&& course[0] == next
                &&& course.last() == displaced_times(n, min_d, next, m)
            };
        let course = seq![d] + rest;
        assert(course[0] == d);
        assert forall|i: int| 0 < i < course.len() implies #[trigger] course[i] == rest[i - 1] by {}
        assert forall|i: int, j: int|
            0 <= i && j == i + 1 && j < course.len() implies #[trigger] course[j] == displaced(
            n,
            min_d,
            #[trigger] course[i],
        ) by {
            if i > 0 {
                assert(rest[j - 1] == displaced(n, min_d, rest[i - 1]));
            }
        }
        assert(!ended(n, displaced_times(n, min_d, d, 0).x));
        assert forall|i: int| 0 <= i < course.len() - 1 implies !at_rest(
            n,
            (#[trigger] course[i]).x,
        ) by {
            if i > 0 {
                assert(!at_rest(n, rest[i - 1].x));
            }
        }
        assert(course.last() == rest.last());
        assert(settling_course(n, min_d, course));
    }
}

/// Where displacing ends, the nodes settle by round after round, and stop as soon as they are at
/// rest.
pub proof fn law_settling_course(n: nat, min_d: Binary32, d: Drift)
    requires
        ends(n, min_d, d),
    ensures
        exists|course: Seq<Drift>|
            {
                &&& #[trigger] settling_course(n, min_d, course)
                &&& course[0] == d
                &&& course.last() == settled(n, min_d, d)
            },
{
    law_settled(n, min_d, d);
    lemma_course(n, min_d, d, rounds(n, min_d, d));
}

/// Wherever round after round leads to rest, displacing ends, and it ends there.
pub proof fn law_course_settles(n: nat, min_d: Binary32, course: Seq<Drift>)
    requires
        settling_course(n, min_d, course),
    ensures
        ends(n, min_d, course[0]),
        settled(n, min_d, course[0]) == course.last(),
    decreases course.len(),
{
    let d = course[0];
    lemma_at_rest(n, d.x);
    if course.len() == 1 {
        lemma_settled_here(n, min_d, d);
    } else {
        let rest = course.drop_first();
        assert forall|i: int| 0 <= i < rest.len() implies #[trigger] rest[i] == course[i + 1] by {}
        assert forall|i: int, j: int|
            0 <= i && j == i + 1 && j < rest.len() implies #[trigger] rest[j] == displaced(
            n,
            min_d,
            #[trigger] rest[i],
        ) by {
            assert(course[j + 1] == displaced(n, min_d, course[i + 1]));
        }
        assert forall|i: int| 0 <= i < rest.len() - 1 implies !at_rest(
            n,
            (#[trigger] rest[i]).x,
        ) by {
            assert(!at_rest(n, course[i + 1].x));
        }
        assert(rest.last() == course.last());
        law_course_settles(n, min_d, rest);
        assert(course[1] == displaced(n, min_d, course[0]));
        assert(!at_rest(n, course[0].x));
        lemma_settled_next(n, min_d, d);
    }
}

/// Whether the numbers are those of a sample: `m` is the rounded product of the digits and the width
/// of the interval.
pub open spec fn sampled(v: int, digits: int, width: int, low: int, m: int) -> bool {
    rounded_product(m, digits, width) && rounded(v, m + low)
}

/// A sample is one hundredth, plus 0.99 times the number whose binary digits are the upper 23 bits of
/// the output, but for rounding.
pub proof fn law_sample_value(raw: u32)
    ensures
        unit_sample(raw).finite(),
        unit_sample(raw).value() * 0x80_0000 == (raw / 512) * unit(),
        lit(0x3c23_d70a).value() == 0xa3_d70a * pow2(119),
        uniform_sample(raw).finite(),
        exists|width: int, m: int|
            {
                &&& #[trigger] sampled(
                    uniform_sample(raw).value(),
                    unit_sample(raw).value(),
                    width,
                    lit(0x3c23_d70a).value(),
                    m,
                )
                &&& rounded(width, unit() - lit(0x3c23_d70a).value())
            },
{
    let one = lit(0x3f80_0000);
    let low = lit(0x3c23_d70a);
    let k = (raw / 512) as nat;
    let top = lit((0x3f80_0000 + k) as u32);
    lemma2_to64();
    lemma_pattern_value(126, 0x80_0000);
    lemma_pattern_value(126, 0x80_0000 + k);
    lemma_pattern_value(119, 0xa3_d70a);
    let e = pow2(126);
    lemma_pow2_pos(126);
    lemma_pow2_pos(119);
    lemma_pow2_adds(126, 23);
    lemma_pow2_adds(119, 30);
    lemma_pow2_adds(149, 1);
    lemma_pow2_monotone(149, 250);
    lemma_room();
    assert(top.value() == (0x80_0000 + k) * e);
    assert(one.value() == 0x80_0000 * e);
    assert((0x80_0000 + k) * e - 0x80_0000 * e == k * e) by (nonlinear_arith);
    lemma_negated(one);
    assert(top.value() + one.negated().value() == k * e);
    assert(unit() == 0x80_0000 * e) by (nonlinear_arith)
        requires
            pow2(126) * pow2(23) == unit(),
            pow2(23) == 0x80_0000,
            e == pow2(126),
    ;
    assert(unit() == pow2(119) * 0x4000_0000) by (nonlinear_arith)
        requires
            pow2(119) * pow2(30) == unit(),
            pow2(30) == 0x4000_0000,
    ;
    assert(0 <= k * e) by (nonlinear_arith)
        requires
            e > 0,
            k >= 0,
    ;
    assert(on_grid((k * e) as int, 126)) by {
        lemma_fundamental_div_mod_converse((k * e) as int, e as int, k as int, 0);
    }
    assert(k * e <= 0x80_0000 * e) by (nonlinear_arith)
        requires
            k < 0x80_0000,
            e > 0,
    ;
    assert(0x80_0000 * e <= pow2(260));
    lemma_exact_plus(top, one.negated(), 126);
    let digits = unit_sample(raw);
    assert(digits.value() == k * e);
    assert((k * e) * 0x80_0000 == k * (0x80_0000 * e)) by (nonlinear_arith);
    let width = one.minus(low);
    law_minus_rounded(one, low);
    assert(0xa3_d70a * pow2(119) <= unit()) by (nonlinear_arith)
        requires
            unit() == pow2(119) * 0x4000_0000,
            pow2(119) > 0,
    ;
    assert(0 <= width.value() <= 2 * unit());
    law_times_rounded(digits, width);
    let m = digits.times(width);
    let (a, b, u) = (digits.value(), width.value(), unit() as int);
    assert(a * b <= 2 * u * u && a * b >= 0) by (nonlinear_arith)
        requires
            0 <= a <= u,
            0 <= b <= 2 * u,
    ;
    assert(2 * u * u <= pow2(260) * unit()) by (nonlinear_arith)
        requires
            2 * u <= pow2(260),
            u == unit(),
            u > 0,
    ;
    law_plus_rounded(m, low);
    let v = m.value();
    assert(v >= 0);
    assert(0x100_0000 * (v * u) <= 0x100_0000 * (a * b) + a * b + 0x80_0000 * u);
    assert(v <= 4 * u) by (nonlinear_arith)
        requires
            0x100_0000 * (v * u) <= 0x100_0000 * (a * b) + a * b + 0x80_0000 * u,
            a * b <= 2 * u * u,
            u > 1,
    ;
    assert(sampled(uniform_sample(raw).value(), a, b, low.value(), v));
}

/// Whether a number is a product, but for rounding.
pub open spec fn is_multiple(o: Binary32, x: Binary32, f: Binary32) -> bool {
    &&& o == x.times(f)
    &&& x.finite() && f.finite() && o.finite() ==> rounded_product(
        o.value(),
        x.value(),
        f.value(),
    )
}

proof fn lemma_is_multiple(x: Binary32, f: Binary32)
    ensures
        is_multiple(x.times(f), x, f),
{
    if x.finite() && f.finite() {
        law_times_rounded(x, f);
    }
}

/// A sum of squares, its root and what is positive over it have no sign.
proof fn lemma_factor_sign(x: Binary32, y: Binary32, m: Binary32)
    requires
        !m.negative(),
    ensures
        !m.over(lit(0).plus(x.times(x)).plus(y.times(y)).root()).negative(),
{
    reveal(Binary32::times);
    reveal(Binary32::plus);
    reveal(Binary32::root);
    reveal(Binary32::over);
    assert(magnitude_value(0) == 0);
    let (xx, yy) = (x.times(x), y.times(y));
    lemma_unsigned(xx);
    lemma_unsigned(yy);
    let s = lit(0).plus(xx);
    lemma_unsigned(s);
}

proof fn lemma_unsigned(a: Binary32)
    ensures
        !a.negative() ==> a.value() >= 0,
{
}

/// An offset points in the direction of the two samples, each less one half: it is their multiple by
/// the displacement length over the length of the direction, a factor that is not below zero, but
/// for rounding.
pub proof fn law_offset_direction(min_d: Binary32, raw_x: u32, raw_y: u32)
    requires
        min_d.finite(),
        lit(0).less(min_d),
    ensures
        ({
            let (ox, oy) = offset_of(min_d, raw_x, raw_y);
            let x = uniform_sample(raw_x).minus(lit(0x3f00_0000));
            let y = uniform_sample(raw_y).minus(lit(0x3f00_0000));
            let f = min_d.over(lit(0).plus(x.times(x)).plus(y.times(y)).root());
            is_multiple(ox, x, f) && is_multiple(oy, y, f) && !f.negative()
        }),
{
    let x = uniform_sample(raw_x).minus(lit(0x3f00_0000));
    let y = uniform_sample(raw_y).minus(lit(0x3f00_0000));
    let f = min_d.over(lit(0).plus(x.times(x)).plus(y.times(y)).root());
    lemma_is_multiple(x, f);
    lemma_is_multiple(y, f);
    lemma_factor_sign(x, y, min_d);
}

/// The operations of a sample in the order in which they are rounded: the upper 23 bits of the output
/// become the fraction of a number from one to two, one is taken away, and the rest is stretched to
/// the interval from one hundredth to one.
pub proof fn law_sample_operations(raw: u32)
    ensures
        ({
            let one = lit(0x3f80_0000);
            let low = lit(0x3c23_d70a);
            let digits = lit((0x3f80_0000 + raw / 512) as u32).minus(one);
            uniform_sample(raw) == digits.times(one.minus(low)).plus(low)
        }),
{
}

} // verus!
