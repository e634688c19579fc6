//! Offsets that move coincident nodes apart.
//!
//! The offsets come from the PCG32 generator with a fixed seed, so a run is reproducible. A
//! generator is held as the number of outputs that were taken from it.
use crate::binary32::{lit, size, Binary32};
use crate::rounding::{
    lemma_magnitude_order, lemma_round_at_least, lemma_round_at_most, lemma_round_near,
    magnitude_value,
};
use rand::RngCore;
use rand_pcg::Pcg32;
use vstd::arithmetic::power2::{lemma2_to64, lemma_pow2_adds, lemma_pow2_pos, pow2};
use vstd::prelude::*;

verus! {

/// The state that the generator starts from.
pub const SEED: u64 = 0xcafe_f00d_d15e_a5e5;

/// The stream of the generator.
pub const STREAM: u64 = 0xa02_bdbf_7bb3_c0a7;

/// The pattern of one.
pub const ONE: u32 = 0x3f80_0000;

/// The pattern of one half.
pub const HALF: u32 = 0x3f00_0000;

/// The pattern of one hundredth, the lower end of the sampled range.
pub const LOW: u32 = 0x3c23_d70a;

/// Output `index`, counted from zero, of the PCG32 generator made from `state` and `stream`.
pub uninterp spec fn pcg32_output(state: u64, stream: u64, index: u64) -> u32;

/// Output `index` of `rand_pcg::Pcg32::new(state, stream)`: the generator is made, its `advance`
/// skips `index` outputs, and `next_u32` gives the next one. The generator is a pure function of
/// the two seed words and of the number of steps, whose period is two to the 64th, so the output
/// is named by these three alone.
#[verifier::external_body]
fn pcg32_draw(state: u64, stream: u64, index: u64) -> (r: u32)
    ensures
        r == pcg32_output(state, stream, index),
{
    let mut generator = Pcg32::new(state, stream);
    generator.advance(index);
    generator.next_u32()
}

/// The raw output number `index` of the generator that displaces nodes.
pub open spec fn raw_draw(index: u64) -> u32 {
    pcg32_output(SEED, STREAM, index)
}

/// A number of the half open interval from zero to one with the upper 23 bits of `raw` as its
/// binary digits.
pub open spec fn unit_sample(raw: u32) -> Binary32 {
    lit((ONE + raw / 512) as u32).minus(lit(ONE))
}

/// The sample of the half open interval from one hundredth to one that `raw` stands for.
pub open spec fn uniform_sample(raw: u32) -> Binary32 {
    unit_sample(raw).times(lit(ONE).minus(lit(LOW))).plus(lit(LOW))
}

/// A displacement in the direction of two centred samples, scaled to the length `min_d`.
pub open spec fn offset_of(min_d: Binary32, raw_x: u32, raw_y: u32) -> (Binary32, Binary32) {
    let x = uniform_sample(raw_x).minus(lit(HALF));
    let y = uniform_sample(raw_y).minus(lit(HALF));
    let length = lit(0).plus(x.times(x)).plus(y.times(y)).root();
    (x.times(min_d.over(length)), y.times(min_d.over(length)))
}

/// The exact value of a normal number from its significand and exponent.
proof fn lemma_value(bits: u32, m: nat, e: nat)
    requires
        bits < 0x7f80_0000,
        bits == e * 0x80_0000 + m,
        0x80_0000 <= m < 0x100_0000,
    ensures
        lit(bits).value() == m * pow2(e),
        magnitude_value(bits as nat) == m * pow2(e),
        lit(bits).magnitude() == bits,
        !lit(bits).negative(),
        lit(bits).finite(),
{
    assert(bits / 0x80_0000 == e + 1);
    assert(bits % 0x80_0000 == m - 0x80_0000);
}

/// Every sample lies in the half open interval from one hundredth to one, so that one output of
/// the generator is enough for one sample.
pub proof fn law_uniform_sample_range(raw: u32)
    ensures
        lit(LOW).at_most(uniform_sample(raw)),
        uniform_sample(raw).less(lit(ONE)),
{
    reveal(Binary32::plus);
    reveal(Binary32::times);
    lemma2_to64();
    let k = (raw / 512) as nat;
    assert(k < 0x80_0000);
    let p = pow2(119);
    lemma_pow2_pos(119);
    lemma_pow2_adds(119, 7);
    lemma_pow2_adds(119, 6);
    lemma_value(ONE, 0x80_0000, 126);
    lemma_value(LOW, 0xa3_d70a, 119);
    lemma_value((ONE + k) as u32, 0x80_0000 + k, 126);
    // The digits alone.
    let unit = unit_sample(raw);
    let exact_unit = (k * pow2(126)) as int;
    assert((0x80_0000 + k) * pow2(126) - 0x80_0000 * pow2(126) == exact_unit) by (nonlinear_arith)
        requires
            exact_unit == k * pow2(126),
    ;
    let neg_one = lit(ONE).negated();
    assert(neg_one.bits == 0xbf80_0000);
    assert(neg_one.magnitude() == ONE);
    assert(neg_one.negative());
    assert(neg_one.value() == -(lit(ONE).value()));
    lemma_value(0x3f7f_fffe, 0xff_fffe, 125);
    assert(exact_unit <= 0xff_fffe * pow2(125)) by (nonlinear_arith)
        requires
            exact_unit == k * pow2(126),
            k <= 0x7f_ffff,
            pow2(126) == p * 0x80,
            pow2(125) == p * 0x40,
    ;
    assert(exact_unit >= 0) by (nonlinear_arith)
        requires
            exact_unit == k * pow2(126),
            pow2(126) == p * 0x80,
            p > 0,
    ;
    lemma_round_at_most(size(exact_unit), 1, 0x3f7f_fffe);
    assert(!unit.negative() && unit.magnitude() <= 0x3f7f_fffe);
    // The width of the interval.
    let width = lit(ONE).minus(lit(LOW));
    let neg_low = lit(LOW).negated();
    assert(neg_low.bits == 0xbc23_d70a);
    assert(neg_low.magnitude() == LOW);
    assert(neg_low.negative());
    let exact_width = lit(ONE).value() + neg_low.value();
    assert(exact_width == 1063004406 * p) by (nonlinear_arith)
        requires
            exact_width == 0x80_0000 * pow2(126) - 0xa3_d70a * p,
            pow2(126) == p * 0x80,
    ;
    lemma_value(0x3f7d_70a4, 0xfd_70a4, 125);
    assert(0xfd_70a4 * pow2(125) == 1063004416 * p) by (nonlinear_arith)
        requires
            pow2(125) == p * 0x40,
    ;
    lemma_round_at_most(size(exact_width), 1, 0x3f7d_70a4);
    assert(!width.negative() && width.magnitude() <= 0x3f7d_70a4);
    // Their product.
    let product = unit.times(width);
    let u = size(unit.value());
    let w = size(width.value());
    lemma_magnitude_order(0x3f7f_fffe, unit.magnitude());
    lemma_magnitude_order(0x3f7d_70a4, width.magnitude());
    let a = pow2(125);
    lemma_pow2_adds(101, 24);
    lemma_pow2_adds(125, 24);
    lemma_pow2_pos(149);
    lemma_value(0x3f7d_70a3, 0xfd_70a3, 125);
    assert(u * w <= (0xff_fffe * a) * (0xfd_70a4 * a)) by (nonlinear_arith)
        requires
            0 <= u <= 0xff_fffe * a,
            0 <= w <= 0xfd_70a4 * a,
    ;
    assert((0xff_fffe * a) * (0xfd_70a4 * a) <= (0xfd_70a3 * a) * (a * 0x100_0000))
        by (nonlinear_arith)
        requires
            a >= 0,
    ;
    lemma_round_at_most(u * w, pow2(149), 0x3f7d_70a3);
    assert(!product.negative() && product.magnitude() <= 0x3f7d_70a3);
    lemma_magnitude_order(0x3f7d_70a3, product.magnitude());
    // The shifted product.
    let exact = product.value() + lit(LOW).value();
    assert(exact >= 0xa3_d70a * p > 0) by (nonlinear_arith)
        requires
            exact == product.value() + 0xa3_d70a * p,
            product.value() >= 0,
            p > 0,
    ;
    assert(2 * exact < (2 * 0xff_ffff + 1) * pow2(125) * 1) by (nonlinear_arith)
        requires
            exact <= 0xfd_70a3 * pow2(125) + 0xa3_d70a * p,
            pow2(125) == p * 0x40,
            p > 0,
    ;
    lemma_round_near(size(exact), 1, 0xff_ffff, 125);
    lemma_round_at_least(size(exact), 1, LOW as nat);
}

/// The sample of the half open interval from one hundredth to one that `raw` stands for.
pub fn uniform_from(raw: u32) -> (r: Binary32)
    ensures
        r == uniform_sample(raw),
        lit(LOW).at_most(r),
        r.less(lit(ONE)),
{
    proof {
        law_uniform_sample_range(raw);
    }
    let one: Binary32 = Binary32::from_bits(ONE);
    let low: Binary32 = Binary32::from_bits(LOW);
    let unit: Binary32 = Binary32::from_bits(ONE + raw / 512) - one;
    unit * (one - low) + low
}

/// A displacement in the direction of two centred samples, scaled to the length `min_d`.
pub fn offset_from(min_d: Binary32, raw_x: u32, raw_y: u32) -> (r: (Binary32, Binary32))
    ensures
        r == offset_of(min_d, raw_x, raw_y),
{
    let half: Binary32 = Binary32::from_bits(HALF);
    let x: Binary32 = uniform_from(raw_x) - half;
    let y: Binary32 = uniform_from(raw_y) - half;
    let length: Binary32 = (Binary32::from_bits(0) + x * x + y * y).sqrt();
    let factor: Binary32 = min_d / length;
    (x * factor, y * factor)
}

/// The next displacement: it takes two outputs of the generator.
pub fn offset_dir(min_d: Binary32, draws: &mut u64) -> (r: (Binary32, Binary32))
    ensures
        r == offset_of(min_d, raw_draw(*old(draws)), raw_draw(old(draws).wrapping_add(1))),
        *final(draws) == old(draws).wrapping_add(2),
{
    let first: u64 = *draws;
    let raw_x: u32 = pcg32_draw(SEED, STREAM, first);
    let raw_y: u32 = pcg32_draw(SEED, STREAM, first.wrapping_add(1));
    *draws = first.wrapping_add(2);
    offset_from(min_d, raw_x, raw_y)
}

} // verus!
