use fast2d::binary32::Binary32;
use fast2d::model::{DISP_EPS, DISP_EPS_SQ, FOUR, INFINITY, LARGEST, SIX, TWO};
use fast2d::sampling::{offset_dir, offset_from, uniform_from, HALF, LOW, ONE, SEED, STREAM};
use rand::{Rng, RngCore};
use rand_pcg::Pcg32;

fn float(x: Binary32) -> f32 {
    f32::from_bits(x.to_bits())
}

#[test]
fn constants_have_their_patterns() {
    assert_eq!(f32::from_bits(ONE), 1.0);
    assert_eq!(f32::from_bits(HALF), 0.5);
    assert_eq!(f32::from_bits(LOW), 0.01);
    assert_eq!(f32::from_bits(TWO), 2.0);
    assert_eq!(f32::from_bits(FOUR), 4.0);
    assert_eq!(f32::from_bits(SIX), 6.0);
    assert_eq!(f32::from_bits(INFINITY), f32::INFINITY);
    assert_eq!(f32::from_bits(LARGEST), f32::MAX);
    let eps: f32 = 0.000000001;
    assert_eq!(eps.to_bits(), DISP_EPS);
    assert_eq!((eps * eps).to_bits(), DISP_EPS_SQ);
}

#[test]
fn samples_are_those_of_the_generator() {
    let mut raw = Pcg32::new(SEED, STREAM);
    let mut ranged = Pcg32::new(SEED, STREAM);
    for _ in 0..10_000 {
        let sample = uniform_from(raw.next_u32());
        assert_eq!(sample.to_bits(), ranged.gen_range(0.01f32..1.0).to_bits());
        assert!(0.01 <= float(sample) && float(sample) < 1.0);
    }
}

#[test]
fn extreme_outputs_stay_in_the_sampled_range() {
    assert_eq!(uniform_from(0).to_bits(), LOW);
    assert_eq!(uniform_from(511).to_bits(), LOW);
    assert_eq!(float(uniform_from(0x8000_0000)), 0.5 * (1.0 - 0.01) + 0.01);
    let greatest = float(uniform_from(u32::MAX));
    assert!(0.9999 < greatest && greatest < 1.0);
}

#[test]
fn offsets_take_two_outputs_each_in_turn() {
    let mut draws: u64 = 0;
    let mut raw = Pcg32::new(SEED, STREAM);
    for k in 0..1_000u64 {
        let min_d = Binary32::from_bits((0.125f32 * (k + 1) as f32).to_bits());
        let (x, y) = offset_dir(min_d, &mut draws);
        assert_eq!(draws, 2 * (k + 1));
        let (rx, ry) = (raw.next_u32(), raw.next_u32());
        let (ex, ey) = offset_from(min_d, rx, ry);
        assert_eq!(x.to_bits(), ex.to_bits());
        assert_eq!(y.to_bits(), ey.to_bits());
        let length = float(x).hypot(float(y));
        assert!((length / float(min_d) - 1.0).abs() < 0.00001);
    }
}

#[test]
fn the_count_of_outputs_wraps_with_the_period_of_the_generator() {
    let min_d = Binary32::from_bits(ONE);
    let mut before: u64 = u64::MAX - 1;
    let mut first: u64 = 0;
    offset_dir(min_d, &mut before);
    assert_eq!(before, 0);
    let a = offset_dir(min_d, &mut before);
    let b = offset_dir(min_d, &mut first);
    assert_eq!((a.0.to_bits(), a.1.to_bits()), (b.0.to_bits(), b.1.to_bits()));
}
