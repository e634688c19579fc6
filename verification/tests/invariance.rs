use fast2d::api::{
    fast_compute, fast_create, fast_g_ptr, fast_run, fast_set_g, fast_set_locks, fast_set_x,
    fast_step_size, fast_tick, fast_try_compute, fast_try_run, fast_try_tick, fast_x_ptr,
};
use fast2d::binary32::Binary32;
use fast2d::context::FastCtx;
use fast2d::countdown::Countdown;
use fast2d::engine::settles;
use fast2d::sampling::offset_from;

fn soft(x: &[f32]) -> Vec<Binary32> {
    x.iter().map(|e| Binary32::from_bits(e.to_bits())).collect()
}

fn one(x: f32) -> Binary32 {
    Binary32::from_bits(x.to_bits())
}

fn float(x: Binary32) -> f32 {
    f32::from_bits(x.to_bits())
}

fn floats(x: &Vec<Binary32>) -> Vec<f32> {
    x.iter().map(|e| float(*e)).collect()
}

fn records(ctx: &FastCtx) -> Vec<(u16, u16, f32, f32)> {
    ctx.active().iter().map(|p| (p.u, p.v, float(p.idk_x), float(p.idk_y))).collect()
}

const DISTANCES: [f32; 16] = [
    0.0, 1.0, 2.0, 1.5, 1.0, 0.0, 1.25, 0.0, 2.0, 1.25, 0.0, 3.0, 1.5, 0.0, 3.0, 0.0,
];

const WEIGHTS: [f32; 16] = [
    0.0, 1.0, 2.0, 2.0, 1.0, 0.0, 1.0, 2.0, 2.0, 1.0, 0.0, 2.0, 2.0, 2.0, 2.0, 0.0,
];

const POSITIONS: [f32; 8] = [0.25, 1.5, -0.75, 0.5, 0.125, 1.0, 0.5, -1.25];

fn computed(d: &[f32], w: &[f32], x: &[f32]) -> FastCtx {
    let mut ctx = fast_create(4, soft(d));
    fast_set_g(&mut ctx, soft(w));
    fast_compute(&mut ctx, soft(x));
    ctx
}

#[test]
fn mirrored_positions_turn_the_gradient() {
    let mirrored: Vec<f32> = POSITIONS.iter().map(|e| -e).collect();
    for w in [&WEIGHTS[..], &[]] {
        let a = computed(&DISTANCES, w, &POSITIONS);
        let b = computed(&DISTANCES, w, &mirrored);
        assert_eq!(records(&a), records(&b));
        let turned: Vec<f32> = floats(fast_g_ptr(&b)).iter().map(|e| -e).collect();
        assert_eq!(floats(fast_g_ptr(&a)), turned);
    }
}

#[test]
fn exchanged_axes_exchange_the_gradient() {
    let exchanged = [&POSITIONS[4..], &POSITIONS[..4]].concat();
    for w in [&WEIGHTS[..], &[]] {
        let a = computed(&DISTANCES, w, &POSITIONS);
        let b = computed(&DISTANCES, w, &exchanged);
        let turned: Vec<_> = records(&b).iter().map(|p| (p.0, p.1, p.3, p.2)).collect();
        assert_eq!(records(&a), turned);
        let g = floats(fast_g_ptr(&b));
        assert_eq!(floats(fast_g_ptr(&a)), [&g[4..], &g[..4]].concat());
    }
}

#[test]
fn doubled_layouts_have_half_the_gradient_and_four_times_the_step() {
    let d: Vec<f32> = DISTANCES.iter().map(|e| 2.0 * e).collect();
    let x: Vec<f32> = POSITIONS.iter().map(|e| 2.0 * e).collect();
    for w in [&WEIGHTS[..], &[]] {
        let a = computed(&DISTANCES, w, &POSITIONS);
        let b = computed(&d, w, &x);
        let halves: Vec<f32> = floats(fast_g_ptr(&a)).iter().map(|e| e / 2.0).collect();
        assert_eq!(floats(fast_g_ptr(&b)), halves);
        let quarters: Vec<_> =
            records(&a).iter().map(|p| (p.0, p.1, p.2 / 4.0, p.3 / 4.0)).collect();
        assert_eq!(records(&b), quarters);
        assert_eq!(float(fast_step_size(&b)), 4.0 * float(fast_step_size(&a)));
    }
}

#[test]
fn the_gradient_sums_to_zero() {
    let ctx = computed(&DISTANCES, &WEIGHTS, &POSITIONS);
    let g = floats(fast_g_ptr(&ctx));
    let (sx, sy): (f32, f32) = (g[..4].iter().sum(), g[4..].iter().sum());
    assert!(sx.abs() < 0.00001 && sy.abs() < 0.00001);
    // For one pair nothing rounds.
    let mut pair = fast_create(2, soft(&[0.0, 1.0, 1.0, 0.0]));
    fast_compute(&mut pair, soft(&[0.0, 2.0, 0.0, 0.0]));
    let g = floats(fast_g_ptr(&pair));
    assert_eq!((g[0] + g[1], g[2] + g[3]), (0.0, 0.0));
}

#[test]
fn a_step_keeps_the_centre() {
    for mode in [0, 1, 2] {
        let mut ctx = fast_create(2, soft(&[0.0, 1.0, 1.0, 0.0]));
        fast_set_x(&mut ctx, soft(&[0.0, 2.0, 1.0, 1.0]));
        fast_tick(&mut ctx, mode);
        let x = floats(fast_x_ptr(&ctx));
        assert!((x[0] + x[1] - 2.0).abs() < 0.000001);
        assert_eq!(x[2] + x[3], 2.0);
    }
    // A step of an eighth of the gradient (-2, 2) does not round.
    let mut ctx = fast_create(2, soft(&[0.0, 1.0, 1.0, 0.0]));
    fast_set_x(&mut ctx, soft(&[0.0, 2.0, 1.0, 1.0]));
    fast_tick(&mut ctx, 2);
    assert_eq!(floats(fast_x_ptr(&ctx)), vec![0.25, 1.75, 1.0, 1.0]);
}

#[test]
fn offsets_have_the_displacement_length() {
    for k in 0..2_000u32 {
        let (rx, ry) = (k.wrapping_mul(2_654_435_761), k.wrapping_mul(40_503).wrapping_add(7 << 20));
        let (x, y) = offset_from(one(0.75), rx, ry);
        let (x, y) = (f64::from(float(x)), f64::from(float(y)));
        let ratio = (x * x + y * y) / (0.75 * 0.75);
        assert!((ratio - 1.0).abs() <= 1.0 / 1_048_576.0);
    }
}

#[test]
fn a_run_of_no_steps_touches_no_lock() {
    let mut ctx = fast_create(2, soft(&[0.0, 1.0, 1.0, 0.0]));
    fast_set_locks(&mut ctx, soft(&[9.0, 0.0, 0.0]));
    assert!(!ctx.locks_hold_nodes());
    assert_eq!(float(fast_run(&mut ctx, 0, one(0.5), 1)), f32::MAX);
    assert_eq!(floats(fast_x_ptr(&ctx)), vec![0.0; 4]);
}

#[test]
fn two_runs_are_one() {
    let start = soft(&POSITIONS);
    let mut whole = fast_create(4, soft(&DISTANCES));
    let mut parts = fast_create(4, soft(&DISTANCES));
    fast_set_x(&mut whole, start.clone());
    fast_set_x(&mut parts, start);
    let a = fast_run(&mut whole, 6, one(0.0), 1);
    fast_run(&mut parts, 2, one(0.0), 1);
    let b = fast_run(&mut parts, 4, one(0.0), 1);
    assert_eq!(a.to_bits(), b.to_bits());
    assert_eq!(floats(fast_x_ptr(&whole)), floats(fast_x_ptr(&parts)));
    assert_eq!(floats(fast_g_ptr(&whole)), floats(fast_g_ptr(&parts)));
    assert_eq!(records(&whole), records(&parts));
}

#[test]
fn active_pairs_are_in_order_edges_first() {
    let ctx = computed(&DISTANCES, &WEIGHTS, &POSITIONS);
    let pairs: Vec<_> = records(&ctx).iter().map(|p| (p.0, p.1)).collect();
    assert_eq!(pairs[..2], [(0, 1), (1, 2)]);
    assert!(pairs[2..].windows(2).all(|w| w[0] < w[1]));
}

#[test]
fn a_gradient_can_be_replaced() {
    let mut ctx = computed(&[0.0; 16], &[], &POSITIONS);
    ctx.set_gradient(soft(&POSITIONS));
    assert_eq!(floats(fast_g_ptr(&ctx)), POSITIONS.to_vec());
}

#[test]
fn a_countdown_counts_down() {
    let mut single = Countdown::new(0);
    assert!(!single.is_zero());
    single.step();
    assert!(single.is_zero());
    let mut long = Countdown::new(3);
    for _ in 0..1_000 {
        long.step();
        assert!(!long.is_zero());
    }
}

#[test]
fn tried_calls_do_what_the_plain_ones_do() {
    for mode in [0, 1, 2] {
        // All nodes start at the origin, so that the first step displaces them.
        let mut plain = fast_create(4, soft(&DISTANCES));
        let mut tried = fast_create(4, soft(&DISTANCES));
        fast_set_locks(&mut plain, soft(&[1.0, 0.5, 0.5]));
        fast_set_locks(&mut tried, soft(&[1.0, 0.5, 0.5]));
        assert!(tried.can_tick(mode));
        let a = fast_tick(&mut plain, mode);
        let b = fast_try_tick(&mut tried, mode).unwrap();
        assert_eq!(a.to_bits(), b.to_bits());
        assert!(tried.can_run(3, one(0.25), mode));
        let a = fast_run(&mut plain, 3, one(0.25), mode);
        let b = fast_try_run(&mut tried, 3, one(0.25), mode).unwrap();
        assert_eq!(a.to_bits(), b.to_bits());
        let zeros = soft(&[0.0; 8]);
        assert!(tried.can_compute(&zeros));
        let a = fast_compute(&mut plain, zeros.clone());
        let b = fast_try_compute(&mut tried, zeros).unwrap();
        assert_eq!(floats(&a), floats(&b));
        assert_eq!(floats(fast_x_ptr(&plain)), floats(fast_x_ptr(&tried)));
        assert_eq!(floats(fast_g_ptr(&plain)), floats(fast_g_ptr(&tried)));
        assert_eq!(records(&plain), records(&tried));
    }
}

#[test]
fn trying_does_not_change_a_context() {
    let ctx = fast_create(3, soft(&[1.0; 9]));
    assert!(ctx.can_tick(0) && ctx.can_run(2, one(0.5), 1));
    assert_eq!(floats(fast_x_ptr(&ctx)), vec![0.0; 6]);
    assert_eq!(floats(fast_g_ptr(&ctx)), vec![0.0; 6]);
    assert_eq!(records(&ctx), vec![]);
}

#[test]
fn displacing_ends_for_nodes_of_ordinary_size() {
    assert!(settles(2, one(1.0), 0, &soft(&[0.0, 3.0, 0.0, 0.0])));
    assert!(settles(3, one(1.0), 0, &soft(&[7.0; 6])));
    assert!(settles(2, one(0.5), u64::MAX, &soft(&[f32::NAN; 4])));
    assert!(settles(0, one(1.0), 5, &vec![]));
}
