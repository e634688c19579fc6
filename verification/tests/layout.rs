use fast2d::api::{
    fast_active_count, fast_apply_lock, fast_compute, fast_create, fast_g_ptr, fast_run, fast_set_g,
    fast_set_locks, fast_set_x, fast_step_size, fast_tick, fast_x_ptr,
};
use fast2d::binary32::Binary32;
use fast2d::context::FastCtx;
use fast2d::sampling::{SEED, STREAM};
use rand::Rng;
use rand_pcg::Pcg32;

const EPS: f32 = 0.000000001;
const EPS_SQ: f32 = EPS * EPS;

/// The same engine in the arithmetic of the machine.
struct Machine {
    n: usize,
    ideal: Vec<f32>,
    edge: Vec<bool>,
    p_stress: bool,
    x: Vec<f32>,
    g: Vec<f32>,
    active: Vec<(usize, usize, f32, f32)>,
    huu: Vec<f32>,
    track: bool,
    max_h: f32,
    locks: Vec<[f32; 3]>,
    soft: Vec<usize>,
    rng: Pcg32,
    min_d: f32,
}

impl Machine {
    fn new(d: &[f32], n: usize) -> Machine {
        let mut ideal = vec![0.0; n * n];
        for u in 0..n {
            for v in u + 1..n {
                let e = d[u * n + v];
                if e.is_finite() && e > 0.0 {
                    ideal[u * n + v] = e;
                }
            }
        }
        let mut min_d = f32::MAX;
        for &e in d {
            if e.is_finite() && e > 0.0 && e < min_d {
                min_d = e;
            }
        }
        if min_d == f32::MAX {
            min_d = 1.0;
        }
        Machine {
            n,
            ideal,
            edge: vec![false; n * n],
            p_stress: false,
            x: vec![0.0; 2 * n],
            g: vec![0.0; 2 * n],
            active: vec![],
            huu: vec![0.0; 2 * n],
            track: false,
            max_h: 0.0,
            locks: vec![],
            soft: vec![],
            rng: Pcg32::new(SEED, STREAM),
            min_d,
        }
    }

    fn set_g(&mut self, w: &[f32]) {
        self.edge = vec![false; self.n * self.n];
        self.p_stress = !w.is_empty();
        if self.p_stress {
            for u in 0..self.n {
                for v in u + 1..self.n {
                    let i = u * self.n + v;
                    self.edge[i] = self.ideal[i] > 0.0 && w[i] <= 1.0;
                }
            }
        }
    }

    fn pair(&mut self, x: &[f32], u: usize, v: usize, s: f32) -> (f32, f32) {
        let n = self.n;
        let (dx, dy) = (x[u] - x[v], x[n + u] - x[n + v]);
        let d = (dx * dx + dy * dy).sqrt();
        let rid2 = 1.0 / (s * s);
        let r = 1.0 / d;
        let gs = 2.0 * (d - s) * rid2 * r;
        let (gx, gy) = (dx * gs, dy * gs);
        self.g[v] -= gx;
        self.g[n + v] -= gy;
        let cc = 2.0 * rid2 * s * (r * r * r);
        let f4 = 4.0 * rid2;
        let (hx, hy) = (cc * dy * dy - f4, cc * dx * dx - f4);
        self.active.push((u, v, hx, hy));
        if self.track {
            self.huu[u] -= hx;
            self.huu[v] -= hx;
            self.huu[n + u] -= hy;
            self.huu[n + v] -= hy;
        }
        (gx, gy)
    }

    fn sweep(&mut self, x: &[f32]) -> f32 {
        let n = self.n;
        self.g = vec![0.0; 2 * n];
        self.active.clear();
        self.soft.clear();
        if self.track {
            self.huu = vec![0.0; 2 * n];
        }
        let mut least = f32::INFINITY;
        for u in 0..n {
            for v in u + 1..n {
                let (dx, dy) = (x[u] - x[v], x[n + u] - x[n + v]);
                let d2 = dx * dx + dy * dy;
                if d2 < least {
                    least = d2;
                }
                if self.edge[u * n + v] && !(d2 <= EPS_SQ) {
                    let (gx, gy) = self.pair(x, u, v, self.ideal[u * n + v]);
                    self.g[u] += gx;
                    self.g[n + u] += gy;
                }
            }
        }
        for u in 0..n {
            let (mut gxu, mut gyu) = (0.0, 0.0);
            for v in u + 1..n {
                let (dx, dy) = (x[u] - x[v], x[n + u] - x[n + v]);
                let d2 = dx * dx + dy * dy;
                let s = if self.edge[u * n + v] { 0.0 } else { self.ideal[u * n + v] };
                let near = if self.p_stress { d2 < s * s } else { s > 0.0 };
                if near && d2 > EPS_SQ {
                    let (gx, gy) = self.pair(x, u, v, s);
                    gxu += gx;
                    gyu += gy;
                }
            }
            self.g[u] += gxu;
            self.g[n + u] += gyu;
        }
        least
    }

    fn compute(&mut self, x: &mut [f32]) {
        let n = self.n;
        while !(self.sweep(x) > EPS_SQ) {
            let seen = x.to_vec();
            let mut did = false;
            for u in 0..n {
                for v in 0..n {
                    let (dx, dy) = (seen[u] - seen[v], seen[n + u] - seen[n + v]);
                    if u == v || (dx * dx + dy * dy).sqrt() > EPS {
                        continue;
                    }
                    did = true;
                    let a = self.rng.gen_range(0.01f32..1.0) - 0.5;
                    let b = self.rng.gen_range(0.01f32..1.0) - 0.5;
                    let l = (0.0 + a * a + b * b).sqrt();
                    x[v] += a * (self.min_d / l);
                    x[n + v] += b * (self.min_d / l);
                }
            }
            if !did {
                break;
            }
        }
        if self.track {
            self.max_h = 0.0;
            for &h in &self.huu {
                if h > self.max_h {
                    self.max_h = h;
                }
            }
        }
    }

    fn step_size(&self) -> f32 {
        let n = self.n;
        let mut lanes = [0.0f32; 4];
        let whole = 2 * n / 4 * 4;
        for i in 0..whole {
            lanes[i % 4] += self.g[i] * self.g[i];
        }
        let mut num = lanes[0] + lanes[1] + lanes[2] + lanes[3];
        for i in whole..2 * n {
            num += self.g[i] * self.g[i];
        }
        let mut den = 0.0;
        for &(u, v, hx, hy) in &self.active {
            let (dgx, dgy) = (self.g[u] - self.g[v], self.g[n + u] - self.g[n + v]);
            den += hx * dgx * dgx + hy * dgy * dgy;
        }
        let mut form = -den;
        for &u in &self.soft {
            form += self.max_h * (self.g[u] * self.g[u] + self.g[n + u] * self.g[n + u]);
        }
        if form == 0.0 || !form.is_finite() {
            0.0
        } else {
            num / form
        }
    }

    fn pin(&self, x: &mut [f32]) {
        for l in &self.locks {
            x[l[0] as usize] = l[1];
            x[self.n + l[0] as usize] = l[2];
        }
    }

    fn descend(&mut self, x: &mut [f32]) -> Vec<f32> {
        self.compute(x);
        let alpha = self.step_size();
        let mut r: Vec<f32> = (0..2 * self.n).map(|i| x[i] - alpha * self.g[i]).collect();
        self.pin(&mut r);
        r
    }

    fn tick(&mut self, mode: u32) -> f32 {
        let n2 = 2 * self.n;
        self.track = false;
        let mut x = self.x.clone();
        self.pin(&mut x);
        let mut disp = 0.0;
        match mode {
            0 => {
                let a = self.descend(&mut x);
                let mut ia: Vec<f32> = (0..n2).map(|i| x[i] + (a[i] - x[i]) / 2.0).collect();
                let b = self.descend(&mut ia);
                let mut ib: Vec<f32> = (0..n2).map(|i| x[i] + (b[i] - x[i]) / 2.0).collect();
                let mut c = self.descend(&mut ib);
                let d = self.descend(&mut c);
                for i in 0..n2 {
                    let nx = (a[i] + 2.0 * b[i] + 2.0 * c[i] + d[i]) / 6.0;
                    let dd = x[i] - nx;
                    disp += dd * dd;
                    x[i] = nx;
                }
            }
            1 => {
                let a = self.descend(&mut x);
                let mut ia: Vec<f32> = (0..n2).map(|i| x[i] + (a[i] - x[i]) / 2.0).collect();
                self.compute(&mut ia);
                let alpha = self.step_size();
                for i in 0..n2 {
                    let nx = x[i] - alpha * self.g[i];
                    let dd = x[i] - nx;
                    disp += dd * dd;
                    x[i] = nx;
                }
                self.pin(&mut x);
            }
            _ => {
                self.compute(&mut x);
                let alpha = self.step_size();
                for i in 0..n2 {
                    let dd = alpha * self.g[i];
                    disp += dd * dd;
                    x[i] -= dd;
                }
                self.pin(&mut x);
            }
        }
        self.x = x;
        disp
    }

    fn run(&mut self, iterations: u32, threshold: f32, mode: u32) -> f32 {
        let mut stress = f32::MAX;
        for _ in 0..iterations {
            let s = self.tick(mode);
            if (stress / s - 1.0).abs() < threshold {
                return s;
            }
            stress = s;
        }
        stress
    }
}

fn soft(x: &[f32]) -> Vec<Binary32> {
    x.iter().map(|e| Binary32::from_bits(e.to_bits())).collect()
}

fn one(x: f32) -> Binary32 {
    Binary32::from_bits(x.to_bits())
}

fn same(expected: f32, got: Binary32) -> bool {
    if expected.is_nan() {
        got.is_nan()
    } else {
        expected.to_bits() == got.to_bits()
    }
}

fn all_same(expected: &[f32], got: &Vec<Binary32>) -> bool {
    expected.len() == got.len() && expected.iter().zip(got).all(|(e, g)| same(*e, *g))
}

fn agree(m: &Machine, ctx: &FastCtx) {
    assert!(all_same(&m.x, fast_x_ptr(ctx)));
    assert!(all_same(&m.g, fast_g_ptr(ctx)));
    assert_eq!(m.active.len(), fast_active_count(ctx));
    for (p, q) in m.active.iter().zip(ctx.active()) {
        assert_eq!((p.0, p.1), (q.u as usize, q.v as usize));
        assert!(same(p.2, q.idk_x));
        assert!(same(p.3, q.idk_y));
    }
}

struct Noise(u64);

impl Noise {
    fn next(&mut self) -> u32 {
        self.0 = self.0.wrapping_mul(6364136223846793005).wrapping_add(1442695040888963407);
        (self.0 >> 33) as u32
    }

    fn unit(&mut self) -> f32 {
        (self.next() % 4096) as f32 / 4096.0
    }

    fn distances(&mut self, n: usize) -> Vec<f32> {
        (0..n * n)
            .map(|_| match self.next() % 8 {
                0 => 0.0,
                1 => f32::INFINITY,
                2 => f32::NAN,
                3 => -1.0,
                _ => 0.25 + 3.0 * self.unit(),
            })
            .collect()
    }

    fn weights(&mut self, n: usize) -> Vec<f32> {
        (0..n * n)
            .map(|_| match self.next() % 6 {
                0 => 0.5,
                1 => 1.0,
                2 => f32::NAN,
                _ => 2.0,
            })
            .collect()
    }

    fn positions(&mut self, n: usize) -> Vec<f32> {
        (0..2 * n).map(|_| 4.0 * self.unit() - 2.0).collect()
    }
}

fn walk(mode: u32, with_weights: bool, with_locks: bool, coincide: bool) {
    let mut noise = Noise(u64::from(mode) + 11);
    for n in [1, 2, 3, 4, 5, 8, 9] {
        let d = noise.distances(n);
        let mut m = Machine::new(&d, n);
        let mut ctx = fast_create(n, soft(&d));
        if with_weights {
            let w = noise.weights(n);
            m.set_g(&w);
            fast_set_g(&mut ctx, soft(&w));
        }
        if with_locks {
            let flat = [(n - 1) as f32 + 0.75, 0.5, -0.25, 0.0, 1.5, 1.25, 7.0];
            m.locks = vec![[flat[0], flat[1], flat[2]], [flat[3], flat[4], flat[5]]];
            fast_set_locks(&mut ctx, soft(&flat));
            assert!(ctx.locks_hold_nodes());
        }
        if !coincide {
            m.x = noise.positions(n);
            fast_set_x(&mut ctx, soft(&m.x));
        }
        for _ in 0..4 {
            let expected = m.tick(mode);
            let got = fast_tick(&mut ctx, mode);
            assert!(same(expected, got));
            agree(&m, &ctx);
        }
        let expected = m.run(5, 0.25, mode);
        let got = fast_run(&mut ctx, 5, one(0.25), mode);
        assert!(same(expected, got));
        agree(&m, &ctx);
    }
}

#[test]
fn runge_kutta_agrees_with_the_machine() {
    walk(0, false, false, false);
    walk(0, true, false, false);
    walk(0, true, true, false);
}

#[test]
fn midpoint_agrees_with_the_machine() {
    walk(1, false, false, false);
    walk(1, true, false, false);
    walk(1, true, true, false);
}

#[test]
fn gradient_descent_agrees_with_the_machine() {
    walk(2, false, false, false);
    walk(2, true, false, false);
    walk(2, true, true, false);
    walk(77, true, true, false);
}

#[test]
fn nodes_that_start_at_the_origin_are_spread_as_on_the_machine() {
    walk(0, false, false, true);
    walk(1, true, false, true);
    walk(2, true, true, true);
}

#[test]
fn computing_agrees_with_the_machine() {
    let mut noise = Noise(3);
    for n in [0, 1, 2, 3, 5, 6, 7, 11] {
        let d = noise.distances(n);
        let mut m = Machine::new(&d, n);
        let mut ctx = fast_create(n, soft(&d));
        assert_eq!(ctx.node_count(), n);
        for round in 0..4 {
            if round % 2 == 1 {
                let w = noise.weights(n);
                m.set_g(&w);
                fast_set_g(&mut ctx, soft(&w));
            } else {
                m.set_g(&[]);
                fast_set_g(&mut ctx, vec![]);
            }
            // Each round puts one more node on top of the first one.
            let mut x = noise.positions(n);
            for w in 1..n.min(round + 1) {
                x[w] = x[0];
                x[n + w] = x[n];
            }
            let r = fast_compute(&mut ctx, soft(&x));
            m.track = true;
            m.compute(&mut x);
            assert!(all_same(&x, &r));
            agree(&m, &ctx);
            assert!(same(m.step_size(), fast_step_size(&ctx)));
            if n > 0 {
                let u = n / 2;
                m.g[u] -= m.max_h * (0.5 - x[u]);
                m.g[n + u] -= m.max_h * (0.75 - x[n + u]);
                m.soft.push(u);
                fast_apply_lock(&mut ctx, u, one(0.5), one(0.75), one(x[u]), one(x[n + u]));
                agree(&m, &ctx);
                assert!(same(m.step_size(), fast_step_size(&ctx)));
            }
        }
    }
}

#[test]
fn numbers_that_are_not_numbers_pass_through_as_on_the_machine() {
    let d = [0.0, 1.0, 2.0, 1.0, 0.0, 1.0, 2.0, 1.0, 0.0];
    for mode in [0, 1, 2] {
        let mut m = Machine::new(&d, 3);
        let mut ctx = fast_create(3, soft(&d));
        let w = [0.0, 1.0, 5.0, 0.0, 0.0, 5.0, 0.0, 0.0, 0.0];
        m.set_g(&w);
        fast_set_g(&mut ctx, soft(&w));
        m.x = vec![f32::NAN, 0.0, 3.0e38, 0.0, -3.0e38, 1.0];
        fast_set_x(&mut ctx, soft(&m.x));
        let expected = m.tick(mode);
        let got = fast_tick(&mut ctx, mode);
        assert!(same(expected, got));
        agree(&m, &ctx);
    }
}
