use spectral::exec::{run, xform, xform_inplace, xform_many};
use spectral::plan::{find_dft, Planner};
use spectral::scalar::Scalar;

#[derive(Clone, Copy, Debug, PartialEq)]
struct Cx {
    re: f32,
    im: f32,
}

fn c(re: f32, im: f32) -> Cx {
    Cx { re, im }
}

impl Scalar for Cx {
    fn zero() -> Self {
        c(0.0, 0.0)
    }
    fn one() -> Self {
        c(1.0, 0.0)
    }
    fn imag_unit() -> Self {
        c(0.0, 1.0)
    }
    fn sin_pi(a: usize, b: usize) -> Self {
        c((std::f64::consts::PI * a as f64 / b as f64).sin() as f32, 0.0)
    }
    fn cos_pi(a: usize, b: usize) -> Self {
        c((std::f64::consts::PI * a as f64 / b as f64).cos() as f32, 0.0)
    }
    fn root(k: usize, n: usize) -> Self {
        let t = -2.0 * std::f64::consts::PI * k as f64 / n as f64;
        c(t.cos() as f32, t.sin() as f32)
    }
    fn plus(&self, o: &Self) -> Self {
        c(self.re + o.re, self.im + o.im)
    }
    fn minus(&self, o: &Self) -> Self {
        c(self.re - o.re, self.im - o.im)
    }
    fn times(&self, o: &Self) -> Self {
        c(self.re * o.re - self.im * o.im, self.re * o.im + self.im * o.re)
    }
    fn conj(&self) -> Self {
        c(self.re, -self.im)
    }
    fn div_by(&self, d: usize) -> Self {
        c(self.re / d as f32, self.im / d as f32)
    }
}

fn abs(x: Cx) -> f64 {
    ((x.re as f64).powi(2) + (x.im as f64).powi(2)).sqrt()
}

/// Direct O(N^2) transform in double precision.
fn reference(x: &[Cx]) -> Vec<(f64, f64)> {
    let n = x.len();
    (0..n)
        .map(|k| {
            let mut acc = (0.0f64, 0.0f64);
            for (m, v) in x.iter().enumerate() {
                let t = -2.0 * std::f64::consts::PI * ((k * m) % n) as f64 / n as f64;
                let (s, co) = t.sin_cos();
                acc.0 += v.re as f64 * co - v.im as f64 * s;
                acc.1 += v.re as f64 * s + v.im as f64 * co;
            }
            acc
        })
        .collect()
}

fn relative_error(y: &[Cx], r: &[(f64, f64)]) -> f64 {
    let mut num = 0.0;
    let mut den = 0.0;
    for (a, b) in y.iter().zip(r) {
        num += (a.re as f64 - b.0).powi(2) + (a.im as f64 - b.1).powi(2);
        den += b.0 * b.0 + b.1 * b.1;
    }
    (num / den.max(1e-30)).sqrt()
}

/// Deterministic pseudo-random input in [-1, 1).
fn random_input(n: usize, seed: u64) -> Vec<Cx> {
    let mut s = seed.wrapping_mul(6364136223846793005).wrapping_add(1442695040888963407);
    let mut next = || {
        s = s.wrapping_mul(6364136223846793005).wrapping_add(1442695040888963407);
        ((s >> 40) as f64 / (1u64 << 24) as f64 * 2.0 - 1.0) as f32
    };
    (0..n).map(|_| c(next(), next())).collect()
}

fn transform(planner: &mut Planner, x: &[Cx]) -> Vec<Cx> {
    let id = find_dft(planner, x.len());
    let mut out = vec![Cx::zero(); x.len()];
    xform(planner, id, x, &mut out);
    out
}

fn close(a: Cx, re: f32, im: f32) -> bool {
    (a.re - re).abs() < 1e-4 && (a.im - im).abs() < 1e-4
}

#[test]
fn size_one_is_identity() {
    let mut p = Planner::new();
    let y = transform(&mut p, &[c(3.0, 4.0)]);
    assert!(close(y[0], 3.0, 4.0));
}

#[test]
fn size_two_of_ones() {
    let mut p = Planner::new();
    let y = transform(&mut p, &[c(1.0, 0.0), c(1.0, 0.0)]);
    assert!(close(y[0], 2.0, 0.0));
    assert!(close(y[1], 0.0, 0.0));
}

#[test]
fn size_four_impulse() {
    let mut p = Planner::new();
    let y = transform(&mut p, &[c(1.0, 0.0), c(0.0, 0.0), c(0.0, 0.0), c(0.0, 0.0)]);
    for v in y {
        assert!(close(v, 1.0, 0.0));
    }
}

#[test]
fn size_four_constant() {
    let mut p = Planner::new();
    let y = transform(&mut p, &[c(1.0, 0.0); 4]);
    assert!(close(y[0], 4.0, 0.0));
    for v in &y[1..] {
        assert!(close(*v, 0.0, 0.0));
    }
}

#[test]
fn size_five_ramp() {
    let mut p = Planner::new();
    let x: Vec<Cx> = (1..=5).map(|v| c(v as f32, 0.0)).collect();
    let y = transform(&mut p, &x);
    assert!(close(y[0], 15.0, 0.0));
    assert!((abs(y[1]) - 4.2533).abs() < 1e-3);
    assert!((abs(y[4]) - 4.2533).abs() < 1e-3);
    assert!((abs(y[2]) - 2.6287).abs() < 1e-3);
    assert!((abs(y[3]) - 2.6287).abs() < 1e-3);
}

#[test]
fn size_seven_impulse_by_rader() {
    let mut p = Planner::new();
    let mut x = vec![c(0.0, 0.0); 7];
    x[0] = c(1.0, 0.0);
    let y = transform(&mut p, &x);
    for v in y {
        assert!(close(v, 1.0, 0.0));
    }
}

#[test]
fn size_eleven_against_reference() {
    let mut p = Planner::new();
    let x = random_input(11, 11);
    let y = transform(&mut p, &x);
    let r = reference(&x);
    for (a, b) in y.iter().zip(&r) {
        let mag = (b.0 * b.0 + b.1 * b.1).sqrt().max(1e-6);
        let err = ((a.re as f64 - b.0).powi(2) + (a.im as f64 - b.1).powi(2)).sqrt();
        assert!(err / mag <= 1e-4, "error {} at magnitude {}", err, mag);
    }
}

#[test]
fn audio_sine_has_two_peaks() {
    let mut p = Planner::new();
    let n = 2048;
    let x: Vec<Cx> = (0..n)
        .map(|i| c((2.0 * std::f64::consts::PI * 50.0 * i as f64 / n as f64).sin() as f32, 0.0))
        .collect();
    let y = transform(&mut p, &x);
    let peak = abs(y[50]).max(abs(y[n - 50]));
    assert!(abs(y[50]) > 1000.0 && abs(y[n - 50]) > 1000.0);
    for (k, v) in y.iter().enumerate() {
        if k != 50 && k != n - 50 {
            assert!(20.0 * (abs(*v) / peak).log10() < -60.0, "bin {} too strong", k);
        }
    }
}

#[test]
fn matches_reference_for_all_small_sizes() {
    let mut p = Planner::new();
    let sizes: Vec<usize> = (1..=64).chain([97, 100, 127, 128, 210, 256, 360, 509, 1000, 1024]).collect();
    for n in sizes {
        let x = random_input(n, n as u64);
        let y = transform(&mut p, &x);
        let err = relative_error(&y, &reference(&x));
        let bound = 1e-5 * (n as f64).log2().max(1.0);
        assert!(err <= bound, "size {}: relative error {} above {}", n, err, bound);
    }
}

#[test]
fn batched_equals_separate() {
    let mut p = Planner::new();
    for n in [4usize, 7, 12, 13, 30] {
        let id = find_dft(&mut p, n);
        let count = 13;
        let x = random_input(n * count, 7);
        let mut all = vec![Cx::zero(); n * count];
        xform_many(&p, id, &x, &mut all, 1, n, 1, n, count);
        for i in 0..count {
            let mut one = vec![Cx::zero(); n];
            xform_many(&p, id, &x[i * n..(i + 1) * n], &mut one, 1, 0, 1, 0, 1);
            assert_eq!(&all[i * n..(i + 1) * n], &one[..]);
        }
    }
}

#[test]
fn strided_equals_contiguous() {
    let mut p = Planner::new();
    for n in [5usize, 8, 11, 12] {
        let id = find_dft(&mut p, n);
        let count = 3;
        let x = random_input(n * count, 3);
        let contiguous = run(&p, id, &x, count);
        // input interleaved: element a of transform i at a * count + i
        let mut inter = vec![Cx::zero(); n * count];
        for i in 0..count {
            for a in 0..n {
                inter[a * count + i] = x[a + i * n];
            }
        }
        let ostep = 2;
        let ostep2 = 2 * n + 1;
        let mut out = vec![c(9.0, 9.0); ostep2 * count];
        xform_many(&p, id, &inter, &mut out, count, 1, ostep, ostep2, count);
        for i in 0..count {
            for a in 0..n {
                assert_eq!(out[a * ostep + i * ostep2], contiguous[a + i * n]);
            }
        }
        assert_eq!(out[1], c(9.0, 9.0));
    }
}

#[test]
fn inplace_equals_out_of_place() {
    let mut p = Planner::new();
    for n in [3usize, 6, 7, 16, 45, 97] {
        let id = find_dft(&mut p, n);
        let x = random_input(n, 5);
        let mut out = vec![Cx::zero(); n];
        xform(&p, id, &x, &mut out);
        let mut buf = x.clone();
        xform_inplace(&p, id, &mut buf);
        assert_eq!(buf, out);
    }
}

#[test]
fn single_transform_ignores_batch_strides() {
    let mut p = Planner::new();
    let id = find_dft(&mut p, 6);
    let x = random_input(6, 9);
    let mut a = vec![Cx::zero(); 6];
    let mut b = vec![Cx::zero(); 6];
    xform_many(&p, id, &x, &mut a, 1, 0, 1, 0, 1);
    xform_many(&p, id, &x, &mut b, 1, 1000, 1, 1000, 1);
    assert_eq!(a, b);
}
