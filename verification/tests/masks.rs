//! Masks and shields over single-precision floats.

use std::sync::Mutex;

use gelo::dct4::Dct4Mask;
use gelo::gaussian::fill_gaussian;
use gelo::hd3::Hd3Mask;
use gelo::mask::{tee_matmul, GeloMask};
use gelo::matrix::Matrix;
use gelo::rng::{MaskRng, MaskSeed};
use gelo::scalar::{Ops, Scalar};
use gelo::shield::{mean_row_norm, stack_shield, ShieldConfig};
use half::bf16;
use ndarray::Array2;
use rand::SeedableRng;
use rand_chacha::ChaCha20Rng;
use rand_distr::{Distribution, StandardNormal, Uniform};
use rustdct::DctPlanner;

/// Single-precision scalars.
#[derive(Clone, Copy, Debug, PartialEq)]
struct F32(f32);

fn chacha(rng: &MaskRng) -> ChaCha20Rng {
    let mut c = ChaCha20Rng::from_seed(rng.seed());
    c.set_stream(rng.stream());
    c.set_word_pos(rng.word_pos());
    c
}

static PLANNER: Mutex<Option<DctPlanner<f32>>> = Mutex::new(None);

impl Scalar for F32 {
    fn ops() -> Ops<F32> {
        unreachable!()
    }
    fn from_int(i: i64) -> F32 {
        F32(i as f32)
    }
    fn from_count(n: usize) -> F32 {
        F32(n as f32)
    }
    fn plus(self, o: F32) -> F32 {
        F32(self.0 + o.0)
    }
    fn minus(self, o: F32) -> F32 {
        F32(self.0 - o.0)
    }
    fn times(self, o: F32) -> F32 {
        F32(self.0 * o.0)
    }
    fn over(self, o: F32) -> F32 {
        F32(self.0 / o.0)
    }
    fn negated(self) -> F32 {
        F32(-self.0)
    }
    fn square_root(self) -> F32 {
        F32(self.0.sqrt())
    }
    fn three_halves_power(self) -> F32 {
        F32(self.0.powf(1.5))
    }
    fn exponential(self) -> F32 {
        F32(self.0.exp())
    }
    fn larger(self, o: F32) -> F32 {
        F32(self.0.max(o.0))
    }
    fn lowest() -> F32 {
        F32(f32::NEG_INFINITY)
    }
    fn at_most(self, o: F32) -> bool {
        self.0 <= o.0
    }
    fn below(self, o: F32) -> bool {
        self.0 < o.0
    }
    fn negligible() -> F32 {
        F32(1e-30)
    }
    fn agrees_with(self, o: F32, size: F32, terms: usize) -> bool {
        (self.0 - o.0).abs() <= f32::EPSILON * (terms as f32 + 8.0) * size.0
    }
    fn gaussian_pair(u: u32, v: u32, sigma: F32) -> (F32, F32) {
        let scale = 1.0 / ((1u32 << 24) as f32);
        let bias = 0.5 / ((1u32 << 24) as f32);
        let u1 = u as f32 * scale + bias;
        let u2 = v as f32 * scale + bias;
        let r = sigma.0 * (-2.0f32 * u1.ln()).sqrt();
        let (s, c) = (std::f32::consts::TAU * u2).sin_cos();
        (F32(r * c), F32(r * s))
    }
    fn standard_normal(rng: &mut MaskRng) -> F32 {
        let mut c = chacha(rng);
        let z: f32 = StandardNormal.sample(&mut c);
        rng.set_word_pos(c.get_word_pos());
        F32(z)
    }
    fn uniform_between(lo: F32, hi: F32, rng: &mut MaskRng) -> F32 {
        let mut c = chacha(rng);
        let z: f32 = Uniform::new(lo.0, hi.0).unwrap().sample(&mut c);
        rng.set_word_pos(c.get_word_pos());
        F32(z)
    }
    fn cosine_transform(column: Vec<F32>) -> Vec<F32> {
        let mut buf: Vec<f32> = column.iter().map(|x| x.0).collect();
        let plan = {
            let mut slot = PLANNER.lock().unwrap();
            slot.get_or_insert_with(DctPlanner::new).plan_dct4(buf.len())
        };
        plan.process_dct4(&mut buf);
        buf.into_iter().map(F32).collect()
    }
    fn shown(self) -> String {
        format!("{}", self.0)
    }
}

fn to_matrix(a: &Array2<f32>) -> Matrix<F32> {
    let rows = a.rows().into_iter().map(|r| r.iter().map(|x| F32(*x)).collect()).collect();
    Matrix::from_rows(rows, a.ncols()).unwrap()
}

fn to_array(m: &Matrix<F32>) -> Array2<f32> {
    Array2::from_shape_fn((m.nrows(), m.ncols()), |(i, j)| m.row(i)[j].0)
}

/// Runs `f` on a mask stream at the generator's place, and moves the generator along.
fn at_rng<R>(rng: &mut ChaCha20Rng, f: impl FnOnce(&mut MaskRng) -> R) -> R {
    let mut m = MaskRng::at(rng.get_seed(), rng.get_stream(), rng.get_word_pos());
    let r = f(&mut m);
    rng.set_word_pos(m.word_pos());
    r
}

fn sample_normal(rng: &mut ChaCha20Rng, n: usize, d: usize) -> Array2<f32> {
    let normal = StandardNormal;
    Array2::from_shape_fn((n, d), |_| normal.sample(rng))
}

fn max_abs(a: &Array2<f32>, b: &Array2<f32>) -> f32 {
    a.iter().zip(b.iter()).map(|(x, y)| (x - y).abs()).fold(0.0_f32, f32::max)
}

/// Plain matrix product, row by row.
fn dot(a: &Array2<f32>, b: &Array2<f32>) -> Array2<f32> {
    let (m, k) = a.dim();
    let n = b.ncols();
    let (a, b) = (a.as_slice().unwrap(), b.as_slice().unwrap());
    let mut out = vec![0.0_f32; m * n];
    for i in 0..m {
        let row = &mut out[i * n..(i + 1) * n];
        for t in 0..k {
            let x = a[i * k + t];
            for (o, y) in row.iter_mut().zip(&b[t * n..(t + 1) * n]) {
                *o += x * y;
            }
        }
    }
    Array2::from_shape_vec((m, n), out).unwrap()
}

#[test]
fn hd3_round_trip_preserves_matmul() {
    let mut rng = ChaCha20Rng::from_seed([11u8; 32]);
    for &(n, d, p) in &[
        (8usize, 8, 8),
        (16, 12, 8),
        (64, 64, 32),
        (256, 128, 128),
    ] {
        let mask = at_rng(&mut rng, |r| Hd3Mask::<F32>::fresh(n, r));
        let h = sample_normal(&mut rng, n, d);
        let w = sample_normal(&mut rng, d, p);
        let target = h.dot(&w);

        let u = to_array(&mask.apply(&to_matrix(&h)));
        let v = u.dot(&w);
        let recovered = to_array(&mask.unapply(&to_matrix(&v)));

        assert_eq!(recovered.dim(), target.dim());
        let depth = d as f32 + 3.0 * (n as f32).log2();
        let target_max = target.iter().map(|v| v.abs()).fold(0.0_f32, f32::max).max(1.0);
        let tol = 8.0 * depth * f32::EPSILON * target_max;
        let err = max_abs(&recovered, &target);
        assert!(
            err <= tol,
            "round-trip max abs error at (n={n}, d={d}, p={p}): {err:.3e} > tol {tol:.3e}"
        );
    }
}

#[test]
fn hd3_orthogonality() {
    let mut rng = ChaCha20Rng::from_seed([23u8; 32]);
    for &n in &[8usize, 16, 32, 64, 128, 256] {
        let mask = at_rng(&mut rng, |r| Hd3Mask::<F32>::fresh(n, r));
        let id = Array2::<f32>::eye(n);
        let a = to_array(&mask.apply(&to_matrix(&id)));
        let ata = a.t().dot(&a);
        let id_target = Array2::<f32>::eye(n);
        let depth = n as f32 + 3.0 * (n as f32).log2();
        let tol = 16.0 * depth * f32::EPSILON;
        let err = max_abs(&ata, &id_target);
        assert!(err <= tol, "AᵀA - I max abs error at n={n}: {err:.3e} > tol {tol:.3e}");
    }
}

#[test]
fn hd3_deterministic_from_seed() {
    let seed_a = MaskSeed::from_bytes([42u8; 32]);
    let seed_b = MaskSeed::from_bytes([43u8; 32]);
    let m_a1 = Hd3Mask::<F32>::from_seed(64, seed_a);
    let m_a2 = Hd3Mask::<F32>::from_seed(64, seed_a);
    let m_b = Hd3Mask::<F32>::from_seed(64, seed_b);
    let (a1, a2, b) = (m_a1.diagonals(), m_a2.diagonals(), m_b.diagonals());
    assert_eq!(a1.0, a2.0);
    assert_eq!(a1.1, a2.1);
    assert_eq!(a1.2, a2.2);
    assert_ne!(a1.0, b.0);
}

#[test]
fn hd3_round_trip_relative_error_at_long_n() {
    let mut rng = ChaCha20Rng::from_seed([77u8; 32]);
    let n = 4096;
    let d = 2048;
    let p = 1024;
    let mask = at_rng(&mut rng, |r| Hd3Mask::<F32>::fresh(n, r));
    let h = sample_normal(&mut rng, n, d);
    let w = sample_normal(&mut rng, d, p);
    let target = dot(&h, &w);
    let u = to_array(&mask.apply(&to_matrix(&h)));
    let v = dot(&u, &w);
    let recovered = to_array(&mask.unapply(&to_matrix(&v)));
    let target_rms = (target.iter().map(|v| v * v).sum::<f32>() / target.len() as f32).sqrt();
    let err_rms = ((recovered.iter().zip(target.iter()).map(|(a, b)| (a - b).powi(2)).sum::<f32>())
        / target.len() as f32)
        .sqrt();
    assert!(
        err_rms / target_rms < 1e-4,
        "round-trip relative rms at long-n: {:.3e}",
        err_rms / target_rms
    );
}

#[test]
fn dct4_round_trip_preserves_matmul() {
    let mut rng = ChaCha20Rng::from_seed([11u8; 32]);
    for &(n, d, p) in &[
        (8usize, 8, 8),
        (12, 8, 8),
        (17, 13, 19),
        (64, 64, 32),
        (257, 128, 64),
        (256, 128, 128),
        (2056, 2048, 1024),
    ] {
        let mask = at_rng(&mut rng, |r| Dct4Mask::<F32>::fresh(n, r));
        let h = sample_normal(&mut rng, n, d);
        let w = sample_normal(&mut rng, d, p);
        let target = h.dot(&w);

        let u = to_array(&mask.apply(&to_matrix(&h)));
        let v = u.dot(&w);
        let recovered = to_array(&mask.unapply(&to_matrix(&v)));

        assert_eq!(recovered.dim(), target.dim());
        let depth = d as f32 + 3.0 * (n as f32).log2().max(1.0) * 4.0;
        let target_max = target.iter().map(|v| v.abs()).fold(0.0_f32, f32::max).max(1.0);
        let tol = 8.0 * depth * f32::EPSILON * target_max;
        let err = max_abs(&recovered, &target);
        assert!(
            err <= tol,
            "round-trip max abs error at (n={n}, d={d}, p={p}): {err:.3e} > tol {tol:.3e}"
        );
    }
}

#[test]
fn dct4_undoes_itself_over_few_rows() {
    let mut rng = ChaCha20Rng::from_seed([12u8; 32]);
    for n in 1usize..6 {
        let mask = at_rng(&mut rng, |r| Dct4Mask::<F32>::fresh(n, r));
        let h = sample_normal(&mut rng, n, 3);
        let w = sample_normal(&mut rng, 3, 2);
        let u = mask.apply(&to_matrix(&h));
        assert!(max_abs(&to_array(&mask.unapply(&u)), &h) < 1e-5);
        let v = to_array(&u).dot(&w);
        assert!(max_abs(&to_array(&mask.unapply(&to_matrix(&v))), &h.dot(&w)) < 1e-5);
    }
}

#[test]
fn dct4_orthogonality() {
    let mut rng = ChaCha20Rng::from_seed([23u8; 32]);
    for &n in &[8usize, 12, 17, 32, 64, 257] {
        let mask = at_rng(&mut rng, |r| Dct4Mask::<F32>::fresh(n, r));
        let id = Array2::<f32>::eye(n);
        let a = to_array(&mask.apply(&to_matrix(&id)));
        let ata = a.t().dot(&a);
        let id_target = Array2::<f32>::eye(n);
        let depth = n as f32 + 3.0 * (n as f32).log2().max(1.0) * 4.0;
        let tol = 16.0 * depth * f32::EPSILON;
        let err = max_abs(&ata, &id_target);
        assert!(err <= tol, "AᵀA - I max abs error at n={n}: {err:.3e} > tol {tol:.3e}");
    }
}

#[test]
fn dct4_deterministic_from_seed() {
    let seed_a = MaskSeed::from_bytes([42u8; 32]);
    let seed_b = MaskSeed::from_bytes([43u8; 32]);
    let m_a1 = Dct4Mask::<F32>::from_seed(64, seed_a);
    let m_a2 = Dct4Mask::<F32>::from_seed(64, seed_a);
    let m_b = Dct4Mask::<F32>::from_seed(64, seed_b);
    let (a1, a2, b) = (m_a1.diagonals(), m_a2.diagonals(), m_b.diagonals());
    assert_eq!(a1.0, a2.0);
    assert_eq!(a1.1, a2.1);
    assert_eq!(a1.2, a2.2);
    assert_ne!(a1.0, b.0);
}

#[test]
fn dct4_round_trip_relative_error_at_long_n() {
    let mut rng = ChaCha20Rng::from_seed([77u8; 32]);
    let n = 2056;
    let d = 2560;
    let p = 1024;
    let mask = at_rng(&mut rng, |r| Dct4Mask::<F32>::fresh(n, r));
    let h = sample_normal(&mut rng, n, d);
    let w = sample_normal(&mut rng, d, p);
    let target = dot(&h, &w);
    let u = to_array(&mask.apply(&to_matrix(&h)));
    let v = dot(&u, &w);
    let recovered = to_array(&mask.unapply(&to_matrix(&v)));
    let target_rms = (target.iter().map(|v| v * v).sum::<f32>() / target.len() as f32).sqrt();
    let err_rms = ((recovered.iter().zip(target.iter()).map(|(a, b)| (a - b).powi(2)).sum::<f32>())
        / target.len() as f32)
        .sqrt();
    assert!(
        err_rms / target_rms < 1e-3,
        "round-trip relative rms at long-n (n={n}): {:.3e}",
        err_rms / target_rms
    );
}

fn filled(len: usize, start: f32, sigma: f32, seed: [u8; 32]) -> Vec<f32> {
    let mut rng = MaskSeed::from_bytes(seed).rng();
    let mut buf = vec![F32(start); len];
    fill_gaussian(&mut buf, F32(sigma), &mut rng);
    buf.into_iter().map(|x| x.0).collect()
}

#[test]
fn unit_variance_zero_mean() {
    let n = 100_000;
    let buf = filled(n, 0.0, 1.0, [7u8; 32]);
    let mean: f64 = buf.iter().map(|&x| x as f64).sum::<f64>() / n as f64;
    let var: f64 = buf.iter().map(|&x| (x as f64 - mean).powi(2)).sum::<f64>() / n as f64;
    assert!(mean.abs() < 0.02, "mean {mean} too far from 0");
    assert!((var - 1.0).abs() < 0.05, "var {var} too far from 1");
}

#[test]
fn sigma_scales_energy_linearly() {
    let d = 4096;
    let sigma = 3.0_f32;
    let buf = filled(d, 0.0, sigma, [11u8; 32]);
    let energy: f64 = buf.iter().map(|&x| (x as f64).powi(2)).sum::<f64>() / d as f64;
    let expected = (sigma * sigma) as f64;
    let rel = (energy - expected).abs() / expected;
    assert!(rel < 0.05, "energy {energy} vs expected {expected} (rel {rel})");
}

#[test]
fn zero_sigma_yields_zero() {
    let buf = filled(64, 1.0, 0.0, [13u8; 32]);
    assert!(buf.iter().all(|v| *v == 0.0));
}

#[test]
fn odd_length_tail() {
    let n = 999;
    let buf = filled(n, 0.0, 2.0, [17u8; 32]);
    let energy: f64 = buf.iter().map(|&x| (x as f64).powi(2)).sum::<f64>() / n as f64;
    let expected = 4.0;
    assert!((energy - expected).abs() / expected < 0.15);
}

#[test]
fn deterministic_per_seed() {
    let a = filled(512, 0.0, 1.5, [23u8; 32]);
    let b = filled(512, 0.0, 1.5, [23u8; 32]);
    assert_eq!(a, b);
}

fn approx_eq(a: f32, b: f32, tol: f32) -> bool {
    (a - b).abs() <= tol
}

#[test]
fn orthogonality() {
    let mut rng = ChaCha20Rng::from_seed([7u8; 32]);
    let n = 32;
    let mask = at_rng(&mut rng, |r| GeloMask::<F32>::fresh(n, r));
    let a = to_array(mask.matrix());
    let prod = a.t().dot(&a);
    for i in 0..n {
        for j in 0..n {
            let expected = if i == j { 1.0 } else { 0.0 };
            assert!(
                approx_eq(prod[[i, j]], expected, 1e-4),
                "AᵀA[{i},{j}] = {} expected {}",
                prod[[i, j]],
                expected
            );
        }
    }
}

#[test]
fn mask_round_trip_preserves_matmul() {
    let mut rng = ChaCha20Rng::from_seed([11u8; 32]);
    let n = 16;
    let d = 12;
    let p = 8;
    let mask = at_rng(&mut rng, |r| GeloMask::<F32>::fresh(n, r));

    let h = sample_normal(&mut rng, n, d);
    let w = sample_normal(&mut rng, d, p);

    let plaintext = h.dot(&w);
    let masked = to_array(&mask.apply(&to_matrix(&h)));
    let masked_out = masked.dot(&w);
    let recovered = to_array(&mask.unapply(&to_matrix(&masked_out)));

    for ((i, j), pt) in plaintext.indexed_iter() {
        assert!(
            approx_eq(*pt, recovered[[i, j]], 1e-3),
            "mismatch at ({i},{j}): plain={pt} recovered={}",
            recovered[[i, j]]
        );
    }
}

#[test]
fn deterministic_from_seed() {
    let seed = MaskSeed::from_bytes([42u8; 32]);
    let m1 = to_array(GeloMask::<F32>::from_seed(8, seed).matrix());
    let m2 = to_array(GeloMask::<F32>::from_seed(8, seed).matrix());
    let diff = &m1 - &m2;
    let max_abs = diff.iter().fold(0.0_f32, |a, &b| a.max(b.abs()));
    assert_eq!(max_abs, 0.0);
}

#[test]
fn haar_uniformity_invariants() {
    let mut rng = ChaCha20Rng::from_seed([99u8; 32]);
    let n = 16;
    let n_draws = 64;
    let mut dets: Vec<f32> = Vec::with_capacity(n_draws);
    let mut mean_acc = 0.0_f32;
    let mut count = 0usize;

    for _ in 0..n_draws {
        let mask = at_rng(&mut rng, |r| GeloMask::<F32>::fresh(n, r));
        let a = to_array(mask.matrix());

        let ata = a.t().dot(&a);
        for i in 0..n {
            for j in 0..n {
                let want = if i == j { 1.0 } else { 0.0 };
                assert!(
                    (ata[[i, j]] - want).abs() < 1e-3,
                    "AᵀA[{i},{j}] = {} expected {}",
                    ata[[i, j]],
                    want
                );
            }
        }

        let det = determinant(&a);
        dets.push(det);
        assert!(
            (det.abs() - 1.0).abs() < 5e-3,
            "|det(A)| = {} not close to 1; sign correction likely broken",
            det.abs()
        );

        for &x in a.iter() {
            mean_acc += x;
            count += 1;
        }
    }

    let pos = dets.iter().filter(|&&d| d > 0.0).count();
    let neg = dets.iter().filter(|&&d| d < 0.0).count();
    assert!(
        pos > 0 && neg > 0,
        "Haar distribution should hit both det=+1 and det=-1 in {n_draws} draws; got pos={pos} neg={neg}"
    );

    let mean = mean_acc / count as f32;
    assert!(
        mean.abs() < 0.05,
        "mean of mask entries = {mean} — should be near zero for Haar-uniform"
    );
}

/// Determinant by row reduction.
fn determinant(a: &Array2<f32>) -> f32 {
    let n = a.nrows();
    let mut m = a.clone();
    let mut det = 1.0_f32;
    for i in 0..n {
        let mut pivot = i;
        for r in (i + 1)..n {
            if m[[r, i]].abs() > m[[pivot, i]].abs() {
                pivot = r;
            }
        }
        if m[[pivot, i]].abs() < 1e-9 {
            return 0.0;
        }
        if pivot != i {
            for j in 0..n {
                let tmp = m[[i, j]];
                m[[i, j]] = m[[pivot, j]];
                m[[pivot, j]] = tmp;
            }
            det = -det;
        }
        det *= m[[i, i]];
        let pv = m[[i, i]];
        for r in (i + 1)..n {
            let factor = m[[r, i]] / pv;
            for c in i..n {
                let s = m[[i, c]];
                m[[r, c]] -= factor * s;
            }
        }
    }
    det
}

#[test]
fn tee_matmul_parity_with_ndarray_dot() {
    for &(m, k, n) in &[
        (16usize, 16, 16),
        (32, 64, 32),
        (128, 256, 128),
        (2048, 2048, 1024),
    ] {
        let mut rng = ChaCha20Rng::from_seed([42u8; 32]);
        let a = sample_normal(&mut rng, m, k);
        let b = sample_normal(&mut rng, k, n);

        let via_ndarray = a.dot(&b);
        let via_tee = to_array(&tee_matmul(&to_matrix(&a), &to_matrix(&b)));

        assert_eq!(via_ndarray.dim(), via_tee.dim());

        let tol = 6.0 * (k as f32) * f32::EPSILON;
        let mut max_abs = 0.0f32;
        for (x, y) in via_ndarray.iter().zip(via_tee.iter()) {
            max_abs = max_abs.max((x - y).abs());
        }
        assert!(
            max_abs <= tol,
            "tee_matmul vs ndarray.dot mismatch at (m={m}, k={k}, n={n}): max abs = {max_abs:.3e}, tol = {tol:.3e}"
        );
    }
}

#[test]
fn disabled_stack_is_identity() {
    let mut rng = MaskSeed::from_bytes([0u8; 32]).rng();
    let h = Array2::<f32>::from_shape_fn((4, 3), |(_i, _j)| 1.0);
    let (stacked, n) = stack_shield(&to_matrix(&h), ShieldConfig::none(), &mut rng);
    let stacked = to_array(&stacked);
    assert_eq!(n, 4);
    assert_eq!(stacked.shape(), &[4, 3]);
    assert!(stacked.iter().all(|v| (*v - 1.0).abs() < 1e-9));
}

#[test]
fn shield_rows_have_expected_energy() {
    let mut rng = MaskSeed::from_bytes([3u8; 32]).rng();
    let d = 64;
    let n = 8;
    let h = Array2::<f32>::from_shape_fn((n, d), |(_i, j)| if j % 3 == 0 { 1.0 } else { 0.0 });
    let scale = 4.0;
    let h = to_matrix(&h);
    let (stacked, n_data) = stack_shield(&h, ShieldConfig::new(16, F32(scale)), &mut rng);
    assert_eq!(n_data, n);

    let mean_norm_orig = mean_row_norm(&h).0;
    let target = scale * mean_norm_orig;

    let rows: Vec<Vec<F32>> = (n_data..stacked.nrows()).map(|i| stacked.row(i).clone()).collect();
    let shield = Matrix::from_rows(rows, d).unwrap();
    let mean_shield_norm = mean_row_norm(&shield).0;
    assert!(
        (mean_shield_norm - target).abs() / target < 0.2,
        "shield norm {mean_shield_norm} far from target {target}",
    );
}

fn through_bf16(m: &Array2<f32>) -> Array2<f32> {
    m.mapv(|v| bf16::from_f32(v).to_f32())
}

fn mean_abs(a: &Array2<f32>, b: &Array2<f32>) -> f32 {
    let acc: f32 = a.iter().zip(b.iter()).map(|(x, y)| (x - y).abs()).sum();
    acc / a.len() as f32
}

/// Rounds operands and mask to bfloat16, and reports what the round trip loses.
#[test]
fn bf16_parity_small_shape() {
    let (n, d, p) = (64, 64, 64);
    let mut rng = ChaCha20Rng::from_seed([11u8; 32]);
    let h = sample_normal(&mut rng, n, d);
    let w = sample_normal(&mut rng, d, p);
    let mask = at_rng(&mut rng, |r| GeloMask::<F32>::fresh(n, r));

    let target = h.dot(&w);
    let v = to_array(&mask.apply(&to_matrix(&h))).dot(&w);
    let recovered = to_array(&mask.unapply(&to_matrix(&v)));

    let h_bf = through_bf16(&h);
    let w_bf = through_bf16(&w);
    let a_bf = through_bf16(&to_array(mask.matrix()));
    let v_bf = a_bf.dot(&h_bf).dot(&w_bf);
    let recovered_bf = a_bf.t().dot(&v_bf);
    let target_bf = h_bf.dot(&w_bf);

    let rms = (target.iter().map(|x| x * x).sum::<f32>() / target.len() as f32).sqrt();
    let exact = mean_abs(&recovered, &target) / rms;
    let rounded = mean_abs(&recovered_bf, &target) / rms;
    let rounded_both = mean_abs(&recovered_bf, &target_bf) / rms;
    println!("mean/rms: f32 {exact:.3e}, bf16 {rounded:.3e}, bf16 target {rounded_both:.3e}");
    assert!(exact < 1e-5);
    assert!(rounded < 5e-2 && rounded_both < 5e-2);
    assert!(exact < rounded);
}
