//! Attention over single-precision floats.

use std::sync::Mutex;

use gelo::attention::{
    add_gaussian, permuted_attention, permuted_attention_cached, AttentionMask, PermAttnConfig,
};
use gelo::error::OffloadError;
use gelo::matrix::{invert, Matrix, Tensor3};
use gelo::out_attn_mult::{offload_qkt, offload_qkt_batched};
use gelo::profile::Profile;
use gelo::rng::{MaskRng, MaskSeed};
use gelo::scalar::{Ops, Scalar};
use gelo::sim::{InProcessTrustedExecutor, PlaintextExecutor, RayonCpuEngine};
use gelo::softmax::softmax_rowwise;
use gelo::substrate::{GpuOffloadEngine, TrustedExecutor, WeightHandle};
use ndarray::{Array2, Array3, Axis};
use rand::{Rng, SeedableRng};
use rand_chacha::ChaCha20Rng;
use rand_distr::{Distribution, StandardNormal, Uniform};
use rustdct::DctPlanner;

/// Single-precision scalars.
#[derive(Clone, Copy, Debug, PartialEq)]
struct F32(f32);

fn chacha(rng: &MaskRng) -> ChaCha20Rng {
    let mut c = ChaCha20Rng::from_seed(rng.seed());
    c.set_stream(rng.stream());
    c.set_word_pos(rng.word_pos());
    c
}

static PLANNER: Mutex<Option<DctPlanner<f32>>> = Mutex::new(None);

impl Scalar for F32 {
    fn ops() -> Ops<F32> {
        unreachable!()
    }
    fn from_int(i: i64) -> F32 {
        F32(i as f32)
    }
    fn from_count(n: usize) -> F32 {
        F32(n as f32)
    }
    fn plus(self, o: F32) -> F32 {
        F32(self.0 + o.0)
    }
    fn minus(self, o: F32) -> F32 {
        F32(self.0 - o.0)
    }
    fn times(self, o: F32) -> F32 {
        F32(self.0 * o.0)
    }
    fn over(self, o: F32) -> F32 {
        F32(self.0 / o.0)
    }
    fn negated(self) -> F32 {
        F32(-self.0)
    }
    fn square_root(self) -> F32 {
        F32(self.0.sqrt())
    }
    fn three_halves_power(self) -> F32 {
        F32(self.0.powf(1.5))
    }
    fn exponential(self) -> F32 {
        F32(self.0.exp())
    }
    fn larger(self, o: F32) -> F32 {
        F32(self.0.max(o.0))
    }
    fn lowest() -> F32 {
        F32(f32::NEG_INFINITY)
    }
    fn at_most(self, o: F32) -> bool {
        self.0 <= o.0
    }
    fn below(self, o: F32) -> bool {
        self.0 < o.0
    }
    fn negligible() -> F32 {
        F32(1e-30)
    }
    fn agrees_with(self, o: F32, size: F32, terms: usize) -> bool {
        (self.0 - o.0).abs() <= f32::EPSILON * (terms as f32 + 8.0) * size.0
    }
    fn gaussian_pair(u: u32, v: u32, sigma: F32) -> (F32, F32) {
        let scale = 1.0 / ((1u32 << 24) as f32);
        let bias = 0.5 / ((1u32 << 24) as f32);
        let u1 = u as f32 * scale + bias;
        let u2 = v as f32 * scale + bias;
        let r = sigma.0 * (-2.0f32 * u1.ln()).sqrt();
        let (s, c) = (std::f32::consts::TAU * u2).sin_cos();
        (F32(r * c), F32(r * s))
    }
    fn standard_normal(rng: &mut MaskRng) -> F32 {
        let mut c = chacha(rng);
        let z: f32 = StandardNormal.sample(&mut c);
        rng.set_word_pos(c.get_word_pos());
        F32(z)
    }
    fn uniform_between(lo: F32, hi: F32, rng: &mut MaskRng) -> F32 {
        let mut c = chacha(rng);
        let z: f32 = Uniform::new(lo.0, hi.0).unwrap().sample(&mut c);
        rng.set_word_pos(c.get_word_pos());
        F32(z)
    }
    fn cosine_transform(column: Vec<F32>) -> Vec<F32> {
        let mut buf: Vec<f32> = column.iter().map(|x| x.0).collect();
        let plan = {
            let mut slot = PLANNER.lock().unwrap();
            slot.get_or_insert_with(DctPlanner::new).plan_dct4(buf.len())
        };
        plan.process_dct4(&mut buf);
        buf.into_iter().map(F32).collect()
    }
    fn shown(self) -> String {
        format!("{}", self.0)
    }
}

fn to_matrix(a: &Array2<f32>) -> Matrix<F32> {
    let rows = a.rows().into_iter().map(|r| r.iter().map(|x| F32(*x)).collect()).collect();
    Matrix::from_rows(rows, a.ncols()).unwrap()
}

fn to_array(m: &Matrix<F32>) -> Array2<f32> {
    Array2::from_shape_fn((m.nrows(), m.ncols()), |(i, j)| m.row(i)[j].0)
}

/// Runs `f` on a mask stream at the generator's place, and moves the generator along.
fn at_rng<R>(rng: &mut ChaCha20Rng, f: impl FnOnce(&mut MaskRng) -> R) -> R {
    let mut m = MaskRng::at(rng.get_seed(), rng.get_stream(), rng.get_word_pos());
    let r = f(&mut m);
    rng.set_word_pos(m.word_pos());
    r
}

fn to_tensor(a: &Array3<f32>) -> Tensor3<F32> {
    let (h, n, d) = a.dim();
    let heads = (0..h).map(|i| to_matrix(&a.index_axis(Axis(0), i).to_owned())).collect();
    Tensor3::from_heads(heads, n, d).unwrap()
}

fn to_array3(t: &Tensor3<F32>) -> Array3<f32> {
    let (h, n, d) = t.dim();
    Array3::from_shape_fn((h, n, d), |(i, j, k)| t.head(i).get(j, k).0)
}

fn drift_between(a: &Array3<f32>, b: &Array3<f32>) -> f32 {
    assert_eq!(a.dim(), b.dim());
    a.iter().zip(b.iter()).map(|(x, y)| (x - y).abs()).fold(0.0f32, f32::max)
}

fn softmaxed(scores: &Array2<f32>) -> Array2<f32> {
    to_array(&softmax_rowwise(&to_matrix(scores)))
}

fn random_q3(h: usize, n: usize, d: usize, rng: &mut ChaCha20Rng) -> Array3<f32> {
    Array3::from_shape_fn((h, n, d), |_| rng.random::<f32>() * 2.0 - 1.0)
}

/// `softmax(Q·Kᵀ·scale)·V` per head, with keys after the query's position left out where
/// asked for.
fn plain_attention(
    q: &Array3<f32>,
    k: &Array3<f32>,
    v: &Array3<f32>,
    scale: f32,
    q_pos_offset: usize,
    causal: bool,
) -> Array3<f32> {
    let (h, n_q, d) = q.dim();
    let n_kv = k.dim().1;
    let mut out = Array3::<f32>::zeros((h, n_q, d));
    for hi in 0..h {
        let qh = q.index_axis(Axis(0), hi);
        let kh = k.index_axis(Axis(0), hi);
        let vh = v.index_axis(Axis(0), hi);
        let mut scores = qh.dot(&kh.t());
        scores.mapv_inplace(|x| x * scale);
        if causal {
            for i in 0..n_q {
                for j in 0..n_kv {
                    if j > q_pos_offset + i {
                        scores[(i, j)] = f32::NEG_INFINITY;
                    }
                }
            }
        }
        out.index_axis_mut(Axis(0), hi).assign(&softmaxed(&scores).dot(&vh));
    }
    out
}

fn run_permuted(
    q: &Array3<f32>,
    k: &Array3<f32>,
    v: &Array3<f32>,
    scale: f32,
    cfg: PermAttnConfig<F32>,
    rng: &mut ChaCha20Rng,
) -> Array3<f32> {
    let engine = RayonCpuEngine::new();
    let (q, k, v) = (to_tensor(q), to_tensor(k), to_tensor(v));
    let out = at_rng(rng, |r| {
        permuted_attention(&engine, &q, &k, &v, F32(scale), AttentionMask::Unmasked, cfg, r)
    });
    to_array3(&out.unwrap())
}

fn run_cached(
    q: &Array3<f32>,
    k: &Array3<f32>,
    v: &Array3<f32>,
    scale: f32,
    q_pos_offset: usize,
    cfg: PermAttnConfig<F32>,
    rng: &mut ChaCha20Rng,
) -> Array3<f32> {
    let engine = RayonCpuEngine::new();
    let (q, k, v) = (to_tensor(q), to_tensor(k), to_tensor(v));
    let out = at_rng(rng, |r| {
        permuted_attention_cached(
            &engine,
            &q,
            &k,
            &v,
            F32(scale),
            q_pos_offset,
            AttentionMask::Causal,
            cfg,
            r,
        )
    });
    to_array3(&out.unwrap())
}

#[test]
fn permuted_attention_parity_sigma_zero() {
    let h = 4;
    let n = 16;
    let d = 32;
    let scale = 1.0 / (d as f32).sqrt();
    let mut rng = ChaCha20Rng::seed_from_u64(0xABBA);
    let q = random_q3(h, n, d, &mut rng);
    let k = random_q3(h, n, d, &mut rng);
    let v = random_q3(h, n, d, &mut rng);

    let plain = plain_attention(&q, &k, &v, scale, 0, false);
    let out = run_permuted(&q, &k, &v, scale, PermAttnConfig::disabled_noise(), &mut rng);

    let drift = drift_between(&plain, &out);
    assert!(drift < 1e-5, "σ=0 multi-head equivariance must be bit-exact: drift={drift}");
}

#[test]
fn permuted_attention_drift_bounded_at_hnm_sigma() {
    let h = 8;
    let n = 32;
    let d = 64;
    let scale = 1.0 / (d as f32).sqrt();
    let mut rng = ChaCha20Rng::seed_from_u64(0xC0DE);
    let q = random_q3(h, n, d, &mut rng);
    let k = random_q3(h, n, d, &mut rng);
    let v = random_q3(h, n, d, &mut rng);

    let plain = plain_attention(&q, &k, &v, scale, 0, false);
    let out = run_permuted(&q, &k, &v, scale, PermAttnConfig::hidden_no_more(), &mut rng);

    let drift = drift_between(&plain, &out);
    assert!(
        drift < 5e-2,
        "σ=0.01 multi-head drift should stay below 5e-2 elementwise: drift={drift}",
    );
}

#[test]
fn permuted_attention_cached_matches_full_prefill_at_sigma_zero() {
    let h = 4;
    let n = 16;
    let d = 32;
    let scale = 1.0 / (d as f32).sqrt();
    let mut rng = ChaCha20Rng::seed_from_u64(0xC4C4_E0E0);
    let q = random_q3(h, n, d, &mut rng);
    let k = random_q3(h, n, d, &mut rng);
    let v = random_q3(h, n, d, &mut rng);

    let plain = plain_attention(&q, &k, &v, scale, 0, true);
    let out = run_cached(&q, &k, &v, scale, 0, PermAttnConfig::disabled_noise(), &mut rng);

    let drift = drift_between(&plain, &out);
    assert!(drift < 1e-5, "σ=0 cached prefill equivariance must be bit-exact: drift={drift}");
}

#[test]
fn permuted_attention_cached_decode_shape_matches_plain() {
    let h = 4;
    let d = 32;
    let scale = 1.0 / (d as f32).sqrt();

    for n_kv in [8usize, 64, 256] {
        let mut rng = ChaCha20Rng::seed_from_u64(0xDEC0_DE00 ^ n_kv as u64);
        let q = random_q3(h, 1, d, &mut rng);
        let k = random_q3(h, n_kv, d, &mut rng);
        let v = random_q3(h, n_kv, d, &mut rng);

        let q_pos_offset = n_kv - 1;
        let plain = plain_attention(&q, &k, &v, scale, q_pos_offset, true);
        let out =
            run_cached(&q, &k, &v, scale, q_pos_offset, PermAttnConfig::disabled_noise(), &mut rng);

        let drift = drift_between(&plain, &out);
        assert!(
            drift < 1e-5,
            "decode-shape (n_q=1, n_kv={n_kv}) must be bit-exact at σ=0: drift={drift}",
        );
    }
}

#[test]
fn permuted_attention_cached_partial_prefill_at_sigma_zero() {
    let h = 4;
    let d = 32;
    let scale = 1.0 / (d as f32).sqrt();

    let n_q = 4;
    let n_kv = 16;
    let q_pos_offset = n_kv - n_q;
    let mut rng = ChaCha20Rng::seed_from_u64(0xBEEF_C0DE);
    let q = random_q3(h, n_q, d, &mut rng);
    let k = random_q3(h, n_kv, d, &mut rng);
    let v = random_q3(h, n_kv, d, &mut rng);

    let plain = plain_attention(&q, &k, &v, scale, q_pos_offset, true);
    let out =
        run_cached(&q, &k, &v, scale, q_pos_offset, PermAttnConfig::disabled_noise(), &mut rng);

    let drift = drift_between(&plain, &out);
    assert!(drift < 1e-5, "continuation-prefill must be bit-exact at σ=0: drift={drift}");
}

#[test]
fn permuted_attention_cached_drift_bounded_at_hnm_sigma() {
    let h = 4;
    let d = 64;
    let scale = 1.0 / (d as f32).sqrt();
    let n_kv = 64;
    let q_pos_offset = n_kv - 1;
    let mut rng = ChaCha20Rng::seed_from_u64(0xFEED_C0DE);
    let q = random_q3(h, 1, d, &mut rng);
    let k = random_q3(h, n_kv, d, &mut rng);
    let v = random_q3(h, n_kv, d, &mut rng);

    let plain = plain_attention(&q, &k, &v, scale, q_pos_offset, true);
    let out =
        run_cached(&q, &k, &v, scale, q_pos_offset, PermAttnConfig::hidden_no_more(), &mut rng);

    let drift = drift_between(&plain, &out);
    assert!(drift < 5e-2, "σ=0.01 decode-shape drift should stay below 5e-2: drift={drift}");
}

#[test]
fn permuted_attention_cached_rejects_n_q_gt_n_kv() {
    let engine = RayonCpuEngine::new();
    let mut rng = ChaCha20Rng::seed_from_u64(0);
    let q = to_tensor(&Array3::<f32>::zeros((2, 8, 4)));
    let k = to_tensor(&Array3::<f32>::zeros((2, 4, 4)));
    let v = to_tensor(&Array3::<f32>::zeros((2, 4, 4)));
    let r = at_rng(&mut rng, |r| {
        permuted_attention_cached(
            &engine,
            &q,
            &k,
            &v,
            F32(1.0),
            0,
            AttentionMask::Unmasked,
            PermAttnConfig::disabled_noise(),
            r,
        )
    });
    assert!(r.is_err());
}

#[test]
fn shape_mismatch_returns_error() {
    let mut rng = ChaCha20Rng::seed_from_u64(0);
    let engine = RayonCpuEngine::new();
    let q = to_tensor(&Array3::<f32>::zeros((2, 4, 8)));
    let k = to_tensor(&Array3::<f32>::zeros((2, 4, 8)));
    let v = to_tensor(&Array3::<f32>::zeros((2, 4, 4)));
    let r = at_rng(&mut rng, |r| {
        permuted_attention(
            &engine,
            &q,
            &k,
            &v,
            F32(1.0),
            AttentionMask::Unmasked,
            PermAttnConfig::disabled_noise(),
            r,
        )
    });
    assert!(r.is_err());
}

fn rand2(rows: usize, cols: usize, rng: &mut ChaCha20Rng, scale: f32) -> Array2<f32> {
    let normal = StandardNormal;
    Array2::from_shape_fn((rows, cols), |_| {
        let z: f32 = normal.sample(rng);
        z * scale
    })
}

fn qkt(q: &Array2<f32>, kt: &Array2<f32>, probes: usize, rng: &mut ChaCha20Rng) -> Array2<f32> {
    let engine = RayonCpuEngine::new();
    let (q, kt) = (to_matrix(q), to_matrix(kt));
    let mut profile = Profile::new();
    let out = at_rng(rng, |r| offload_qkt(&engine, r, &q, &kt, probes, &mut profile)).unwrap();
    let calls = |name| profile.get(name).map_or(0, |(_, n)| n);
    assert_eq!(calls("outattn:setup_stack"), 1);
    assert_eq!(calls("engine:matmul_dynamic"), 1);
    assert_eq!(calls("uverify:attn_qkt"), u64::from(probes > 0));
    assert_eq!(calls("outattn:recover"), 1);
    to_array(&out)
}

#[test]
fn out_attn_mult_recovers_qkt() {
    let mut rng = ChaCha20Rng::from_seed([91u8; 32]);
    let n = 32;
    let d = 16;
    let q = rand2(n, d, &mut rng, 0.5);
    let kt = rand2(d, n, &mut rng, 0.5);

    let expected = q.dot(&kt);
    let got = qkt(&q, &kt, 0, &mut rng);

    assert_eq!(got.shape(), expected.shape());
    for ((i, j), e) in expected.indexed_iter() {
        let diff = (e - got[[i, j]]).abs();
        assert!(
            diff < 1e-3,
            "OutAttnMult diverges at ({i},{j}): expected={e} got={}",
            got[[i, j]]
        );
    }
}

#[test]
fn out_attn_mult_handles_small_sequence() {
    let mut rng = ChaCha20Rng::from_seed([7u8; 32]);
    let n = 4;
    let d = 32;
    let q = rand2(n, d, &mut rng, 0.3);
    let kt = rand2(d, n, &mut rng, 0.3);

    let expected = q.dot(&kt);
    let got = qkt(&q, &kt, 0, &mut rng);

    for ((i, j), e) in expected.indexed_iter() {
        assert!(
            (e - got[[i, j]]).abs() < 1e-3,
            "small-n OutAttnMult diverges at ({i},{j}): {e} vs {}",
            got[[i, j]],
        );
    }
}

#[test]
fn out_attn_mult_with_verify_accepts_honest_engine() {
    let mut rng = ChaCha20Rng::from_seed([99u8; 32]);
    let n = 24;
    let d = 16;
    let q = rand2(n, d, &mut rng, 0.5);
    let kt = rand2(d, n, &mut rng, 0.5);
    let got = qkt(&q, &kt, 8, &mut rng);
    let expected = q.dot(&kt);
    for ((i, j), e) in expected.indexed_iter() {
        assert!((e - got[[i, j]]).abs() < 1e-3);
    }
}

fn rand_heads(
    h: usize,
    n: usize,
    d: usize,
    scale: f32,
    rng: &mut ChaCha20Rng,
) -> (Array3<f32>, Array3<f32>) {
    let mut q3 = Array3::<f32>::zeros((h, n, d));
    let mut kt3 = Array3::<f32>::zeros((h, d, n));
    for hi in 0..h {
        q3.index_axis_mut(Axis(0), hi).assign(&rand2(n, d, rng, scale));
        kt3.index_axis_mut(Axis(0), hi).assign(&rand2(d, n, rng, scale));
    }
    (q3, kt3)
}

fn qkt_batched(
    q3: &Array3<f32>,
    kt3: &Array3<f32>,
    probes: usize,
    rng: &mut ChaCha20Rng,
) -> Array3<f32> {
    let engine = RayonCpuEngine::new();
    let (q, kt) = (to_tensor(q3), to_tensor(kt3));
    let mut profile = Profile::new();
    let out =
        at_rng(rng, |r| offload_qkt_batched(&engine, r, &q, &kt, probes, &mut profile)).unwrap();
    let calls = |name| profile.get(name).map_or(0, |(_, n)| n);
    assert_eq!(calls("outattn:setup_stack_batched"), 1);
    assert_eq!(calls("engine:matmul_dynamic_batched"), 1);
    assert_eq!(calls("uverify:attn_qkt_batched"), u64::from(probes > 0));
    assert_eq!(calls("outattn:recover_batched"), 1);
    to_array3(&out)
}

#[test]
fn out_attn_mult_batched_recovers_per_head_qkt() {
    let mut rng = ChaCha20Rng::from_seed([0xAB; 32]);
    let h = 8;
    let n = 20;
    let d = 12;
    let (q3, kt3) = rand_heads(h, n, d, 0.4, &mut rng);
    let got = qkt_batched(&q3, &kt3, 0, &mut rng);

    for hi in 0..h {
        let expected = q3.index_axis(Axis(0), hi).dot(&kt3.index_axis(Axis(0), hi));
        for ((i, j), e) in expected.indexed_iter() {
            let g = got[[hi, i, j]];
            assert!(
                (e - g).abs() < 1e-3,
                "batched OutAttnMult diverges at head={hi} ({i},{j}): expected={e}, got={g}",
            );
        }
    }
}

#[test]
fn out_attn_mult_batched_with_verify_accepts_honest_engine() {
    let mut rng = ChaCha20Rng::from_seed([0xCD; 32]);
    let h = 4;
    let n = 16;
    let d = 8;
    let (q3, kt3) = rand_heads(h, n, d, 0.3, &mut rng);
    let got = qkt_batched(&q3, &kt3, 8, &mut rng);
    for hi in 0..h {
        let expected = q3.index_axis(Axis(0), hi).dot(&kt3.index_axis(Axis(0), hi));
        for ((i, j), e) in expected.indexed_iter() {
            assert!((e - got[[hi, i, j]]).abs() < 1e-3);
        }
    }
}

/// Answers with shapes of its own: scores are cut to these rows and columns, and what it gives
/// has heads, and context rows, that nobody asked for.
struct ShapedEngine {
    score_rows: usize,
    score_cols: usize,
    context_cols: usize,
    inner: RayonCpuEngine<F32>,
}

impl GpuOffloadEngine<F32> for ShapedEngine {
    fn register_weight(&mut self, _h: WeightHandle, _w: &Matrix<F32>) -> Result<(), OffloadError> {
        Ok(())
    }

    fn matmul(&self, h: WeightHandle, _input: &Matrix<F32>) -> Result<Matrix<F32>, OffloadError> {
        Err(OffloadError::WeightNotRegistered(h))
    }

    fn matmul_dynamic(
        &self,
        lhs: &Matrix<F32>,
        rhs: &Matrix<F32>,
    ) -> Result<Matrix<F32>, OffloadError> {
        self.inner.matmul_dynamic(lhs, rhs)
    }

    fn matmul_dynamic_batched(
        &self,
        lhs: &Tensor3<F32>,
        rhs: &Tensor3<F32>,
    ) -> Result<Tensor3<F32>, OffloadError> {
        let full = to_array3(&self.inner.matmul_dynamic_batched(lhs, rhs)?);
        let (h, n, m) = full.dim();
        // Scores are of queries against keys; context is of weights against values.
        let scores = lhs.dim().2 == 3;
        let (rows, cols) = if scores {
            (self.score_rows, self.score_cols)
        } else {
            (n + 2, self.context_cols)
        };
        let grown = |i, j, k| if i < h && j < n && k < m { full[[i, j, k]] } else { -99.0 };
        Ok(to_tensor(&Array3::from_shape_fn((h + 1, rows, cols), |(i, j, k)| grown(i, j, k))))
    }
}

fn shaped_attention(
    score_rows: usize,
    score_cols: usize,
    context_cols: usize,
    mask: AttentionMask,
) -> Result<(Array3<f32>, Array3<f32>, Array3<f32>), OffloadError> {
    let mut rng = ChaCha20Rng::seed_from_u64(7);
    // Five tokens of width three.
    let (q, k, v) = (
        random_q3(2, 5, 3, &mut rng),
        random_q3(2, 5, 3, &mut rng),
        random_q3(2, 5, 3, &mut rng),
    );
    let engine = ShapedEngine {
        score_rows,
        score_cols,
        context_cols,
        inner: RayonCpuEngine::new(),
    };
    let cfg = PermAttnConfig::disabled_noise();
    let (tq, tk, tv) = (to_tensor(&q), to_tensor(&k), to_tensor(&v));
    let out = at_rng(&mut rng, |r| {
        permuted_attention(&engine, &tq, &tk, &tv, F32(1.0), mask, cfg, r)
    })?;
    let causal = matches!(mask, AttentionMask::Causal);
    Ok((to_array3(&out), plain_attention(&q, &k, &v, 1.0, 0, causal), v))
}

#[test]
fn heads_and_rows_that_nobody_asked_for_are_not_looked_at() {
    for mask in [AttentionMask::Unmasked, AttentionMask::Causal] {
        let (out, plain, _) = shaped_attention(5, 5, 3, mask).unwrap();
        assert!(drift_between(&out, &plain) < 1e-4);
    }
    let mut rng = ChaCha20Rng::seed_from_u64(8);
    let (q3, kt3) = rand_heads(2, 4, 3, 0.5, &mut rng);
    let engine = ShapedEngine {
        score_rows: 8,
        score_cols: 8,
        context_cols: 8,
        inner: RayonCpuEngine::new(),
    };
    let (q, kt) = (to_tensor(&q3), to_tensor(&kt3));
    let out = at_rng(&mut rng, |r| {
        offload_qkt_batched(&engine, r, &q, &kt, 2, &mut Profile::new())
    });
    let out = to_array3(&out.unwrap());
    for h in 0..2 {
        let want = q3.index_axis(Axis(0), h).dot(&kt3.index_axis(Axis(0), h));
        assert!(max_abs_diff(&out.index_axis(Axis(0), h).to_owned(), &want) < 1e-3);
    }
}

#[test]
fn thin_scores_and_context_stand_for_all() {
    // One score per query: every weight is one.
    let (out, _, v) = shaped_attention(5, 1, 3, AttentionMask::Unmasked).unwrap();
    for h in 0..2 {
        let sums = v.index_axis(Axis(0), h).sum_axis(Axis(0));
        for i in 0..5 {
            for c in 0..3 {
                assert!((out[[h, i, c]] - sums[c]).abs() < 1e-5);
            }
        }
    }
    // One row of scores: every query has the same weights.
    let (out, _, _) = shaped_attention(1, 5, 3, AttentionMask::Unmasked).unwrap();
    for i in 1..5 {
        assert_eq!(out[[0, i, 0]], out[[0, 0, 0]]);
    }
    // One column of context: every entry of a row is the same.
    let (out, plain, _) = shaped_attention(5, 5, 1, AttentionMask::Unmasked).unwrap();
    for i in 0..5 {
        assert!((out[[1, i, 0]] - plain[[1, i, 0]]).abs() < 1e-4);
        assert_eq!(out[[1, i, 2]], out[[1, i, 0]]);
    }
}

#[test]
fn answers_that_cannot_be_used_are_refused() {
    let unmasked = AttentionMask::Unmasked;
    for (rows, cols, context) in [(4, 5, 3), (5, 6, 3), (5, 5, 2)] {
        let err = shaped_attention(rows, cols, context, unmasked).unwrap_err();
        assert_eq!(err, OffloadError::AnswerShape);
    }
    // A causal mask wants a score at every position.
    let err = shaped_attention(5, 1, 3, AttentionMask::Causal).unwrap_err();
    assert_eq!(err, OffloadError::AnswerShape);
    let err = shaped_attention(1, 5, 3, AttentionMask::Causal).unwrap_err();
    assert_eq!(err, OffloadError::AnswerShape);
}

#[test]
fn plain_attention_spreads_thin_values() {
    let mut rng = ChaCha20Rng::seed_from_u64(9);
    let q = random_q3(1, 2, 3, &mut rng);
    let k = random_q3(1, 4, 3, &mut rng);
    let thin = random_q3(1, 4, 1, &mut rng);
    let wide = Array3::from_shape_fn((1, 4, 3), |(h, i, _)| thin[[h, i, 0]]);
    let mut exec = PlaintextExecutor::new(RayonCpuEngine::<F32>::new());
    let unmasked = AttentionMask::Unmasked;
    let mut ask = |v: &Array3<f32>| {
        let (q, k, v) = (to_tensor(&q), to_tensor(&k), to_tensor(v));
        exec.offload_attention_permuted(&q, &k, &v, F32(1.0), unmasked)
    };
    let got = to_array3(&ask(&thin).unwrap());
    assert!(drift_between(&got, &to_array3(&ask(&wide).unwrap())) < 1e-6);
    assert!(ask(&random_q3(1, 4, 2, &mut rng)).is_err());
    assert!(ask(&random_q3(1, 3, 3, &mut rng)).is_err());
    // Without heads nothing has to fit.
    let (none, odd) = (Array3::zeros((0, 2, 3)), Array3::zeros((1, 7, 5)));
    let (none, odd) = (to_tensor(&none), to_tensor(&odd));
    let out = exec.offload_attention_permuted(&none, &odd, &odd, F32(1.0), unmasked).unwrap();
    assert_eq!(out.dim(), (0, 2, 3));
}

/// `softmax(Q·Kᵀ/√d)·V` of a single head.
fn attention(q: &Array2<f32>, k: &Array2<f32>, v: &Array2<f32>) -> Array2<f32> {
    let (_, d) = q.dim();
    let scale = 1.0 / (d as f32).sqrt();
    let mut scores = q.dot(&k.t());
    scores.mapv_inplace(|x| x * scale);
    softmaxed(&scores).dot(v)
}

fn permute_rows(m: &Array2<f32>, perm: &Vec<usize>) -> Array2<f32> {
    to_array(&to_matrix(m).permute_rows(perm))
}

fn noisy(m: &Array2<f32>, sigma: f32, rng: &mut ChaCha20Rng) -> Array2<f32> {
    let t = Tensor3::from_heads(vec![to_matrix(m)], m.nrows(), m.ncols()).unwrap();
    to_array(at_rng(rng, |r| add_gaussian(&t, F32(sigma), r)).head(0))
}

/// Attention of a single head through the protocol, with noise of this deviation.
fn permutation_shielded_attention(
    q: &Array2<f32>,
    k: &Array2<f32>,
    v: &Array2<f32>,
    sigma: f32,
    rng: &mut ChaCha20Rng,
) -> Array2<f32> {
    let scale = 1.0 / (q.ncols() as f32).sqrt();
    let mut cfg = PermAttnConfig::disabled_noise();
    cfg.noise_sigma = F32(sigma);
    let lift = |m: &Array2<f32>| m.clone().insert_axis(Axis(0));
    run_permuted(&lift(q), &lift(k), &lift(v), scale, cfg, rng).index_axis(Axis(0), 0).to_owned()
}

fn random_matrix(n: usize, d: usize, rng: &mut ChaCha20Rng) -> Array2<f32> {
    Array2::from_shape_fn((n, d), |_| rng.random::<f32>() * 2.0 - 1.0)
}

fn max_abs_diff(a: &Array2<f32>, b: &Array2<f32>) -> f32 {
    assert_eq!(a.dim(), b.dim());
    a.iter().zip(b.iter()).map(|(x, y)| (x - y).abs()).fold(0.0f32, f32::max)
}

#[test]
fn equivariance_holds_exactly_at_sigma_zero() {
    let cases = [(8, 16), (16, 32), (32, 64), (64, 128)];
    for (n, d) in cases {
        let mut rng = ChaCha20Rng::seed_from_u64(0xCAFEBABE ^ (n as u64) << 8 ^ d as u64);
        let q = random_matrix(n, d, &mut rng);
        let k = random_matrix(n, d, &mut rng);
        let v = random_matrix(n, d, &mut rng);

        let plain = attention(&q, &k, &v);
        let recovered = permutation_shielded_attention(&q, &k, &v, 0.0, &mut rng);

        let drift = max_abs_diff(&plain, &recovered);
        assert!(
            drift < 1e-5,
            "σ=0 must be bit-equivalent up to f32 round-off: n={n}, d={d}, drift={drift}",
        );
    }
}

#[test]
fn drift_is_bounded_at_sigma_small() {
    let n = 64;
    let d = 128;
    let mut rng = ChaCha20Rng::seed_from_u64(0xDEADBEEF);
    let q = random_matrix(n, d, &mut rng);
    let k = random_matrix(n, d, &mut rng);
    let v = random_matrix(n, d, &mut rng);

    let plain = attention(&q, &k, &v);

    let mut worst = 0.0f32;
    for _ in 0..8 {
        let recovered = permutation_shielded_attention(&q, &k, &v, 0.001, &mut rng);
        let drift = max_abs_diff(&plain, &recovered);
        worst = worst.max(drift);
    }
    assert!(worst < 5e-3, "σ=0.001 drift should stay below 5e-3 elementwise; got {worst}");
}

#[test]
fn drift_is_bounded_at_sigma_hidden_no_more() {
    let n = 64;
    let d = 128;
    let mut rng = ChaCha20Rng::seed_from_u64(0xABCDEF01);
    let q = random_matrix(n, d, &mut rng);
    let k = random_matrix(n, d, &mut rng);
    let v = random_matrix(n, d, &mut rng);

    let plain = attention(&q, &k, &v);

    let mut worst = 0.0f32;
    for _ in 0..8 {
        let recovered = permutation_shielded_attention(&q, &k, &v, 0.01, &mut rng);
        let drift = max_abs_diff(&plain, &recovered);
        worst = worst.max(drift);
    }
    assert!(worst < 5e-2, "σ=0.01 drift should stay below 5e-2 elementwise; got {worst}");
}

#[test]
fn permutation_alone_is_exact() {
    let n = 32;
    let d = 64;
    let mut rng = ChaCha20Rng::seed_from_u64(0x12345678);
    let q = random_matrix(n, d, &mut rng);
    let k = random_matrix(n, d, &mut rng);
    let v = random_matrix(n, d, &mut rng);

    let plain = attention(&q, &k, &v);

    let perm = at_rng(&mut rng, |r| r.permutation(n));
    let q_p = permute_rows(&q, &perm);
    let k_p = permute_rows(&k, &perm);
    let v_p = permute_rows(&v, &perm);

    let scrambled = attention(&q_p, &k_p, &v_p);
    let recovered = permute_rows(&scrambled, &invert(&perm));

    let drift = max_abs_diff(&plain, &recovered);
    assert!(
        drift < 1e-5,
        "pure permutation equivariance must hold to f32 round-off: drift={drift}",
    );
}

#[test]
fn shield_rows_corrupt_attention_output() {
    let n_data = 16;
    let k_shield = 4;
    let d = 32;
    let mut rng = ChaCha20Rng::seed_from_u64(0x9999);

    let q = random_matrix(n_data, d, &mut rng);
    let k = random_matrix(n_data, d, &mut rng);
    let v = random_matrix(n_data, d, &mut rng);
    let plain = attention(&q, &k, &v);

    let mut augment = |m: &Array2<f32>| {
        let fake = Array2::from_shape_fn((k_shield, d), |_| 5.0 * (rng.random::<f32>() * 2.0 - 1.0));
        to_array(&to_matrix(m).stacked_on(&to_matrix(&fake)))
    };
    let q_aug = augment(&q);
    let k_aug = augment(&k);
    let v_aug = augment(&v);

    let augmented = attention(&q_aug, &k_aug, &v_aug);
    let stripped = to_array(&to_matrix(&augmented).first_rows(n_data));

    let drift = max_abs_diff(&plain, &stripped);
    assert!(
        drift > 1e-2,
        "shield rows should corrupt the data-row attention output; drift={drift}",
    );
}

fn gram(m: &Array2<f32>) -> Array2<f32> {
    m.t().dot(m)
}

#[test]
fn permutation_alone_preserves_gram() {
    let n = 32;
    let d = 16;
    let mut rng = ChaCha20Rng::seed_from_u64(0xCC11FF22);
    let h = random_matrix(n, d, &mut rng);

    let perm = at_rng(&mut rng, |r| r.permutation(n));
    let h_perm = permute_rows(&h, &perm);

    let drift = max_abs_diff(&gram(&h), &gram(&h_perm));
    assert!(
        drift < 1e-5,
        "permutation alone preserves column-Gram (the leak): drift={drift}",
    );
}

#[test]
fn additive_noise_breaks_gram_identity() {
    let n = 64;
    let d = 128;
    let mut rng = ChaCha20Rng::seed_from_u64(0xBEEFCAFE);
    let q = random_matrix(n, d, &mut rng);

    let gram_clear = gram(&q);
    let q_noisy = noisy(&q, 0.01, &mut rng);
    let gram_noisy = gram(&q_noisy);

    let drift = max_abs_diff(&gram_clear, &gram_noisy);
    assert!(drift > 1e-4, "noise should perturb the Gram visibly: drift={drift}");
}

#[test]
fn worst_case_drift_scales_with_sigma() {
    let n = 32;
    let d = 64;
    let mut rng = ChaCha20Rng::seed_from_u64(0x42424242);
    let q = random_matrix(n, d, &mut rng);
    let k = random_matrix(n, d, &mut rng);
    let v = random_matrix(n, d, &mut rng);
    let plain = attention(&q, &k, &v);

    let drift_low = (0..8)
        .map(|_| {
            let r = permutation_shielded_attention(&q, &k, &v, 0.001, &mut rng);
            max_abs_diff(&plain, &r)
        })
        .fold(0.0f32, f32::max);

    let drift_hi = (0..8)
        .map(|_| {
            let r = permutation_shielded_attention(&q, &k, &v, 0.01, &mut rng);
            max_abs_diff(&plain, &r)
        })
        .fold(0.0f32, f32::max);

    assert!(
        drift_hi > drift_low,
        "σ=0.01 drift {drift_hi} should exceed σ=0.001 drift {drift_low}",
    );
}

fn plain_executor_output(
    q: &Array3<f32>,
    k: &Array3<f32>,
    v: &Array3<f32>,
    scale: f32,
    mask: AttentionMask,
) -> Array3<f32> {
    let mut exec = PlaintextExecutor::new(RayonCpuEngine::<F32>::new());
    let (q, k, v) = (to_tensor(q), to_tensor(k), to_tensor(v));
    to_array3(&exec.offload_attention_permuted(&q, &k, &v, F32(scale), mask).unwrap())
}

fn permuting_executor_output(
    seed: [u8; 32],
    cfg: PermAttnConfig<F32>,
    q: &Array3<f32>,
    k: &Array3<f32>,
    v: &Array3<f32>,
    scale: f32,
    mask: AttentionMask,
) -> Array3<f32> {
    let mut exec =
        InProcessTrustedExecutor::with_seed(RayonCpuEngine::<F32>::new(), MaskSeed(seed))
            .with_perm_attention(cfg);
    let (q, k, v) = (to_tensor(q), to_tensor(k), to_tensor(v));
    to_array3(&exec.offload_attention_permuted(&q, &k, &v, F32(scale), mask).unwrap())
}

#[test]
fn trait_method_sigma_zero_matches_plaintext_executor() {
    let h = 4;
    let n = 16;
    let d_head = 32;
    let scale = 1.0 / (d_head as f32).sqrt();

    let mut rng = ChaCha20Rng::seed_from_u64(0xABCDEF);
    let q = random_q3(h, n, d_head, &mut rng);
    let k = random_q3(h, n, d_head, &mut rng);
    let v = random_q3(h, n, d_head, &mut rng);

    let plain_out = plain_executor_output(&q, &k, &v, scale, AttentionMask::Unmasked);
    let cfg = PermAttnConfig::disabled_noise();
    let out = permuting_executor_output([7u8; 32], cfg, &q, &k, &v, scale, AttentionMask::Unmasked);

    let drift = drift_between(&plain_out, &out);
    assert!(
        drift < 1e-5,
        "trait method @ σ=0 must match plaintext exec to f32 floor: drift={drift}",
    );
}

#[test]
fn trait_method_hnm_noise_deviates_bounded() {
    let h = 4;
    let n = 32;
    let d_head = 64;
    let scale = 1.0 / (d_head as f32).sqrt();

    let mut rng = ChaCha20Rng::seed_from_u64(0xC0FFEE);
    let q = random_q3(h, n, d_head, &mut rng);
    let k = random_q3(h, n, d_head, &mut rng);
    let v = random_q3(h, n, d_head, &mut rng);

    let plain_out = plain_executor_output(&q, &k, &v, scale, AttentionMask::Unmasked);
    let cfg = PermAttnConfig::hidden_no_more();
    let out = permuting_executor_output([9u8; 32], cfg, &q, &k, &v, scale, AttentionMask::Unmasked);

    let drift = drift_between(&plain_out, &out);
    assert!(
        drift > 0.0 && drift < 5e-2,
        "σ=0.01 should deviate but stay bounded: drift={drift}",
    );
}

#[test]
fn trait_method_seed_determinism() {
    let h = 2;
    let n = 8;
    let d_head = 16;
    let scale = 1.0 / (d_head as f32).sqrt();

    let mut rng = ChaCha20Rng::seed_from_u64(0x42);
    let q = random_q3(h, n, d_head, &mut rng);
    let k = random_q3(h, n, d_head, &mut rng);
    let v = random_q3(h, n, d_head, &mut rng);

    let seed = [0xAAu8; 32];
    let cfg = PermAttnConfig::hidden_no_more();
    let out1 = permuting_executor_output(seed, cfg, &q, &k, &v, scale, AttentionMask::Unmasked);
    let out2 = permuting_executor_output(seed, cfg, &q, &k, &v, scale, AttentionMask::Unmasked);

    let drift = drift_between(&out1, &out2);
    assert!(drift < 1e-7, "same seed must yield bit-identical output: drift={drift}");
}

#[test]
fn trait_method_causal_mask_matches_plaintext() {
    let h = 4;
    let n = 16;
    let d_head = 32;
    let scale = 1.0 / (d_head as f32).sqrt();

    let mut rng = ChaCha20Rng::seed_from_u64(0xC0DEC0DE);
    let q = random_q3(h, n, d_head, &mut rng);
    let k = random_q3(h, n, d_head, &mut rng);
    let v = random_q3(h, n, d_head, &mut rng);

    let plain_out = plain_executor_output(&q, &k, &v, scale, AttentionMask::Causal);
    let cfg = PermAttnConfig::disabled_noise();
    let out = permuting_executor_output([4u8; 32], cfg, &q, &k, &v, scale, AttentionMask::Causal);

    let drift = drift_between(&plain_out, &out);
    assert!(
        drift < 1e-5,
        "permuted causal mask must reproduce plain causal attention at σ=0: drift={drift}",
    );
}
