//! Executors and engines over single-precision floats.

use std::sync::{Arc, Mutex};

use gelo::error::OffloadError;
use gelo::mask::{resolve_mask_kind_for_shape, GeloMask, MaskKind};
use gelo::matrix::{Matrix, Tensor3};
use gelo::ple::PleTable;
use gelo::profile::Profile;
use gelo::rng::{MaskRng, MaskSeed};
use gelo::scalar::{Ops, Scalar};
use gelo::shield::ShieldConfig;
use gelo::sim::{InProcessTrustedExecutor, PlaintextExecutor, RayonCpuEngine};
use gelo::snapshot::{SnapshotCapture, SnapshotConfig};
use gelo::substrate::{GpuOffloadEngine, TrustedExecutor, WeightHandle, WeightKind};
use ndarray::Array2;
use rand::SeedableRng;
use rand_chacha::ChaCha20Rng;
use rand_distr::{Distribution, StandardNormal, Uniform};
use rustdct::DctPlanner;

/// Single-precision scalars.
#[derive(Clone, Copy, Debug, PartialEq)]
struct F32(f32);

fn chacha(rng: &MaskRng) -> ChaCha20Rng {
    let mut c = ChaCha20Rng::from_seed(rng.seed());
    c.set_stream(rng.stream());
    c.set_word_pos(rng.word_pos());
    c
}

static PLANNER: Mutex<Option<DctPlanner<f32>>> = Mutex::new(None);

impl Scalar for F32 {
    fn ops() -> Ops<F32> {
        unreachable!()
    }
    fn from_int(i: i64) -> F32 {
        F32(i as f32)
    }
    fn from_count(n: usize) -> F32 {
        F32(n as f32)
    }
    fn plus(self, o: F32) -> F32 {
        F32(self.0 + o.0)
    }
    fn minus(self, o: F32) -> F32 {
        F32(self.0 - o.0)
    }
    fn times(self, o: F32) -> F32 {
        F32(self.0 * o.0)
    }
    fn over(self, o: F32) -> F32 {
        F32(self.0 / o.0)
    }
    fn negated(self) -> F32 {
        F32(-self.0)
    }
    fn square_root(self) -> F32 {
        F32(self.0.sqrt())
    }
    fn three_halves_power(self) -> F32 {
        F32(self.0.powf(1.5))
    }
    fn exponential(self) -> F32 {
        F32(self.0.exp())
    }
    fn larger(self, o: F32) -> F32 {
        F32(self.0.max(o.0))
    }
    fn lowest() -> F32 {
        F32(f32::NEG_INFINITY)
    }
    fn at_most(self, o: F32) -> bool {
        self.0 <= o.0
    }
    fn below(self, o: F32) -> bool {
        self.0 < o.0
    }
    fn negligible() -> F32 {
        F32(1e-30)
    }
    fn agrees_with(self, o: F32, size: F32, terms: usize) -> bool {
        (self.0 - o.0).abs() <= f32::EPSILON * (terms as f32 + 8.0) * size.0
    }
    fn gaussian_pair(u: u32, v: u32, sigma: F32) -> (F32, F32) {
        let scale = 1.0 / ((1u32 << 24) as f32);
        let bias = 0.5 / ((1u32 << 24) as f32);
        let u1 = u as f32 * scale + bias;
        let u2 = v as f32 * scale + bias;
        let r = sigma.0 * (-2.0f32 * u1.ln()).sqrt();
        let (s, c) = (std::f32::consts::TAU * u2).sin_cos();
        (F32(r * c), F32(r * s))
    }
    fn standard_normal(rng: &mut MaskRng) -> F32 {
        let mut c = chacha(rng);
        let z: f32 = StandardNormal.sample(&mut c);
        rng.set_word_pos(c.get_word_pos());
        F32(z)
    }
    fn uniform_between(lo: F32, hi: F32, rng: &mut MaskRng) -> F32 {
        let mut c = chacha(rng);
        let z: f32 = Uniform::new(lo.0, hi.0).unwrap().sample(&mut c);
        rng.set_word_pos(c.get_word_pos());
        F32(z)
    }
    fn cosine_transform(column: Vec<F32>) -> Vec<F32> {
        let mut buf: Vec<f32> = column.iter().map(|x| x.0).collect();
        let plan = {
            let mut slot = PLANNER.lock().unwrap();
            slot.get_or_insert_with(DctPlanner::new).plan_dct4(buf.len())
        };
        plan.process_dct4(&mut buf);
        buf.into_iter().map(F32).collect()
    }
    fn shown(self) -> String {
        format!("{}", self.0)
    }
}

fn to_matrix(a: &Array2<f32>) -> Matrix<F32> {
    let rows = a.rows().into_iter().map(|r| r.iter().map(|x| F32(*x)).collect()).collect();
    Matrix::from_rows(rows, a.ncols()).unwrap()
}

fn to_array(m: &Matrix<F32>) -> Array2<f32> {
    Array2::from_shape_fn((m.nrows(), m.ncols()), |(i, j)| m.row(i)[j].0)
}

fn random_matrix(rows: usize, cols: usize, rng: &mut ChaCha20Rng) -> Array2<f32> {
    let normal = StandardNormal;
    Array2::from_shape_fn((rows, cols), |_| normal.sample(rng))
}

fn seeded(seed: u8) -> InProcessTrustedExecutor<F32, RayonCpuEngine<F32>> {
    InProcessTrustedExecutor::with_seed(RayonCpuEngine::new(), MaskSeed::from_bytes([seed; 32]))
}

fn plaintext_output(hidden: &Array2<f32>, weight: &Array2<f32>) -> Array2<f32> {
    let handle = WeightHandle::new(0, WeightKind::Q);
    let mut plain = PlaintextExecutor::new(RayonCpuEngine::<F32>::new());
    plain.provision_weight(handle, &to_matrix(weight)).unwrap();
    to_array(&plain.offload_linear(handle, &to_matrix(hidden)).unwrap())
}

fn masked_output(
    mut exec: InProcessTrustedExecutor<F32, RayonCpuEngine<F32>>,
    hidden: &Array2<f32>,
    weight: &Array2<f32>,
    bracketed: bool,
) -> Array2<f32> {
    let handle = WeightHandle::new(0, WeightKind::Q);
    exec.provision_weight(handle, &to_matrix(weight)).unwrap();
    if bracketed {
        exec.begin_forward_pass(hidden.nrows()).unwrap();
    }
    let out = exec.offload_linear(handle, &to_matrix(hidden)).unwrap();
    if bracketed {
        exec.end_forward_pass().unwrap();
    }
    to_array(&out)
}

fn assert_close(got: &Array2<f32>, want: &Array2<f32>, tol: f32) {
    assert_eq!(got.dim(), want.dim());
    for ((i, j), &e) in want.indexed_iter() {
        let g = got[[i, j]];
        assert!((g - e).abs() < tol, "({i},{j}): want={e} got={g} diff={}", (g - e).abs());
    }
}

#[test]
fn masked_and_plaintext_executors_agree() {
    let mut rng = ChaCha20Rng::from_seed([3u8; 32]);
    let n = 8;
    let d = 6;
    let p = 4;
    let hidden = random_matrix(n, d, &mut rng);
    let weight = random_matrix(d, p, &mut rng);

    let plain_out = plaintext_output(&hidden, &weight);
    let masked_out = masked_output(seeded(9), &hidden, &weight, true);
    assert_close(&masked_out, &plain_out, 1e-3);
}

fn check_qkv(
    mut exec: InProcessTrustedExecutor<F32, RayonCpuEngine<F32>>,
    mut rng: ChaCha20Rng,
    n: usize,
    d: usize,
    tol: f32,
) {
    let hidden = random_matrix(n, d, &mut rng);
    let wq = random_matrix(d, d, &mut rng);
    let wk = random_matrix(d, d, &mut rng);
    let wv = random_matrix(d, d, &mut rng);
    for (kind, w) in [(WeightKind::Q, &wq), (WeightKind::K, &wk), (WeightKind::V, &wv)] {
        exec.provision_weight(WeightHandle::new(0, kind), &to_matrix(w)).unwrap();
    }

    exec.begin_forward_pass(n).unwrap();
    let (q, k, v) = exec.offload_qkv(0, &to_matrix(&hidden)).unwrap();
    exec.end_forward_pass().unwrap();

    assert_close(&to_array(&q), &hidden.dot(&wq), tol);
    assert_close(&to_array(&k), &hidden.dot(&wk), tol);
    assert_close(&to_array(&v), &hidden.dot(&wv), tol);
}

#[test]
fn qkv_shares_one_mask() {
    check_qkv(seeded(5), ChaCha20Rng::from_seed([4u8; 32]), 4, 3, 1e-3);
}

#[test]
fn hd3_executor_agrees_with_plaintext() {
    let mut rng = ChaCha20Rng::from_seed([13u8; 32]);
    let n = 16;
    let d = 12;
    let p = 8;
    let hidden = random_matrix(n, d, &mut rng);
    let weight = random_matrix(d, p, &mut rng);

    let plain_out = plaintext_output(&hidden, &weight);
    let hd3 = seeded(19).with_hd3_mask();
    assert_eq!(hd3.mask_kind(), MaskKind::Hd3);
    let hd3_out = masked_output(hd3, &hidden, &weight, true);
    assert_close(&hd3_out, &plain_out, 5e-3);
}

#[test]
fn hd3_per_offload_agrees_with_plaintext() {
    let mut rng = ChaCha20Rng::from_seed([29u8; 32]);
    let n = 16;
    let d = 12;
    let p = 8;
    let hidden = random_matrix(n, d, &mut rng);
    let weight = random_matrix(d, p, &mut rng);

    let plain_out = plaintext_output(&hidden, &weight);
    let hd3 = seeded(31).with_per_offload_mask().with_hd3_mask();
    let hd3_out = masked_output(hd3, &hidden, &weight, false);
    assert_close(&hd3_out, &plain_out, 1e-3);
}

#[test]
fn hd3_qkv_agrees_with_plaintext() {
    check_qkv(seeded(27).with_hd3_mask(), ChaCha20Rng::from_seed([21u8; 32]), 16, 12, 5e-3);
}

#[test]
fn dct4_executor_agrees_with_plaintext() {
    let mut rng = ChaCha20Rng::from_seed([41u8; 32]);
    let n = 20;
    let d = 12;
    let p = 8;
    let hidden = random_matrix(n, d, &mut rng);
    let weight = random_matrix(d, p, &mut rng);

    let plain_out = plaintext_output(&hidden, &weight);
    let dct = seeded(43).with_dct4_mask();
    assert_eq!(dct.mask_kind(), MaskKind::Dct4);
    let dct_out = masked_output(dct, &hidden, &weight, true);
    assert_close(&dct_out, &plain_out, 5e-3);
}

#[test]
fn dct4_per_offload_agrees_with_plaintext() {
    let mut rng = ChaCha20Rng::from_seed([47u8; 32]);
    let n = 20;
    let d = 12;
    let p = 8;
    let hidden = random_matrix(n, d, &mut rng);
    let weight = random_matrix(d, p, &mut rng);

    let plain_out = plaintext_output(&hidden, &weight);
    let dct = seeded(53).with_per_offload_mask().with_dct4_mask();
    let dct_out = masked_output(dct, &hidden, &weight, false);
    assert_close(&dct_out, &plain_out, 1e-3);
}

#[test]
fn auto_dispatch_resolves_by_pad_ratio() {
    assert_eq!(resolve_mask_kind_for_shape(MaskKind::Auto, 2048), MaskKind::Hd3);
    assert_eq!(resolve_mask_kind_for_shape(MaskKind::Auto, 2047), MaskKind::Hd3);
    assert_eq!(resolve_mask_kind_for_shape(MaskKind::Auto, 2055), MaskKind::Dct4);
    assert_eq!(resolve_mask_kind_for_shape(MaskKind::Auto, 3072), MaskKind::Hd3);
    assert_eq!(resolve_mask_kind_for_shape(MaskKind::Auto, 3071), MaskKind::Dct4);
    assert_eq!(resolve_mask_kind_for_shape(MaskKind::Haar, 2056), MaskKind::Haar);
    assert_eq!(resolve_mask_kind_for_shape(MaskKind::Hd3, 2056), MaskKind::Hd3);
    assert_eq!(resolve_mask_kind_for_shape(MaskKind::Dct4, 2056), MaskKind::Dct4);
}

#[test]
fn auto_dct4_path_agrees_with_plaintext() {
    let mut rng = ChaCha20Rng::from_seed([67u8; 32]);
    let n = 20;
    let d = 12;
    let p = 8;
    let hidden = random_matrix(n, d, &mut rng);
    let weight = random_matrix(d, p, &mut rng);

    let plain_out = plaintext_output(&hidden, &weight);
    let auto_out = masked_output(seeded(71).with_auto_mask(), &hidden, &weight, true);
    assert_close(&auto_out, &plain_out, 5e-3);
}

#[test]
fn auto_hd3_path_agrees_with_plaintext() {
    let mut rng = ChaCha20Rng::from_seed([79u8; 32]);
    let n = 24;
    let d = 12;
    let p = 8;
    let hidden = random_matrix(n, d, &mut rng);
    let weight = random_matrix(d, p, &mut rng);

    let plain_out = plaintext_output(&hidden, &weight);
    let auto_out = masked_output(seeded(83).with_auto_mask(), &hidden, &weight, true);
    assert_close(&auto_out, &plain_out, 5e-3);
}

#[test]
fn dct4_qkv_agrees_with_plaintext() {
    check_qkv(seeded(61).with_dct4_mask(), ChaCha20Rng::from_seed([59u8; 32]), 20, 12, 5e-3);
}

/// Engine that adds `epsilon` to the first entry of every answer after the first few.
struct TamperingEngine {
    inner: RayonCpuEngine<F32>,
    epsilon: f32,
    call_count: Mutex<usize>,
    tamper_after: usize,
}

impl TamperingEngine {
    fn new(inner: RayonCpuEngine<F32>, epsilon: f32, tamper_after: usize) -> Self {
        Self { inner, epsilon, call_count: Mutex::new(0), tamper_after }
    }

    fn tampered(&self, out: Matrix<F32>) -> Matrix<F32> {
        let mut out = to_array(&out);
        let mut c = self.call_count.lock().unwrap();
        *c += 1;
        if *c > self.tamper_after && !out.is_empty() {
            out[[0, 0]] += self.epsilon;
        }
        to_matrix(&out)
    }
}

impl GpuOffloadEngine<F32> for TamperingEngine {
    fn register_weight(&mut self, h: WeightHandle, w: &Matrix<F32>) -> Result<(), OffloadError> {
        self.inner.register_weight(h, w)
    }

    fn matmul(&self, h: WeightHandle, input: &Matrix<F32>) -> Result<Matrix<F32>, OffloadError> {
        Ok(self.tampered(self.inner.matmul(h, input)?))
    }

    fn matmul_dynamic(
        &self,
        lhs: &Matrix<F32>,
        rhs: &Matrix<F32>,
    ) -> Result<Matrix<F32>, OffloadError> {
        Ok(self.tampered(self.inner.matmul_dynamic(lhs, rhs)?))
    }
}

fn rand_matrix(rows: usize, cols: usize, rng: &mut ChaCha20Rng, scale: f32) -> Matrix<F32> {
    to_matrix(&random_matrix(rows, cols, rng).mapv(|x| x * scale))
}

#[test]
fn u_verify_catches_tampered_offload_linear() {
    let mut rng = ChaCha20Rng::from_seed([13u8; 32]);
    let hidden = rand_matrix(16, 32, &mut rng, 1.0);
    let weight = rand_matrix(32, 24, &mut rng, 0.3);
    let handle = WeightHandle::new(0, WeightKind::Q);

    let mut tampering = TamperingEngine::new(RayonCpuEngine::new(), 0.5, 0);
    tampering.register_weight(handle, &weight).unwrap();

    let mut exec = InProcessTrustedExecutor::with_seed(tampering, MaskSeed::from_bytes([15u8; 32]))
        .with_verify_probes(8);
    exec.provision_weight(handle, &weight).unwrap();

    let result = exec.offload_linear(handle, &hidden);
    assert!(
        result.is_err(),
        "U-Verify failed to catch eps=0.5 tampering on offload_linear",
    );
    let msg = result.unwrap_err().message();
    assert!(msg.contains("U-Verify"), "expected U-Verify error message, got: {msg}");
}

#[test]
fn u_verify_passes_honest_engine_offload_linear() {
    let mut rng = ChaCha20Rng::from_seed([14u8; 32]);
    let hidden = rand_matrix(16, 32, &mut rng, 1.0);
    let weight = rand_matrix(32, 24, &mut rng, 0.3);
    let handle = WeightHandle::new(0, WeightKind::Q);

    let mut honest = TamperingEngine::new(RayonCpuEngine::new(), 0.0, 100);
    honest.register_weight(handle, &weight).unwrap();

    let mut exec = InProcessTrustedExecutor::with_seed(honest, MaskSeed::from_bytes([15u8; 32]))
        .with_verify_probes(8);
    exec.provision_weight(handle, &weight).unwrap();

    let result = exec.offload_linear(handle, &hidden);
    assert!(result.is_ok(), "U-Verify rejected an honest engine: {:?}", result.err());
}

#[test]
fn u_verify_catches_tampered_offload_attention_qkt() {
    let mut rng = ChaCha20Rng::from_seed([21u8; 32]);
    let n = 16;
    let d = 32;
    let q = rand_matrix(n, d, &mut rng, 0.5);
    let kt = rand_matrix(d, n, &mut rng, 0.5);

    let tampering = TamperingEngine::new(RayonCpuEngine::new(), 0.5, 0);
    let mut exec = InProcessTrustedExecutor::with_seed(tampering, MaskSeed::from_bytes([23u8; 32]))
        .with_verify_probes(8);

    let result = exec.offload_attention_qkt(&q, &kt);
    assert!(
        result.is_err(),
        "U-Verify failed to catch tampering on offload_attention_qkt",
    );
    let msg = result.unwrap_err().message();
    assert!(msg.contains("U-Verify"));
}

#[test]
fn u_verify_with_shield_still_catches_tampering() {
    let mut rng = ChaCha20Rng::from_seed([29u8; 32]);
    let hidden = rand_matrix(20, 32, &mut rng, 1.0);
    let weight = rand_matrix(32, 24, &mut rng, 0.3);
    let handle = WeightHandle::new(0, WeightKind::Q);

    let mut tampering = TamperingEngine::new(RayonCpuEngine::new(), 0.5, 0);
    tampering.register_weight(handle, &weight).unwrap();

    let mut exec = InProcessTrustedExecutor::with_shield(
        tampering,
        MaskSeed::from_bytes([31u8; 32]),
        ShieldConfig::new(8, F32(6.0)),
    )
    .with_verify_probes(8);
    exec.provision_weight(handle, &weight).unwrap();

    let result = exec.offload_linear(handle, &hidden);
    assert!(result.is_err(), "shield+U-Verify missed the tamper");
}

fn synth_executor() -> InProcessTrustedExecutor<F32, RayonCpuEngine<F32>> {
    seeded(7)
}

fn provision_three_layers(
    exec: &mut InProcessTrustedExecutor<F32, RayonCpuEngine<F32>>,
    d_in: usize,
    d_out: usize,
) {
    for li in 0..3u16 {
        for (k_idx, kind) in [
            WeightKind::Q,
            WeightKind::K,
            WeightKind::V,
            WeightKind::O,
            WeightKind::FfnGate,
            WeightKind::FfnUp,
        ]
        .iter()
        .enumerate()
        {
            let salt = (li as usize) * 100 + k_idx;
            let w = Array2::<f32>::from_shape_fn((d_in, d_out), |(r, c)| {
                ((salt + r) as f32 * 0.01) + (c as f32 * 0.005)
            });
            exec.provision_weight(WeightHandle::new(li, *kind), &to_matrix(&w)).unwrap();
        }
    }
}

fn synth_hidden() -> Matrix<F32> {
    to_matrix(&Array2::<f32>::from_shape_fn((4, 16), |(r, c)| (r * 16 + c) as f32 * 0.01))
}

fn shape(m: &Matrix<F32>) -> [usize; 2] {
    [m.nrows(), m.ncols()]
}

#[test]
fn capture_disabled_by_default_returns_none() {
    let exec = synth_executor();
    assert!(exec.pcie_snapshots().is_none(), "capture should be off out of the box");
}

#[test]
fn opt_in_capture_records_one_snapshot_per_offload_linear() {
    let mut exec = synth_executor().with_snapshot_capture(SnapshotConfig::default());
    provision_three_layers(&mut exec, 16, 32);
    let hidden = synth_hidden();

    exec.begin_forward_pass(hidden.nrows()).unwrap();
    for li in 0..3u16 {
        for kind in [WeightKind::Q, WeightKind::O] {
            exec.offload_linear(WeightHandle::new(li, kind), &hidden).unwrap();
        }
    }
    exec.end_forward_pass().unwrap();

    let snaps = exec.pcie_snapshots().expect("capture enabled");
    assert_eq!(snaps.len(), 6, "expected 3 layers × 2 kinds = 6 snapshots");
    for (i, snap) in snaps.iter().enumerate() {
        assert_eq!(snap.seq_idx, i, "seq_idx must increase monotonically");
        assert_eq!(snap.layer, (i / 2) as u16);
        let want_kind = if i % 2 == 0 { WeightKind::Q } else { WeightKind::O };
        assert_eq!(snap.kind, want_kind);
        assert_eq!(shape(&snap.masked_operand), [4 + 8, 16]);
        assert!(snap.masked_output.is_some(), "default config captures outputs");
        assert_eq!(shape(snap.masked_output.as_ref().unwrap()), [4 + 8, 32]);
    }
    assert_eq!(
        exec.pcie_snapshot_capture().unwrap().dropped(),
        0,
        "default cap of 4096 should never drop on a 6-snapshot run",
    );
}

#[test]
fn offload_qkv_records_three_snapshots_sharing_operand() {
    let mut exec = synth_executor().with_snapshot_capture(SnapshotConfig::default());
    provision_three_layers(&mut exec, 16, 32);
    let hidden = synth_hidden();

    exec.begin_forward_pass(hidden.nrows()).unwrap();
    exec.offload_qkv(0, &hidden).unwrap();
    exec.end_forward_pass().unwrap();

    let snaps = exec.pcie_snapshots().unwrap();
    assert_eq!(snaps.len(), 3, "Q, K, V — one snapshot each");
    assert_eq!(snaps[0].kind, WeightKind::Q);
    assert_eq!(snaps[1].kind, WeightKind::K);
    assert_eq!(snaps[2].kind, WeightKind::V);
    assert_eq!(to_array(&snaps[0].masked_operand), to_array(&snaps[1].masked_operand));
    assert_eq!(to_array(&snaps[1].masked_operand), to_array(&snaps[2].masked_operand));
    let oq = to_array(snaps[0].masked_output.as_ref().unwrap());
    let ok = to_array(snaps[1].masked_output.as_ref().unwrap());
    assert_ne!(oq, ok, "Q and K masked outputs must differ");
}

#[test]
fn offload_linear_many_records_one_snapshot_per_handle_in_order() {
    let mut exec = synth_executor().with_snapshot_capture(SnapshotConfig::default());
    provision_three_layers(&mut exec, 16, 32);
    let hidden = synth_hidden();

    let handles =
        vec![WeightHandle::new(0, WeightKind::FfnGate), WeightHandle::new(0, WeightKind::FfnUp)];
    exec.begin_forward_pass(hidden.nrows()).unwrap();
    exec.offload_linear_many(&handles, &hidden).unwrap();
    exec.end_forward_pass().unwrap();

    let snaps = exec.pcie_snapshots().unwrap();
    assert_eq!(snaps.len(), 2);
    assert_eq!(snaps[0].kind, WeightKind::FfnGate);
    assert_eq!(snaps[1].kind, WeightKind::FfnUp);
    assert_eq!(to_array(&snaps[0].masked_operand), to_array(&snaps[1].masked_operand));
}

#[test]
fn drain_returns_snapshots_and_clears_buffer() {
    let mut exec = synth_executor().with_snapshot_capture(SnapshotConfig::default());
    provision_three_layers(&mut exec, 16, 32);
    let hidden = synth_hidden();

    exec.begin_forward_pass(hidden.nrows()).unwrap();
    exec.offload_linear(WeightHandle::new(0, WeightKind::Q), &hidden).unwrap();
    exec.offload_linear(WeightHandle::new(0, WeightKind::K), &hidden).unwrap();
    exec.end_forward_pass().unwrap();

    assert_eq!(exec.pcie_snapshots().unwrap().len(), 2);
    let drained = exec.drain_pcie_snapshots();
    assert_eq!(drained.len(), 2);
    assert_eq!(exec.pcie_snapshots().unwrap().len(), 0, "drain must leave the buffer empty");

    exec.begin_forward_pass(hidden.nrows()).unwrap();
    exec.offload_linear(WeightHandle::new(1, WeightKind::V), &hidden).unwrap();
    exec.end_forward_pass().unwrap();
    let next = exec.pcie_snapshots().unwrap();
    assert_eq!(next.len(), 1);
    assert_eq!(next[0].seq_idx, 2);
}

#[test]
fn disable_capture_drops_buffer_and_makes_next_calls_no_op() {
    let mut exec = synth_executor().with_snapshot_capture(SnapshotConfig::default());
    provision_three_layers(&mut exec, 16, 32);
    let hidden = synth_hidden();

    exec.begin_forward_pass(hidden.nrows()).unwrap();
    exec.offload_linear(WeightHandle::new(0, WeightKind::Q), &hidden).unwrap();
    exec.end_forward_pass().unwrap();
    assert_eq!(exec.pcie_snapshots().unwrap().len(), 1);

    exec.disable_snapshot_capture();
    assert!(exec.pcie_snapshots().is_none());

    exec.begin_forward_pass(hidden.nrows()).unwrap();
    exec.offload_linear(WeightHandle::new(0, WeightKind::Q), &hidden).unwrap();
    exec.end_forward_pass().unwrap();
    assert!(exec.pcie_snapshots().is_none());
}

/// Keeps every input that it sees.
struct SnoopingEngine {
    inner: RayonCpuEngine<F32>,
    captured: Mutex<Vec<Array2<f32>>>,
}

impl SnoopingEngine {
    fn new(inner: RayonCpuEngine<F32>) -> Self {
        Self { inner, captured: Mutex::new(Vec::new()) }
    }

    fn last_capture(&self) -> Array2<f32> {
        let guard = self.captured.lock().unwrap();
        guard.last().expect("no captures").clone()
    }
}

impl GpuOffloadEngine<F32> for SnoopingEngine {
    fn register_weight(&mut self, h: WeightHandle, w: &Matrix<F32>) -> Result<(), OffloadError> {
        self.inner.register_weight(h, w)
    }

    fn matmul(&self, h: WeightHandle, input: &Matrix<F32>) -> Result<Matrix<F32>, OffloadError> {
        self.captured.lock().unwrap().push(to_array(input));
        self.inner.matmul(h, input)
    }

    fn matmul_dynamic(
        &self,
        lhs: &Matrix<F32>,
        rhs: &Matrix<F32>,
    ) -> Result<Matrix<F32>, OffloadError> {
        self.inner.matmul_dynamic(lhs, rhs)
    }
}

fn frobenius_distance(a: &Array2<f32>, b: &Array2<f32>) -> f32 {
    assert_eq!(a.shape(), b.shape());
    let mut acc = 0.0_f32;
    for ((i, j), v) in a.indexed_iter() {
        let d = v - b[[i, j]];
        acc += d * d;
    }
    acc.sqrt()
}

#[test]
fn bare_orthogonal_mask_leaks_gram_matrix() {
    let mut rng = ChaCha20Rng::from_seed([7u8; 32]);
    let n = 32;
    let d = 24;
    let p = 16;

    let hidden = random_matrix(n, d, &mut rng);
    let weight = random_matrix(d, p, &mut rng);

    let mut engine = SnoopingEngine::new(RayonCpuEngine::new());
    let handle = WeightHandle::new(0, WeightKind::Q);
    engine.register_weight(handle, &to_matrix(&weight)).unwrap();

    let mut exec = InProcessTrustedExecutor::with_seed(engine, MaskSeed::from_bytes([1u8; 32]))
        .with_per_offload_mask();
    exec.offload_linear(handle, &to_matrix(&hidden)).unwrap();

    let u = exec.engine().last_capture();
    let ut_u = u.t().dot(&u);
    let ht_h = hidden.t().dot(&hidden);
    let leak = frobenius_distance(&ut_u, &ht_h);

    let baseline = ht_h.iter().map(|v| v * v).sum::<f32>().sqrt();
    assert!(
        leak < 1e-2 * baseline.max(1.0),
        "expected UᵀU ≈ HᵀH for bare mask, got Frobenius distance {leak} (baseline {baseline})",
    );
}

#[test]
fn shielded_mask_masks_gram_matrix() {
    let mut rng = ChaCha20Rng::from_seed([19u8; 32]);
    let n = 32;
    let d = 24;
    let p = 16;
    let k = 16;
    let energy_scale = 6.0;

    let hidden = random_matrix(n, d, &mut rng);
    let weight = random_matrix(d, p, &mut rng);

    let mut engine = SnoopingEngine::new(RayonCpuEngine::new());
    let handle = WeightHandle::new(0, WeightKind::Q);
    engine.register_weight(handle, &to_matrix(&weight)).unwrap();

    let mut exec = InProcessTrustedExecutor::with_shield(
        engine,
        MaskSeed::from_bytes([23u8; 32]),
        ShieldConfig::new(k, F32(energy_scale)),
    );
    exec.offload_linear(handle, &to_matrix(&hidden)).unwrap();

    let u = exec.engine().last_capture();
    assert_eq!(u.nrows(), n + k, "shielded U should have n+k rows");

    let ut_u = u.t().dot(&u);
    let ht_h = hidden.t().dot(&hidden);
    let baseline = ht_h.iter().map(|v| v * v).sum::<f32>().sqrt();
    let leak = frobenius_distance(&ut_u, &ht_h);
    assert!(
        leak > baseline,
        "shielded mask should hide HᵀH: leak {leak} ≤ baseline {baseline}",
    );
}

#[test]
fn shielded_executor_preserves_functional_output() {
    let mut rng = ChaCha20Rng::from_seed([41u8; 32]);
    let n = 12;
    let d = 8;
    let p = 5;

    let hidden = random_matrix(n, d, &mut rng);
    let weight = random_matrix(d, p, &mut rng);

    let mut engine = RayonCpuEngine::new();
    let handle = WeightHandle::new(0, WeightKind::Q);
    engine.register_weight(handle, &to_matrix(&weight)).unwrap();

    let mut exec = InProcessTrustedExecutor::with_shield(
        engine,
        MaskSeed::from_bytes([53u8; 32]),
        ShieldConfig::new(8, F32(5.0)),
    );
    let out = to_array(&exec.offload_linear(handle, &to_matrix(&hidden)).unwrap());
    let expected = hidden.dot(&weight);
    assert_close(&out, &expected, 5e-3);
}

/// Notes every call that it gets in a log that outlives it.
struct SpyEngine {
    inner: RayonCpuEngine<F32>,
    log: Arc<Mutex<Vec<String>>>,
}

impl SpyEngine {
    fn new(log: &Arc<Mutex<Vec<String>>>) -> Self {
        Self { inner: RayonCpuEngine::new(), log: Arc::clone(log) }
    }

    fn record(&self, entry: String) {
        self.log.lock().expect("log poisoned").push(entry);
    }
}

impl GpuOffloadEngine<F32> for SpyEngine {
    fn register_weight(
        &mut self,
        handle: WeightHandle,
        weight: &Matrix<F32>,
    ) -> Result<(), OffloadError> {
        self.record(format!("register_weight({handle:?}, {:?})", shape(weight)));
        self.inner.register_weight(handle, weight)
    }

    fn matmul(
        &self,
        handle: WeightHandle,
        input: &Matrix<F32>,
    ) -> Result<Matrix<F32>, OffloadError> {
        self.record(format!("matmul({handle:?}, {:?})", shape(input)));
        self.inner.matmul(handle, input)
    }

    fn matmul_dynamic(
        &self,
        lhs: &Matrix<F32>,
        rhs: &Matrix<F32>,
    ) -> Result<Matrix<F32>, OffloadError> {
        self.record(format!("matmul_dynamic({:?}, {:?})", shape(lhs), shape(rhs)));
        self.inner.matmul_dynamic(lhs, rhs)
    }

    fn matmul_dynamic_batched(
        &self,
        lhs: &Tensor3<F32>,
        rhs: &Tensor3<F32>,
    ) -> Result<Tensor3<F32>, OffloadError> {
        self.record(format!("matmul_dynamic_batched({:?}, {:?})", lhs.dim(), rhs.dim()));
        self.inner.matmul_dynamic_batched(lhs, rhs)
    }
}

fn synth_ple_table() -> PleTable<F32> {
    let vocab = 6;
    let d = 2;
    let mut layers = Vec::new();
    for li in 0..4 {
        let mut slab = Vec::with_capacity(vocab * d);
        for t in 0..vocab {
            slab.push((li * 10 + t * 3) as i8);
            slab.push((li * 10 + t * 3 + 1) as i8);
        }
        layers.push(slab);
    }
    PleTable::from_int8_rows(layers, vocab, d, F32(1.0)).unwrap()
}

#[test]
fn ple_gather_under_plaintext_executor_keeps_engine_idle() {
    let log = Arc::new(Mutex::new(Vec::new()));
    let mut exec = PlaintextExecutor::new(SpyEngine::new(&log));
    exec.provision_ple_table(synth_ple_table()).unwrap();

    let out0 = to_array(&exec.ple_gather(&vec![0, 1, 5], 0).unwrap());
    let out2 = to_array(&exec.ple_gather(&vec![3, 5], 2).unwrap());

    assert_eq!(out0.shape(), &[3, 2]);
    assert_eq!(out0[[0, 0]], 0.0);
    assert_eq!(out0[[0, 1]], 1.0);
    assert_eq!(out0[[1, 0]], 3.0);
    assert_eq!(out0[[1, 1]], 4.0);
    assert_eq!(out0[[2, 0]], 15.0);
    assert_eq!(out0[[2, 1]], 16.0);

    assert_eq!(out2[[0, 0]], 29.0);
    assert_eq!(out2[[1, 1]], 36.0);

    let entries = log.lock().unwrap().clone();
    assert!(
        entries.is_empty(),
        "PLE gather leaked to the offload engine — log:\n{}",
        entries.join("\n"),
    );
}

#[test]
fn ple_gather_under_inprocess_trusted_executor_keeps_engine_idle() {
    let log = Arc::new(Mutex::new(Vec::new()));
    let mut exec = InProcessTrustedExecutor::new(SpyEngine::new(&log));
    exec.provision_ple_table(synth_ple_table()).unwrap();

    let out = to_array(&exec.ple_gather(&vec![2, 4], 1).unwrap());
    assert_eq!(out[[0, 0]], 16.0);
    assert_eq!(out[[0, 1]], 17.0);
    assert_eq!(out[[1, 0]], 22.0);
    assert_eq!(out[[1, 1]], 23.0);
    assert!(log.lock().unwrap().is_empty());
}

#[test]
fn ple_gather_inprocess_with_shared_log_keeps_engine_idle() {
    let log = Arc::new(Mutex::new(Vec::<String>::new()));
    let mut exec = InProcessTrustedExecutor::new(SpyEngine::new(&log));
    exec.provision_ple_table(synth_ple_table()).unwrap();

    for li in 0..4 {
        let out = exec.ple_gather(&vec![0, 1, 2, 3], li).unwrap();
        assert_eq!(shape(&out), [4, 2]);
    }

    let entries = log.lock().unwrap().clone();
    assert!(
        entries.is_empty(),
        "PLE gather leaked to offload engine across {} layers: {}",
        4,
        entries.join("\n"),
    );
}

#[test]
fn ple_gather_without_provision_errors() {
    let log = Arc::new(Mutex::new(Vec::new()));
    let exec = PlaintextExecutor::new(SpyEngine::new(&log));
    let err = exec.ple_gather(&vec![0], 0).unwrap_err();
    assert!(err.message().contains("no PLE table provisioned"));
}

/// An executor that does nothing of its own beyond the least.
struct MinimalExec(RayonCpuEngine<F32>);

impl TrustedExecutor<F32> for MinimalExec {
    type Engine = RayonCpuEngine<F32>;

    fn engine_of(self) -> RayonCpuEngine<F32> {
        unreachable!()
    }

    fn offload_engine(&self) -> &RayonCpuEngine<F32> {
        &self.0
    }

    fn linear_step(
        _before: MinimalExec,
        _handle: WeightHandle,
        _hidden: Matrix<F32>,
        _after: MinimalExec,
        _r: Result<Matrix<F32>, OffloadError>,
    ) -> bool {
        unreachable!()
    }

    fn qkt_step(
        _before: MinimalExec,
        _q: Matrix<F32>,
        _kt: Matrix<F32>,
        _after: MinimalExec,
        _r: Result<Matrix<F32>, OffloadError>,
    ) -> bool {
        unreachable!()
    }

    fn provision_weight(&mut self, _h: WeightHandle, _w: &Matrix<F32>) -> Result<(), OffloadError> {
        Ok(())
    }

    fn provision_weight_bf16(
        &mut self,
        _h: WeightHandle,
        _w: &Matrix<F32>,
    ) -> Result<(), OffloadError> {
        Ok(())
    }

    fn offload_linear(
        &mut self,
        _h: WeightHandle,
        _hidden: &Matrix<F32>,
    ) -> Result<Matrix<F32>, OffloadError> {
        unreachable!()
    }
}

#[test]
fn default_trait_executor_rejects_ple_provision() {
    let mut exec = MinimalExec(RayonCpuEngine::new());
    let err = exec.provision_ple_table(synth_ple_table()).unwrap_err();
    assert!(err.message().contains("not implemented"));

    let err = exec.ple_gather(&vec![0], 0).unwrap_err();
    assert!(err.message().contains("without a provisioned"));
}

#[test]
fn default_score_product_is_the_engines_plain_product() {
    let mut exec = MinimalExec(RayonCpuEngine::new());
    let (q, kt) = (dummy_op(3, 2, 1.0), dummy_op(2, 3, 0.5));
    let want = to_array(&q).dot(&to_array(&kt));
    assert_eq!(to_array(&exec.offload_attention_qkt(&q, &kt).unwrap()), want);
    let err = exec.offload_attention_qkt(&q, &q).unwrap_err();
    assert!(matches!(err, OffloadError::MatmulDynamicShape { lhs_cols: 2, rhs_rows: 3 }));

    let q3 = Tensor3::from_heads(vec![q.copied(), q.copied()], 3, 2).unwrap();
    let kt3 = Tensor3::from_heads(vec![kt.copied(), kt.copied()], 2, 3).unwrap();
    let out = exec.offload_attention_qkt_batched(&q3, &kt3).unwrap();
    assert_eq!(out.dim(), (2, 3, 3));
    assert_eq!(to_array(out.head(1)), want);
}

#[test]
fn blas_haar_is_orthogonal_at_real_seq_len() {
    let n = 128;
    let mask = GeloMask::<F32>::from_seed(n, MaskSeed::from_bytes([42u8; 32]));
    let a = to_array(mask.matrix());
    let ata = a.t().dot(&a);
    let mut max_err = 0.0_f32;
    for i in 0..n {
        for j in 0..n {
            let want = if i == j { 1.0 } else { 0.0 };
            let err = (ata[[i, j]] - want).abs();
            if err > max_err {
                max_err = err;
            }
        }
    }
    assert!(max_err < 5e-4, "‖AᵀA − I‖_max = {max_err} at n={n}");
}

fn three_layer_table() -> PleTable<F32> {
    let vocab = 4;
    let d = 2;
    let mut layers = Vec::new();
    for li in 0..3 {
        let mut slab = Vec::with_capacity(vocab * d);
        for t in 0..vocab {
            slab.push((li * 10 + t * 2) as i8);
            slab.push((li * 10 + t * 2 + 1) as i8);
        }
        layers.push(slab);
    }
    PleTable::from_int8_rows(layers, vocab, d, F32(1.0)).unwrap()
}

#[test]
fn shape_metadata_round_trip() {
    let table = three_layer_table();
    assert_eq!(table.num_layers(), 3);
    assert_eq!(table.vocab_size(), 4);
    assert_eq!(table.d_ple(), 2);
    assert_eq!(table.scale().0, 1.0);
    assert_eq!(table.bytes(), 3 * 4 * 2);
}

#[test]
fn gather_returns_dequantised_rows() {
    let table = three_layer_table();
    let out = to_array(&table.gather(&vec![0, 2], 0).unwrap());
    assert_eq!(out.shape(), &[2, 2]);
    assert_eq!(out[[0, 0]], 0.0);
    assert_eq!(out[[0, 1]], 1.0);
    assert_eq!(out[[1, 0]], 4.0);
    assert_eq!(out[[1, 1]], 5.0);

    let out = to_array(&table.gather(&vec![1, 3], 2).unwrap());
    assert_eq!(out[[0, 0]], 22.0);
    assert_eq!(out[[1, 1]], 27.0);
}

#[test]
fn nonidentity_scale_dequantises_correctly() {
    let vocab = 2;
    let d = 2;
    let layer0 = vec![10_i8, -20, 30, -40];
    let table = PleTable::from_int8_rows(vec![layer0], vocab, d, F32(10.0)).unwrap();
    let out = to_array(&table.gather(&vec![0, 1], 0).unwrap());
    assert_eq!(out[[0, 0]], 1.0);
    assert_eq!(out[[0, 1]], -2.0);
    assert_eq!(out[[1, 0]], 3.0);
    assert_eq!(out[[1, 1]], -4.0);
}

#[test]
fn layer_out_of_range_errors() {
    let table = three_layer_table();
    let err = table.gather(&vec![0], 99).unwrap_err();
    assert!(err.message().contains("layer_idx 99"));
}

#[test]
fn token_out_of_vocab_errors() {
    let table = three_layer_table();
    let err = table.gather(&vec![99], 0).unwrap_err();
    assert!(err.message().contains("out of vocab"));
}

#[test]
fn zero_scale_rejected() {
    let err = PleTable::from_int8_rows(vec![vec![0_i8; 4]], 2, 2, F32(0.0)).unwrap_err();
    assert!(err.message().contains("scale"));
}

#[test]
fn empty_layers_rejected() {
    let err = PleTable::from_int8_rows(Vec::<Vec<i8>>::new(), 2, 2, F32(1.0)).unwrap_err();
    assert!(err.message().contains("at least one layer"));
}

#[test]
fn malformed_slab_size_rejected() {
    let err = PleTable::from_int8_rows(vec![vec![0_i8; 3]], 2, 2, F32(1.0)).unwrap_err();
    assert!(err.message().contains("expected"));
}

fn dummy_op(rows: usize, cols: usize, seed: f32) -> Matrix<F32> {
    to_matrix(&Array2::from_shape_fn((rows, cols), |(r, c)| seed + (r * cols + c) as f32))
}

#[test]
fn record_buffers_in_seq_order_and_assigns_monotone_idx() {
    let mut cap = SnapshotCapture::default();
    for (i, kind) in [WeightKind::Q, WeightKind::K, WeightKind::V].iter().enumerate() {
        let h = WeightHandle::new(i as u16, *kind);
        let operand = dummy_op(8, 16, i as f32);
        let output = dummy_op(8, 32, i as f32 + 100.0);
        cap.record(h, &operand, Some(&output));
    }
    let snaps = cap.snapshots();
    assert_eq!(snaps.len(), 3);
    assert_eq!(snaps[0].seq_idx, 0);
    assert_eq!(snaps[1].seq_idx, 1);
    assert_eq!(snaps[2].seq_idx, 2);
    assert_eq!(snaps[0].kind, WeightKind::Q);
    assert_eq!(snaps[2].kind, WeightKind::V);
    assert!(snaps[0].masked_output.is_some());
}

#[test]
fn capture_outputs_false_skips_output_clone() {
    let mut cap =
        SnapshotCapture::new(SnapshotConfig { capture_outputs: false, max_snapshots: None });
    let h = WeightHandle::new(0, WeightKind::Q);
    cap.record(h, &dummy_op(4, 8, 0.0), Some(&dummy_op(4, 16, 0.0)));
    assert_eq!(cap.snapshots().len(), 1);
    assert!(cap.snapshots()[0].masked_output.is_none());
}

#[test]
fn max_snapshots_cap_drops_silently_after_limit() {
    let mut cap =
        SnapshotCapture::new(SnapshotConfig { capture_outputs: false, max_snapshots: Some(2) });
    let h = WeightHandle::new(0, WeightKind::Q);
    for _ in 0..5 {
        cap.record(h, &dummy_op(4, 8, 0.0), None);
    }
    assert_eq!(cap.snapshots().len(), 2);
    assert_eq!(cap.dropped(), 3);
    assert_eq!(cap.snapshots()[0].seq_idx, 0);
    assert_eq!(cap.snapshots()[1].seq_idx, 1);
}

#[test]
fn drain_clears_buffer_but_preserves_seq_counter() {
    let mut cap = SnapshotCapture::default();
    let h = WeightHandle::new(0, WeightKind::Q);
    cap.record(h, &dummy_op(4, 8, 0.0), None);
    cap.record(h, &dummy_op(4, 8, 1.0), None);
    let drained = cap.drain();
    assert_eq!(drained.len(), 2);
    assert_eq!(cap.snapshots().len(), 0);
    cap.record(h, &dummy_op(4, 8, 2.0), None);
    assert_eq!(cap.snapshots()[0].seq_idx, 2);
}

#[test]
fn reset_clears_buffer_and_seq_counter() {
    let mut cap = SnapshotCapture::default();
    let h = WeightHandle::new(0, WeightKind::Q);
    cap.record(h, &dummy_op(4, 8, 0.0), None);
    cap.reset();
    cap.record(h, &dummy_op(4, 8, 1.0), None);
    assert_eq!(cap.snapshots().len(), 1);
    assert_eq!(cap.snapshots()[0].seq_idx, 0);
}

#[test]
fn clone_drops_session_and_buffer_but_keeps_settings() {
    let mut exec = synth_executor()
        .with_snapshot_capture(SnapshotConfig::default())
        .with_hd3_mask()
        .with_verify_probes(2);
    provision_three_layers(&mut exec, 16, 32);
    exec.provision_ple_table(synth_ple_table()).unwrap();
    exec.begin_forward_pass(4).unwrap();
    exec.offload_linear(WeightHandle::new(0, WeightKind::Q), &synth_hidden()).unwrap();

    let mut twin = exec.clone();
    assert_eq!(twin.mask_kind(), MaskKind::Hd3);
    assert_eq!(twin.verify_probes(), 2);
    assert_eq!(twin.pcie_snapshots().unwrap().len(), 0);
    assert!(twin.ple_gather(&vec![0], 0).is_ok());
    // No forward pass is open in the clone, so that any shape can be offloaded.
    let other = dummy_op(5, 16, 0.0);
    assert!(twin.offload_linear(WeightHandle::new(0, WeightKind::Q), &other).is_ok());
    assert!(exec.offload_linear(WeightHandle::new(0, WeightKind::Q), &other).is_err());
}

#[test]
fn offload_of_another_shape_than_the_pass_is_refused() {
    let mut exec = synth_executor();
    provision_three_layers(&mut exec, 16, 32);
    exec.begin_forward_pass(4).unwrap();
    let err =
        exec.offload_linear(WeightHandle::new(0, WeightKind::Q), &dummy_op(6, 16, 0.0)).unwrap_err();
    assert!(matches!(
        err,
        OffloadError::SessionShape { n: 6, stacked: 14, session_n: 4, session_stacked: 12 }
    ));
    exec.end_forward_pass().unwrap();
    assert!(
        exec.offload_linear(WeightHandle::new(0, WeightKind::Q), &dummy_op(6, 16, 0.0)).is_ok()
    );
}

#[test]
fn single_token_pass_uses_the_small_shield() {
    let mut exec = synth_executor();
    assert_eq!(exec.shield_config().k, 8);
    exec.begin_forward_pass(1).unwrap();
    assert_eq!(exec.shield_config().k, 15);
    exec.end_forward_pass().unwrap();
    exec.begin_forward_pass(2).unwrap();
    assert_eq!(exec.shield_config().k, 8);
}

#[test]
fn weights_are_held_before_probing_begins() {
    let mut exec = synth_executor();
    provision_three_layers(&mut exec, 16, 32);
    let handle = WeightHandle::new(0, WeightKind::Q);
    exec.begin_forward_pass(4).unwrap();
    let plain = to_array(&exec.offload_linear(handle, &synth_hidden()).unwrap());
    exec.set_verify_probes(8);
    let probed = to_array(&exec.offload_linear(handle, &synth_hidden()).unwrap());
    assert_close(&probed, &plain, 5e-3);
}

#[test]
fn weight_that_was_never_provisioned_cannot_be_probed() {
    let handle = WeightHandle::new(0, WeightKind::Q);
    let mut engine = RayonCpuEngine::<F32>::new();
    engine.register_weight(handle, &dummy_op(16, 8, 0.0)).unwrap();
    let mut exec = InProcessTrustedExecutor::with_seed(engine, MaskSeed::from_bytes([1u8; 32]))
        .with_verify_probes(1);
    let err = exec.offload_linear(handle, &synth_hidden()).unwrap_err();
    assert!(matches!(err, OffloadError::WeightNotCached(h) if h == handle));
}

#[test]
fn widened_weight_reaches_the_engine_and_is_not_held() {
    let (handle, w) = (WeightHandle::new(0, WeightKind::Q), dummy_op(16, 8, 0.0));
    let seed = MaskSeed::from_bytes([1u8; 32]);
    for shared in [false, true] {
        let mut exec = InProcessTrustedExecutor::with_seed(RayonCpuEngine::<F32>::new(), seed);
        if shared {
            exec.provision_weight_bf16_shared(handle, Arc::new(w.copied())).unwrap();
        } else {
            exec.provision_weight_bf16(handle, &w).unwrap();
        }
        assert!(exec.offload_linear(handle, &synth_hidden()).is_ok());
        exec.set_verify_probes(1);
        let err = exec.offload_linear(handle, &synth_hidden()).unwrap_err();
        assert!(matches!(err, OffloadError::WeightNotCached(h) if h == handle));
    }
    let mut plain = PlaintextExecutor::new(RayonCpuEngine::<F32>::new());
    plain.provision_weight_bf16_shared(handle, Arc::new(w.copied())).unwrap();
    let out = plain.offload_linear(handle, &synth_hidden()).unwrap();
    assert_close(&to_array(&out), &to_array(&synth_hidden()).dot(&to_array(&w)), 1e-4);
    let mut minimal = MinimalExec(RayonCpuEngine::new());
    assert!(minimal.provision_weight_bf16_shared(handle, Arc::new(w)).is_ok());
}

#[test]
fn reused_mask_keeps_its_shield() {
    let mut exec = InProcessTrustedExecutor::with_shield(
        RayonCpuEngine::<F32>::new(),
        MaskSeed::from_bytes([1u8; 32]),
        ShieldConfig::none(),
    )
    .with_per_forward_mask(ShieldConfig::new(8, F32(4.0)));
    exec.begin_forward_pass(4).unwrap();
    assert_eq!(exec.shield_config().k, 8);
}

#[test]
fn offloads_are_timed_step_by_step() {
    let mut exec = synth_executor();
    provision_three_layers(&mut exec, 16, 32);
    let kinds = [WeightKind::Q, WeightKind::K, WeightKind::V];
    exec.begin_forward_pass(4).unwrap();
    assert_eq!(calls(exec.profile()), vec![("gelo:mask_sample", 1)]);
    exec.set_verify_probes(2);
    exec.offload_linear(WeightHandle::new(0, kinds[0]), &synth_hidden()).unwrap();
    let apply = "gelo:mask_apply:haar";
    let unapply = "gelo:mask_unapply:haar";
    assert_eq!(
        calls(&exec.take_profile()),
        vec![
            ("engine:matmul", 1),
            (apply, 1),
            ("gelo:mask_sample", 1),
            (unapply, 1),
            ("gelo:shield_stack", 1),
            ("gelo:strip_shield", 1),
            ("uverify:linear", 1),
        ]
    );
    exec.offload_qkv(0, &synth_hidden()).unwrap();
    assert_eq!(
        calls(exec.profile()),
        vec![
            ("engine:matmul_many", 1),
            (apply, 1),
            (unapply, 3),
            ("gelo:shield_stack", 1),
            ("gelo:strip_shield", 1),
            ("uverify:linear", 3),
        ]
    );
    assert!(exec.clone().profile().is_empty());
    exec.take_profile();
    // A weight that the engine does not know is asked for, and nothing follows.
    assert!(exec.offload_linear(WeightHandle::new(9, kinds[0]), &synth_hidden()).is_err());
    assert_eq!(
        calls(exec.profile()),
        vec![("engine:matmul", 1), (apply, 1), ("gelo:shield_stack", 1)]
    );
    let mut plain = PlaintextExecutor::new(RayonCpuEngine::<F32>::new());
    let _ = plain.offload_linear(WeightHandle::new(0, kinds[0]), &synth_hidden());
    plain.offload_attention_qkt(&dummy_op(3, 2, 0.0), &dummy_op(2, 3, 0.0)).unwrap();
    assert_eq!(
        calls(&plain.take_profile()),
        vec![("engine:matmul", 1), ("engine:matmul_dynamic", 1)]
    );
    assert!(plain.profile().is_empty());
}

/// The categories of a profile with their calls, by name.
fn calls(p: &Profile) -> Vec<(&'static str, u64)> {
    let mut rows: Vec<_> = p.rows_by_time().into_iter().map(|(name, _, n)| (name, n)).collect();
    rows.sort();
    rows
}

#[test]
fn masked_operand_has_the_rows_of_its_mask() {
    let seed = MaskSeed::from_bytes([4u8; 32]);
    let shield = ShieldConfig::new(3, F32(1.0));
    for (kind, rows) in [(MaskKind::Haar, 7), (MaskKind::Dct4, 7), (MaskKind::Hd3, 8)] {
        let exec = InProcessTrustedExecutor::with_shield(RayonCpuEngine::<F32>::new(), seed, shield);
        let mut exec = match kind {
            MaskKind::Hd3 => exec.with_hd3_mask(),
            MaskKind::Dct4 => exec.with_dct4_mask(),
            _ => exec,
        };
        let hidden = synth_hidden();
        let (mask, masked) = exec.build_shielded_and_apply(&hidden, 1).unwrap();
        assert_eq!((mask.n(), masked.nrows(), masked.ncols()), (rows, rows, hidden.ncols()));
        let back = to_array(&mask.unapply(&masked));
        for ((i, j), x) in to_array(&hidden).indexed_iter() {
            assert!((back[[i, j]] - x).abs() < 1e-4);
        }
        for i in 7..rows {
            assert!(back.row(i).iter().all(|x| x.abs() < 1e-4));
        }
    }
}

#[test]
fn tables_and_snapshots_can_be_copied() {
    let table = synth_ple_table();
    let copy = table.clone();
    let (a, b) = (table.gather(&vec![0, 1], 0).unwrap(), copy.gather(&vec![0, 1], 0).unwrap());
    assert_eq!(to_array(&a), to_array(&b));
    assert_eq!((copy.num_layers(), copy.d_ple()), (table.num_layers(), table.d_ple()));

    let mut cap = SnapshotCapture::new(SnapshotConfig::default());
    cap.record(WeightHandle::new(2, WeightKind::K), &dummy_op(3, 2, 0.5), Some(&dummy_op(3, 1, 1.0)));
    let taken = cap.snapshots()[0].clone();
    assert_eq!((taken.seq_idx, taken.layer, taken.kind), (0, 2, WeightKind::K));
    assert_eq!(to_array(&taken.masked_operand), to_array(&dummy_op(3, 2, 0.5)));
    assert_eq!(to_array(&taken.masked_output.unwrap()), to_array(&dummy_op(3, 1, 1.0)));
}

/// Answers with the wrong number of products.
struct ShortEngine(RayonCpuEngine<F32>);

impl GpuOffloadEngine<F32> for ShortEngine {
    fn register_weight(&mut self, h: WeightHandle, w: &Matrix<F32>) -> Result<(), OffloadError> {
        self.0.register_weight(h, w)
    }

    fn matmul(&self, _h: WeightHandle, input: &Matrix<F32>) -> Result<Matrix<F32>, OffloadError> {
        Ok(input.first_rows(1))
    }

    fn matmul_many(
        &self,
        handles: &Vec<WeightHandle>,
        input: &Matrix<F32>,
    ) -> Result<Vec<Matrix<F32>>, OffloadError> {
        Ok(vec![self.0.matmul(handles[0], input)?])
    }

    fn matmul_dynamic(
        &self,
        lhs: &Matrix<F32>,
        _rhs: &Matrix<F32>,
    ) -> Result<Matrix<F32>, OffloadError> {
        Ok(lhs.first_rows(1))
    }
}

#[test]
fn wrong_answers_are_refused_by_count_and_shape() {
    let mut exec = InProcessTrustedExecutor::with_seed(
        ShortEngine(RayonCpuEngine::new()),
        MaskSeed::from_bytes([1u8; 32]),
    );
    let hidden = synth_hidden();
    for kind in [WeightKind::Q, WeightKind::K, WeightKind::V] {
        exec.provision_weight(WeightHandle::new(0, kind), &dummy_op(16, 8, 0.0)).unwrap();
    }
    let err = exec.offload_qkv(0, &hidden).unwrap_err();
    assert!(matches!(err, OffloadError::ResultCount { got: 1, expected: 3 }));
    let err = exec.offload_linear(WeightHandle::new(0, WeightKind::Q), &hidden).unwrap_err();
    assert!(matches!(err, OffloadError::AnswerShape));
    let err = exec.offload_attention_qkt(&dummy_op(3, 2, 0.0), &dummy_op(2, 3, 0.0)).unwrap_err();
    assert!(matches!(err, OffloadError::AnswerShape));
    assert!(exec.offload_linear_many(&vec![], &hidden).unwrap().is_empty());
}

#[test]
fn engine_errors_name_what_does_not_fit() {
    let mut engine = RayonCpuEngine::<F32>::new();
    let handle = WeightHandle::new(3, WeightKind::O);
    let err = engine.matmul(handle, &dummy_op(2, 3, 0.0)).unwrap_err();
    assert!(matches!(err, OffloadError::WeightNotRegistered(h) if h == handle));
    engine.register_weight(handle, &dummy_op(4, 2, 0.0)).unwrap();
    let err = engine.matmul(handle, &dummy_op(2, 3, 0.0)).unwrap_err();
    assert!(matches!(err, OffloadError::MatmulShape { input_cols: 3, weight_rows: 4 }));
    let err = engine.matmul_dynamic(&dummy_op(2, 3, 0.0), &dummy_op(2, 3, 0.0)).unwrap_err();
    assert!(matches!(err, OffloadError::MatmulDynamicShape { lhs_cols: 3, rhs_rows: 2 }));
    let mut exec = PlaintextExecutor::new(engine);
    let err = exec.offload_attention_qkt(&dummy_op(2, 3, 0.0), &dummy_op(2, 3, 0.0)).unwrap_err();
    assert!(matches!(err, OffloadError::MatmulDynamicShape { .. }));
}

#[test]
fn drained_batches_number_on() {
    let cfg = SnapshotConfig { capture_outputs: true, max_snapshots: Some(2) };
    let mut cap = SnapshotCapture::new(cfg);
    let h = WeightHandle::new(0, WeightKind::Q);
    let mut all = Vec::new();
    let calls = [1usize, 3, 0, 2, 5];
    for n in calls {
        for _ in 0..n {
            cap.record(h, &dummy_op(0, 7, 0.0), Some(&dummy_op(0, 9, 0.0)));
        }
        let batch = cap.drain();
        assert!(batch.len() <= 2);
        all.extend(batch);
    }
    assert_eq!(all.iter().map(|s| s.seq_idx).collect::<Vec<_>>(), (0..7).collect::<Vec<_>>());
    assert_eq!(calls.iter().sum::<usize>(), all.len() + cap.dropped());
    assert!(all.iter().all(|s| s.masked_operand.ncols() == 7));
    assert!(all.iter().all(|s| s.masked_output.as_ref().unwrap().ncols() == 9));
}
