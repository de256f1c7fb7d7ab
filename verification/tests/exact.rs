//! Exact results over 64-bit integers.

use gelo::attention::{AttentionMask, PermAttnConfig};
use gelo::error::OffloadError;
use gelo::gaussian::fill_gaussian;
use gelo::hd3::{flip_rows, fwht_rows, Hd3Mask};
use gelo::integrity::verify_offload;
use gelo::mask::{
    blis_threads, mask_backend_description, padded_side, resolve_mask_kind_for_shape, tee_matmul, GeloMask,
    MaskFamily, MaskKind,
};
use gelo::matrix::{invert, Matrix, Tensor3};
use gelo::ple::{PleError, PleTable};
use gelo::pow2::next_power_of_two;
use gelo::rng::{MaskRng, MaskSeed};
use gelo::scalar::Scalar;
use gelo::shield::{mean_row_norm, shield_deviation, stack_shield, ShieldConfig};
use gelo::sim::{InProcessTrustedExecutor, PlaintextExecutor, RayonCpuEngine};
use gelo::softmax::{guarded_softmax_row, softmax_row};
use gelo::substrate::{GpuOffloadEngine, TrustedExecutor, WeightHandle, WeightKind};
use gelo::text::{parse_positive, push_decimal};
use rand::seq::SliceRandom;
use rand::{RngCore, SeedableRng};
use rand_chacha::ChaCha20Rng;

fn matrix(rows: &[&[i64]]) -> Matrix<i64> {
    let ncols = rows[0].len();
    Matrix::from_rows(rows.iter().map(|r| r.to_vec()).collect(), ncols).unwrap()
}

fn counted(nrows: usize, ncols: usize, seed: i64) -> Matrix<i64> {
    let rows = (0..nrows)
        .map(|i| (0..ncols).map(|j| seed + 7 * i as i64 - 3 * j as i64).collect())
        .collect();
    Matrix::from_rows(rows, ncols).unwrap()
}

fn rows_of(m: &Matrix<i64>) -> Vec<Vec<i64>> {
    (0..m.nrows()).map(|i| m.row(i).clone()).collect()
}

fn tensor(heads: usize, nrows: usize, ncols: usize, seed: i64) -> Tensor3<i64> {
    let hs = (0..heads).map(|h| counted(nrows, ncols, seed + 11 * h as i64)).collect();
    Tensor3::from_heads(hs, nrows, ncols).unwrap()
}

fn heads_of(t: &Tensor3<i64>) -> Vec<Vec<Vec<i64>>> {
    (0..t.dim().0).map(|h| rows_of(t.head(h))).collect()
}

#[test]
fn stream_of_the_zero_key_starts_with_the_known_words() {
    let mut rng = MaskSeed::from_bytes([0u8; 32]).rng();
    assert_eq!(rng.next_u32(), 0xade0_b876);
    assert_eq!(rng.next_u32(), 0x903d_f1a0);
    assert_eq!(rng.word_pos(), 2);
}

#[test]
fn stream_words_are_those_of_chacha20() {
    let seed = [9u8; 32];
    for (stream, start) in [(0u64, 0u128), (3, 15), (u64::MAX, 1 << 40), (5, (1 << 68) - 2)] {
        let mut ours = MaskRng::at(seed, stream, start);
        let mut theirs = ChaCha20Rng::from_seed(seed);
        theirs.set_stream(stream);
        theirs.set_word_pos(start);
        for _ in 0..100 {
            assert_eq!(ours.next_u32(), theirs.next_u32());
            assert_eq!(ours.word_pos(), theirs.get_word_pos());
        }
    }
}

#[test]
fn streams_of_one_seed_differ() {
    let mut a = MaskSeed::from_bytes([4u8; 32]).rng();
    let mut b = MaskSeed::from_bytes([4u8; 32]).rng();
    b.set_stream(1);
    assert_eq!(b.stream(), 1);
    assert_ne!(a.next_u32(), b.next_u32());
}

#[test]
fn permutations_are_those_of_the_shuffle() {
    for n in [0usize, 1, 2, 17, 300] {
        let mut ours = MaskSeed::from_bytes([5u8; 32]).rng();
        let mut theirs = ChaCha20Rng::from_seed([5u8; 32]);
        let mut want: Vec<usize> = (0..n).collect();
        want.shuffle(&mut theirs);
        let got = ours.permutation(n);
        assert_eq!(got, want);
        assert_eq!(ours.word_pos(), theirs.get_word_pos());
        let back = invert(&got);
        assert!((0..n).all(|i| back[got[i]] == i));
    }
    let mut rng = MaskSeed::from_bytes([5u8; 32]).rng();
    assert_ne!(rng.permutation(300), (0..300).collect::<Vec<usize>>());
}

#[test]
fn seeds_from_the_operating_system_differ() {
    assert_ne!(MaskSeed::from_os_rng().0, MaskSeed::default().0);
}

#[test]
fn integer_scalars_wrap_and_truncate() {
    assert_eq!(i64::MAX.plus(1), i64::MIN);
    assert_eq!(i64::MIN.negated(), i64::MIN);
    assert_eq!((-7i64).over(2), -3);
    assert_eq!(5i64.over(0), 0);
    assert_eq!(99i64.square_root(), 9);
    assert_eq!(i64::MAX.square_root(), 3037000499);
    assert_eq!((-4i64).square_root(), 0);
    assert_eq!(9i64.three_halves_power(), 27);
    assert_eq!((-1i64).exponential(), 0);
    assert_eq!(0i64.exponential(), 1);
}

#[test]
fn hadamard_twice_scales_by_the_side() {
    let m = counted(8, 3, 5);
    let once = fwht_rows(&m);
    assert_eq!(once.row(0), &(0..3).map(|j| (0..8).map(|i| m.row(i)[j]).sum()).collect::<Vec<i64>>());
    let twice = fwht_rows(&once);
    assert_eq!(rows_of(&twice), rows_of(&m.scaled_by(8)));
}

#[test]
fn flipping_twice_is_the_identity() {
    let m = counted(4, 2, 3);
    let plus = vec![true, false, false, true];
    let flipped = flip_rows(&m, &plus);
    assert_eq!(flipped.row(1), &vec![-10, -7]);
    assert_eq!(rows_of(&flip_rows(&flipped, &plus)), rows_of(&m));
}

#[test]
fn resolution_is_final_and_pads_at_most_a_third() {
    for s in 1..3000usize {
        let kind = resolve_mask_kind_for_shape(MaskKind::Auto, s);
        assert_ne!(kind, MaskKind::Auto);
        assert_eq!(resolve_mask_kind_for_shape(kind, s), kind);
        assert_eq!(kind == MaskKind::Hd3, 3 * padded_side(s) <= 4 * s);
    }
    assert_eq!(resolve_mask_kind_for_shape(MaskKind::Haar, 16), MaskKind::Haar);
    assert_eq!(MaskKind::default(), MaskKind::Haar);
    assert_eq!(padded_side(0), 2);
    assert_eq!(next_power_of_two(0), 1);
    assert_eq!(next_power_of_two(1025), 2048);
}

#[test]
fn shield_stands_below_the_data() {
    let m = counted(3, 4, 1);
    let mut rng = MaskSeed::from_bytes([2u8; 32]).rng();
    let (stacked, n) = stack_shield(&m, ShieldConfig::new(5, 2), &mut rng);
    assert_eq!((n, stacked.nrows(), stacked.ncols()), (3, 8, 4));
    assert_eq!(rows_of(&stacked.first_rows(3)), rows_of(&m));
    assert!(!ShieldConfig::<i64>::none().enabled());
}

#[test]
fn shield_deviation_follows_its_formula() {
    // Norms 5 and 13, mean 9, scale 4, width 4.
    let m = matrix(&[&[3, 4, 0, 0], &[0, 0, 5, 12]]);
    assert_eq!(mean_row_norm(&m), 9);
    assert_eq!(shield_deviation(4, &m), 4 * 9 / 2);
}

#[test]
fn gaussian_entries_come_in_pairs_of_words() {
    let mut rng = MaskSeed::from_bytes([0u8; 32]).rng();
    let mut dest = vec![0i64; 3];
    fill_gaussian(&mut dest, 2, &mut rng);
    let mut words = MaskSeed::from_bytes([0u8; 32]).rng();
    let mut next = || (words.next_u32() >> 8) as i64;
    let (a, b, c) = (next(), next(), next());
    assert_eq!(dest, vec![2 * a, 2 * b, 2 * c]);
    for (n, words) in [(0usize, 0u128), (1, 32), (16, 32), (32, 32), (33, 64), (64, 64)] {
        let mut rng = MaskSeed::from_bytes([0u8; 32]).rng();
        fill_gaussian(&mut vec![0i64; n], 2, &mut rng);
        assert_eq!(rng.word_pos(), words, "{n} values");
    }
}

#[test]
fn products_are_exact() {
    let a = matrix(&[&[1, 2], &[3, 4]]);
    let b = matrix(&[&[5, 6, 7], &[8, 9, 10]]);
    let want = vec![vec![21, 24, 27], vec![47, 54, 61]];
    assert_eq!(rows_of(&tee_matmul(&a, &b)), want);
    assert_eq!(rows_of(&a.times(&b)), want);
    assert_eq!(rows_of(&b.transposed().times(&a.transposed()).transposed()), want);
}

#[test]
fn ragged_rows_are_refused() {
    assert!(Matrix::from_rows(vec![vec![1, 2], vec![3]], 2).is_none());
    assert!(Tensor3::from_heads(vec![counted(2, 3, 0)], 2, 2).is_none());
}

#[test]
fn softmax_shares_the_weight_among_the_largest() {
    assert_eq!(softmax_row(&vec![3, 9]), vec![0, 1]);
    assert_eq!(guarded_softmax_row(&vec![9, 3, 1]), vec![1, 0, 0]);
}

#[test]
fn probes_pass_the_product_and_catch_one_wrong_entry() {
    let lhs = counted(4, 3, 2);
    let rhs = counted(3, 5, 9);
    let good = lhs.times(&rhs);
    let mut rng = MaskSeed::from_bytes([6u8; 32]).rng();
    assert_eq!(verify_offload(3, &lhs, &rhs, &good, &mut rng), Ok(()));
    for i in 0..4 {
        for j in 0..5 {
            let mut rows = rows_of(&good);
            rows[i][j] += 1;
            let bad = Matrix::from_rows(rows, 5).unwrap();
            let r = verify_offload(1, &lhs, &rhs, &bad, &mut rng);
            assert_eq!(r, Err(OffloadError::Tampered { probe: 0, row: i }));
            assert_eq!(verify_offload(0, &lhs, &rhs, &bad, &mut rng), Ok(()));
        }
    }
}

fn permuting(seed: u8) -> InProcessTrustedExecutor<i64, RayonCpuEngine<i64>> {
    InProcessTrustedExecutor::with_seed(RayonCpuEngine::new(), MaskSeed::from_bytes([seed; 32]))
        .with_perm_attention(PermAttnConfig::disabled_noise())
}

#[test]
fn permuted_attention_over_integers_is_plain_attention() {
    let (q, k, v) = (tensor(2, 5, 3, 1), tensor(2, 5, 3, 20), tensor(2, 5, 3, -4));
    let mask = AttentionMask::Unmasked;
    let mut plain = PlaintextExecutor::new(RayonCpuEngine::<i64>::new());
    let want = plain.offload_attention_permuted(&q, &k, &v, 1, mask).unwrap();
    for seed in 0..8u8 {
        let mut exec = permuting(seed);
        let got = exec.offload_attention_permuted(&q, &k, &v, 1, mask).unwrap();
        assert_eq!(heads_of(&got), heads_of(&want));
        let got = exec.offload_attention_permuted_cached(&q, &k, &v, 1, 0, mask).unwrap();
        assert_eq!(heads_of(&got), heads_of(&want));
    }
}

#[test]
fn causal_attention_does_not_depend_on_the_order() {
    let (q, k, v) = (tensor(2, 3, 3, 1), tensor(2, 5, 3, 20), tensor(2, 5, 3, -4));
    let mask = AttentionMask::Causal;
    let want = permuting(0).offload_attention_permuted_cached(&q, &k, &v, 1, 2, mask).unwrap();
    for seed in 1..8u8 {
        let got =
            permuting(seed).offload_attention_permuted_cached(&q, &k, &v, 1, 2, mask).unwrap();
        assert_eq!(heads_of(&got), heads_of(&want));
    }
}

#[test]
fn cached_attention_wants_the_queries_inside_the_cache() {
    let mut exec = InProcessTrustedExecutor::with_seed(
        RayonCpuEngine::<i64>::new(),
        MaskSeed::from_bytes([1u8; 32]),
    );
    let (q, kv) = (tensor(1, 2, 3, 1), tensor(1, 4, 3, 2));
    let unmasked = AttentionMask::Unmasked;
    let err = exec.offload_attention_permuted_cached(&q, &kv, &kv, 1, 3, unmasked).unwrap_err();
    assert_eq!(err, OffloadError::QueriesPastCache { q_pos_offset: 3, n_q: 2, n_kv: 4 });
    let err = exec.offload_attention_permuted_cached(&kv, &q, &q, 1, 0, unmasked).unwrap_err();
    assert_eq!(err, OffloadError::TooManyQueries { n_q: 4, n_kv: 2 });
    let narrow = tensor(1, 4, 2, 2);
    let err = exec.offload_attention_permuted_cached(&q, &narrow, &kv, 1, 0, unmasked).unwrap_err();
    assert_eq!(err, OffloadError::CachedKeyShape { k: (1, 4, 2), expected: (1, 4, 3) });
    let err = exec.offload_attention_permuted_cached(&q, &kv, &narrow, 1, 0, unmasked).unwrap_err();
    assert_eq!(err, OffloadError::CachedValueShape { v: (1, 4, 2), expected: (1, 4, 3) });
}

#[test]
fn masks_of_one_seed_agree() {
    let seed = MaskSeed::from_bytes([8u8; 32]);
    let a = GeloMask::<i64>::from_seed(4, seed);
    let b = GeloMask::<i64>::fresh(4, &mut seed.rng());
    assert_eq!(rows_of(a.matrix()), rows_of(b.matrix()));
    assert_eq!(rows_of(a.copied().matrix()), rows_of(a.matrix()));
    let h = Hd3Mask::<i64>::from_seed(8, seed);
    let (d1, d2, d3) = h.diagonals();
    assert_eq!((d1.len(), d2.len(), d3.len()), (8, 8, 8));
    assert!(d1 != d2 || d2 != d3);
    let family = MaskFamily::<i64>::fresh(MaskKind::Hd3, 8, &mut seed.rng());
    let m = counted(8, 2, 0);
    assert_eq!(rows_of(&family.apply(&m)), rows_of(&h.apply(&m)));
    let mut in_place = m.copied();
    h.apply_in_place(&mut in_place);
    assert_eq!(rows_of(&in_place), rows_of(&h.apply(&m)));
    assert_eq!(family.apply_profile_category(), "gelo:mask_apply:hd3");
    assert_eq!(family.unapply_profile_category(), "gelo:mask_unapply:hd3");
    assert!(!mask_backend_description().is_empty());
}

#[test]
fn plaintext_executor_multiplies() {
    let mut exec = PlaintextExecutor::new(RayonCpuEngine::<i64>::new());
    let h = WeightHandle::new(2, WeightKind::FfnDown);
    let w = counted(3, 2, 4);
    exec.provision_weight(h, &w).unwrap();
    let x = counted(5, 3, 1);
    assert_eq!(rows_of(&exec.offload_linear(h, &x).unwrap()), rows_of(&x.times(&w)));
    let both = exec.offload_linear_many(&vec![h, h], &x).unwrap();
    assert_eq!(both.len(), 2);
    assert_eq!(rows_of(&both[1]), rows_of(&x.times(&w)));
    let (q, kt) = (counted(4, 3, 1), counted(3, 4, 2));
    assert_eq!(rows_of(&exec.offload_attention_qkt(&q, &kt).unwrap()), rows_of(&q.times(&kt)));
    assert!(exec.ple_gather(&vec![0], 0).is_err());
}

#[test]
fn engine_keeps_the_latest_weight() {
    let mut engine = RayonCpuEngine::<i64>::new();
    let h = WeightHandle::new(0, WeightKind::Q);
    engine.register_weight(h, &counted(2, 2, 1)).unwrap();
    engine.register_weight_shared(h, std::sync::Arc::new(counted(2, 2, 5))).unwrap();
    let x = matrix(&[&[1, 0]]);
    assert_eq!(rows_of(&engine.matmul(h, &x).unwrap()), vec![vec![5, 2]]);
    let err = engine
        .matmul_dynamic_batched(&tensor(1, 2, 3, 0), &tensor(1, 2, 3, 0))
        .unwrap_err();
    assert_eq!(err, OffloadError::MatmulBatchedShape { lhs: (1, 2, 3), rhs: (1, 2, 3) });
}

#[test]
fn table_rows_are_scaled() {
    let table = PleTable::from_int8_rows(vec![vec![10, -21, 30, 40]], 2, 2, 1i64).unwrap();
    let rows = rows_of(&table.gather(&vec![1, 0, 1], 0).unwrap());
    assert_eq!(rows, vec![vec![30, 40], vec![10, -21], vec![30, 40]]);
    let err = PleTable::from_int8_rows(vec![vec![0]], usize::MAX, 2, 1i64).unwrap_err();
    assert_eq!(err, PleError::SizeOverflow);
    assert_eq!(err.message(), "PleTable: vocab_size * d_ple overflow");
    let err = PleTable::from_int8_rows(vec![vec![0; 4]], 2, 2, i64::MIN).unwrap_err();
    assert_eq!(err.message(), "PleTable: scale must be > 0, got -9223372036854775808");
}

#[test]
fn errors_speak() {
    let h = WeightHandle::new(12, WeightKind::FfnGate);
    let cases = [
        (
            OffloadError::WeightNotRegistered(h),
            "weight WeightHandle { layer: 12, kind: FfnGate } not registered with engine",
        ),
        (
            OffloadError::MatmulShape { input_cols: 3, weight_rows: 40 },
            "matmul shape mismatch: input cols 3 != weight rows 40",
        ),
        (
            OffloadError::MatmulDynamicShape { lhs_cols: 3, rhs_rows: 0 },
            "matmul_dynamic shape mismatch: lhs cols 3 != rhs rows 0",
        ),
        (
            OffloadError::MatmulBatchedShape { lhs: (1, 2, 3), rhs: (4, 5, 6) },
            "matmul_dynamic_batched shape mismatch: lhs (1,2,3) vs rhs [4, 5, 6]",
        ),
        (
            OffloadError::OutAttnShape { q: (1, 2), kt: (3, 4) },
            "OutAttnMult shape mismatch: q is (1,2) but kt is (3,4)",
        ),
        (
            OffloadError::OutAttnBatchedShape { q: (1, 2, 3), kt: (4, 5, 6) },
            "offload_qkt_batched shape mismatch: q is (1,2,3) but kt is [4, 5, 6]",
        ),
        (
            OffloadError::AttentionKeyShape { k: (1, 2, 3), q: (4, 5, 6) },
            "permuted_attention: K shape (1, 2, 3) must match Q (4, 5, 6)",
        ),
        (
            OffloadError::TooManyQueries { n_q: 5, n_kv: 4 },
            "permuted_attention_cached: n_q (5) cannot exceed n_kv (4)",
        ),
        (
            OffloadError::SessionShape { n: 1, stacked: 2, session_n: 3, session_stacked: 4 },
            "per-forward-pass mask: offload n=1 (stacked 2) doesn't match session n=3 (stacked 4)",
        ),
        (
            OffloadError::ResultCount { got: 1, expected: 3 },
            "engine.matmul_many returned 1 results; expected 3",
        ),
        (
            OffloadError::WeightNotCached(h),
            "verify_probes>0 but weight WeightHandle { layer: 12, kind: FfnGate } not cached in TEE",
        ),
        (OffloadError::Tampered { probe: 2, row: 17 }, "U-Verify: probe 2 failed at row 17"),
        (OffloadError::NoPleTable, "ple_gather: no PLE table provisioned"),
        (
            OffloadError::PleProvisionNotImplemented,
            "provision_ple_table not implemented for this executor",
        ),
        (OffloadError::Ple(PleError::NoLayers), "PleTable: must have at least one layer"),
        (OffloadError::Engine("lost".to_string()), "lost"),
    ];
    for (e, text) in cases {
        assert_eq!(e.message(), text);
    }
}

#[test]
fn thread_setting_is_a_positive_number_or_one() {
    let cases = [
        ("4", 4),
        ("+8", 8),
        ("007", 7),
        ("9223372036854775807", i64::MAX),
        ("9223372036854775808", 1),
        ("0", 1),
        ("-3", 1),
        ("", 1),
        ("+", 1),
        ("++2", 1),
        (" 2", 1),
        ("two", 1),
    ];
    for (text, want) in cases {
        assert_eq!(blis_threads(Some(&text.to_string())), want, "{text:?}");
        let parsed = text.parse::<i64>().ok().filter(|n| *n >= 1).unwrap_or(1);
        assert_eq!(parsed, want, "{text:?}");
    }
    assert_eq!(blis_threads(None), 1);
    let mut out = String::new();
    push_decimal(&mut out, 120_045);
    assert_eq!(out, "120045");
    assert_eq!(parse_positive(&out), Some(120_045));
}

#[test]
fn shared_weight_is_held_for_probing() {
    let seed = MaskSeed::from_bytes([3u8; 32]);
    let mut exec = InProcessTrustedExecutor::with_seed(RayonCpuEngine::<i64>::new(), seed)
        .with_per_offload_mask()
        .with_verify_probes(2);
    let h = WeightHandle::new(1, WeightKind::K);
    let w = std::sync::Arc::new(counted(3, 4, 2));
    exec.provision_weight_shared(h, w.clone()).unwrap();
    assert_eq!(rows_of(&w), rows_of(&counted(3, 4, 2)));
    let out = exec.offload_linear(h, &counted(2, 3, 6)).unwrap();
    assert_eq!((out.nrows(), out.ncols()), (2, 4));
}

#[test]
fn builders_set_what_they_name() {
    let seed = MaskSeed::from_bytes([3u8; 32]);
    let exec = InProcessTrustedExecutor::with_seed(RayonCpuEngine::<i64>::new(), seed);
    assert!(exec.is_per_forward_mask());
    assert_eq!(exec.mask_kind(), MaskKind::Haar);
    let mut exec = exec
        .with_auto_mask()
        .with_small_n_shield(Some((2, ShieldConfig::new(3, 1))))
        .with_per_forward_mask(ShieldConfig::new(9, 1));
    assert_eq!(exec.shield_config().k, 9);
    assert_eq!(exec.mask_kind(), MaskKind::Auto);
    exec.begin_forward_pass(2).unwrap();
    assert_eq!(exec.shield_config().k, 3);
    exec.set_shield(ShieldConfig::new(4, 1));
    exec.begin_forward_pass(3).unwrap();
    assert_eq!(exec.shield_config().k, 4);
    exec.set_perm_attention(PermAttnConfig::disabled_noise());
    assert_eq!(exec.perm_attention().noise_sigma, 0);
    let exec = exec.with_per_offload_mask();
    assert!(!exec.is_per_forward_mask() && !exec.shield_config().enabled());
    let plain = InProcessTrustedExecutor::with_shield(
        RayonCpuEngine::<i64>::new(),
        seed,
        ShieldConfig::new(2, 5),
    );
    assert!(!plain.is_per_forward_mask());
    assert_eq!(plain.shield_config().energy_scale, 5);
    assert_eq!(plain.verify_probes(), 0);
}

/// Answers with one row, one column or one entry.
struct ThinEngine(usize, usize);

impl GpuOffloadEngine<i64> for ThinEngine {
    fn register_weight(&mut self, _h: WeightHandle, _w: &Matrix<i64>) -> Result<(), OffloadError> {
        Ok(())
    }

    fn matmul(&self, h: WeightHandle, _input: &Matrix<i64>) -> Result<Matrix<i64>, OffloadError> {
        Err(OffloadError::WeightNotRegistered(h))
    }

    fn matmul_dynamic(
        &self,
        _lhs: &Matrix<i64>,
        _rhs: &Matrix<i64>,
    ) -> Result<Matrix<i64>, OffloadError> {
        Ok(counted(self.0, self.1, 5))
    }
}

#[test]
fn thin_answers_are_repeated_over_a_stack() {
    let (lhs, rhs) = (tensor(1, 2, 3, 0), tensor(1, 3, 2, 0));
    let ask = |r, c| ThinEngine(r, c).matmul_dynamic_batched(&lhs, &rhs);
    assert_eq!(heads_of(&ask(2, 2).unwrap()), vec![vec![vec![5, 2], vec![12, 9]]]);
    assert_eq!(heads_of(&ask(1, 2).unwrap()), vec![vec![vec![5, 2], vec![5, 2]]]);
    assert_eq!(heads_of(&ask(2, 1).unwrap()), vec![vec![vec![5, 5], vec![12, 12]]]);
    assert_eq!(heads_of(&ask(1, 1).unwrap()), vec![vec![vec![5, 5], vec![5, 5]]]);
    assert_eq!(ask(3, 2).unwrap_err(), OffloadError::AnswerShape);
}
