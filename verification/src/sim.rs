//! A reference engine and the executors that run in one process with it.

use std::sync::Arc;

use vstd::prelude::*;

use crate::attention;
use crate::attention::{AttentionMask, PermAttnConfig};
use crate::error::OffloadError;
use crate::executor;
use crate::executor::Exec;
use crate::gaussian;
use crate::integrity;
use crate::mask;
use crate::mask::{MaskFamily, MaskKind};
use crate::matrix;
use crate::matrix::{Matrix, Tensor3};
use crate::out_attn_mult;
use crate::ple;
use crate::ple::PleTable;
use crate::pow2;
use crate::profile;
use crate::profile::{Profile, Stopwatch};
use crate::rng;
use crate::rng::{MaskRng, MaskSeed};
use crate::scalar::{Ops, Scalar};
use crate::shield;
use crate::shield::ShieldConfig;
use crate::snapshot;
use crate::snapshot::{PcieSnapshot, SnapshotCapture, SnapshotConfig};
use crate::substrate;
use crate::substrate::{GpuOffloadEngine, TrustedExecutor, WeightHandle, WeightKind};
use crate::table;
use crate::table::WeightTable;

verus! {

/// Engine that multiplies on the calling thread.
#[derive(Debug)]
pub struct RayonCpuEngine<T> {
    weights: WeightTable<T>,
}

impl<T> View for RayonCpuEngine<T> {
    type V = Map<WeightHandle, Matrix<T>>;

    closed spec fn view(&self) -> Map<WeightHandle, Matrix<T>> {
        self.weights@
    }
}

impl<T> RayonCpuEngine<T> {
    pub fn new() -> (r: RayonCpuEngine<T>)
        ensures
            r@ == Map::<WeightHandle, Matrix<T>>::empty(),
    {
        RayonCpuEngine { weights: WeightTable::new() }
    }
}

impl<T> Default for RayonCpuEngine<T> {
    fn default() -> (r: RayonCpuEngine<T>)
        ensures
            r@ == Map::<WeightHandle, Matrix<T>>::empty(),
    {
        RayonCpuEngine::new()
    }
}

impl<T> Clone for RayonCpuEngine<T> {
    fn clone(&self) -> (r: RayonCpuEngine<T>)
        ensures
            r@ == self@,
    {
        RayonCpuEngine { weights: self.weights.clone() }
    }
}

impl<T: Scalar> GpuOffloadEngine<T> for RayonCpuEngine<T> {
    fn register_weight(&mut self, handle: WeightHandle, weight: &Matrix<T>) -> (r: Result<
        (),
        OffloadError,
    >)
        ensures
            r == Ok::<(), OffloadError>(()),
            exists|w: Matrix<T>|
                w@ == weight@ && w.width() == weight.width() && final(self)@ == #[trigger] old(
                    self,
                )@.insert(handle, w),
    {
        let copy: Matrix<T> = weight.copied();
        let ghost held = copy;
        self.weights.insert(handle, Arc::new(copy));
        assert(self@ == old(self)@.insert(handle, held));
        Ok(())
    }

    fn register_weight_shared(&mut self, handle: WeightHandle, weight: Arc<Matrix<T>>) -> (r:
        Result<(), OffloadError>)
        ensures
            r == Ok::<(), OffloadError>(()),
            final(self)@ == old(self)@.insert(handle, *weight),
    {
        self.weights.insert(handle, weight);
        Ok(())
    }

    fn matmul(&self, handle: WeightHandle, input: &Matrix<T>) -> (r: Result<Matrix<T>, OffloadError>)
        ensures
            if !self@.contains_key(handle) {
                r == Err::<Matrix<T>, OffloadError>(OffloadError::WeightNotRegistered(handle))
            } else if input.width() != self@[handle]@.len() {
                r == Err::<Matrix<T>, OffloadError>(
                    OffloadError::MatmulShape {
                        input_cols: input.width() as usize,
                        weight_rows: self@[handle]@.len() as usize,
                    },
                )
            } else {
                r matches Ok(out) && {
                    &&& out@ == matrix::product(
                        T::ops(),
                        input@,
                        self@[handle]@,
                        self@[handle].width(),
                    )
                    &&& out.width() == self@[handle].width()
                }
            },
    {
        match self.weights.get(handle) {
            None => Err(OffloadError::WeightNotRegistered(handle)),
            Some(w) => {
                let input_cols: usize = input.ncols();
                let weight_rows: usize = w.nrows();
                if input_cols != weight_rows {
                    return Err(OffloadError::MatmulShape { input_cols, weight_rows });
                }
                Ok(input.times(w))
            },
        }
    }

    fn matmul_dynamic(&self, lhs: &Matrix<T>, rhs: &Matrix<T>) -> (r: Result<Matrix<T>, OffloadError>)
        ensures
            if lhs.width() != rhs@.len() {
                r == Err::<Matrix<T>, OffloadError>(
                    OffloadError::MatmulDynamicShape {
                        lhs_cols: lhs.width() as usize,
                        rhs_rows: rhs@.len() as usize,
                    },
                )
            } else {
                r matches Ok(out) && {
                    &&& out@ == matrix::product(T::ops(), lhs@, rhs@, rhs.width())
                    &&& out.width() == rhs.width()
                }
            },
    {
        let lhs_cols: usize = lhs.ncols();
        let rhs_rows: usize = rhs.nrows();
        if lhs_cols != rhs_rows {
            return Err(OffloadError::MatmulDynamicShape { lhs_cols, rhs_rows });
        }
        Ok(lhs.times(rhs))
    }
}

/// The mask of a forward pass and the number of tokens it was opened for.
#[derive(Debug)]
struct SessionMask<T> {
    mask: MaskFamily<T>,
    data_n: usize,
}

/// The trusted side in one process with its engine: draws masks and shields, hands masked
/// operands to the engine, probes and opens its answers.
#[derive(Debug)]
pub struct InProcessTrustedExecutor<T, E> {
    engine: E,
    rng: MaskRng,
    shield: ShieldConfig<T>,
    shield_default: ShieldConfig<T>,
    shield_small_n: Option<ShieldConfig<T>>,
    shield_small_n_max: usize,
    verify_probes: usize,
    weights: WeightTable<T>,
    ple_table: Option<Arc<PleTable<T>>>,
    per_forward_mask: bool,
    session: Option<SessionMask<T>>,
    perm_attn: PermAttnConfig<T>,
    snapshot_capture: Option<SnapshotCapture<T>>,
    mask_kind: MaskKind,
    profile: Profile,
}

impl<T, E> View for InProcessTrustedExecutor<T, E> {
    type V = Exec<T, E>;

    closed spec fn view(&self) -> Exec<T, E> {
        Exec {
            engine: self.engine,
            rng: self.rng@,
            shield: self.shield,
            shield_default: self.shield_default,
            shield_small_n: self.shield_small_n,
            shield_small_n_max: self.shield_small_n_max,
            verify_probes: self.verify_probes,
            weights: self.weights@,
            ple: match self.ple_table {
                Some(t) => Some(t@),
                None => None,
            },
            per_forward_mask: self.per_forward_mask,
            session: match self.session {
                Some(s) => Some(executor::Session { mask: s.mask@, data_n: s.data_n as nat }),
                None => None,
            },
            perm_attn: self.perm_attn,
            capture: match self.snapshot_capture {
                Some(c) => Some(c@),
                None => None,
            },
            mask_kind: self.mask_kind,
            timings: self.profile@,
        }
    }
}

/// An executor as it is made: one dense mask per forward pass, eight shield rows of energy
/// four, fifteen for a single token.
pub open spec fn initial<T, E>(ops: Ops<T>, engine: E, s: rng::RngState) -> Exec<T, E> {
    let four = (ops.from_int)(4);
    Exec {
        engine,
        rng: s,
        shield: ShieldConfig { k: 8, energy_scale: four },
        shield_default: ShieldConfig { k: 8, energy_scale: four },
        shield_small_n: Some(ShieldConfig { k: 15, energy_scale: four }),
        shield_small_n_max: 1,
        verify_probes: 0,
        weights: Map::empty(),
        ple: None,
        per_forward_mask: true,
        session: None,
        perm_attn: attention::noiseless(ops),
        capture: None,
        mask_kind: MaskKind::Haar,
        timings: Seq::empty(),
    }
}

/// An executor made with its own shield: a dense mask per offload.
pub open spec fn initial_shielded<T, E>(
    ops: Ops<T>,
    engine: E,
    s: rng::RngState,
    shield: ShieldConfig<T>,
) -> Exec<T, E> {
    Exec {
        shield,
        shield_default: shield,
        shield_small_n: None,
        shield_small_n_max: 0,
        per_forward_mask: false,
        ..initial(ops, engine, s)
    }
}

impl<T: Scalar, E: GpuOffloadEngine<T>> InProcessTrustedExecutor<T, E> {
    /// An executor with a fresh seed, drawn at random.
    pub fn new(engine: E) -> (r: InProcessTrustedExecutor<T, E>)
        ensures
            exists|seed: [u8; 32]| #[trigger]
                rng::from_chance(seed) && r@ == initial(T::ops(), engine, rng::seeded(seed@)),
    {
        let seed: MaskSeed = MaskSeed::from_os_rng();
        InProcessTrustedExecutor::with_seed(engine, seed)
    }

    /// An executor whose randomness a seed determines.
    pub fn with_seed(engine: E, seed: MaskSeed) -> (r: InProcessTrustedExecutor<T, E>)
        ensures
            r@ == initial(T::ops(), engine, rng::seeded(seed.0@)),
    {
        mask::ensure_blis_single_thread();
        let four: T = T::from_int(4);
        let shield_default: ShieldConfig<T> = ShieldConfig::new(8, four);
        let r = InProcessTrustedExecutor {
            engine,
            rng: seed.rng(),
            shield: shield_default,
            shield_default,
            shield_small_n: Some(ShieldConfig::new(15, four)),
            shield_small_n_max: 1,
            verify_probes: 0,
            weights: WeightTable::new(),
            ple_table: None,
            per_forward_mask: true,
            session: None,
            perm_attn: PermAttnConfig::default(),
            snapshot_capture: None,
            mask_kind: MaskKind::default(),
            profile: Profile::new(),
        };
        assert(r@ =~= initial(T::ops(), engine, rng::seeded(seed.0@)));
        r
    }

    /// An executor with one dense mask per offload and this shield.
    pub fn with_shield(engine: E, seed: MaskSeed, shield: ShieldConfig<T>) -> (r:
        InProcessTrustedExecutor<T, E>)
        ensures
            r@ == initial_shielded(T::ops(), engine, rng::seeded(seed.0@), shield),
    {
        let mut r = InProcessTrustedExecutor::with_seed(engine, seed);
        r.shield = shield;
        r.shield_default = shield;
        r.shield_small_n = None;
        r.shield_small_n_max = 0;
        r.per_forward_mask = false;
        r
    }

    /// Switches to the Hadamard cascade; an open forward pass is dropped.
    pub fn with_hd3_mask(self) -> (r: InProcessTrustedExecutor<T, E>)
        ensures
            r@ == (Exec { mask_kind: MaskKind::Hd3, session: None, ..self@ }),
    {
        let mut r = self;
        r.mask_kind = MaskKind::Hd3;
        r.session = None;
        r
    }

    /// Switches to the cosine cascade; an open forward pass is dropped.
    pub fn with_dct4_mask(self) -> (r: InProcessTrustedExecutor<T, E>)
        ensures
            r@ == (Exec { mask_kind: MaskKind::Dct4, session: None, ..self@ }),
    {
        let mut r = self;
        r.mask_kind = MaskKind::Dct4;
        r.session = None;
        r
    }

    /// Switches to the cascade that suits the shape; an open forward pass is dropped.
    pub fn with_auto_mask(self) -> (r: InProcessTrustedExecutor<T, E>)
        ensures
            r@ == (Exec { mask_kind: MaskKind::Auto, session: None, ..self@ }),
    {
        let mut r = self;
        r.mask_kind = MaskKind::Auto;
        r.session = None;
        r
    }

    pub fn mask_kind(&self) -> (r: MaskKind)
        ensures
            r == self@.mask_kind,
    {
        self.mask_kind
    }

    /// Sets the shield of small forward passes and which pass is small; none disables it.
    pub fn with_small_n_shield(self, cfg: Option<(usize, ShieldConfig<T>)>) -> (r:
        InProcessTrustedExecutor<T, E>)
        ensures
            r@ == (match cfg {
                Some((max_n, shield)) => Exec {
                    shield_small_n: Some(shield),
                    shield_small_n_max: max_n,
                    ..self@
                },
                None => Exec { shield_small_n: None, shield_small_n_max: 0, ..self@ },
            }),
    {
        let mut r = self;
        match cfg {
            Some((max_n, shield)) => {
                r.shield_small_n = Some(shield);
                r.shield_small_n_max = max_n;
            },
            None => {
                r.shield_small_n = None;
                r.shield_small_n_max = 0;
            },
        }
        r
    }

    /// Sets the shield in use and that of ordinary forward passes.
    pub fn set_shield(&mut self, shield: ShieldConfig<T>)
        ensures
            final(self)@ == (Exec { shield, shield_default: shield, ..old(self)@ }),
    {
        self.shield = shield;
        self.shield_default = shield;
    }

    /// Switches to one mask per forward pass, which only a shield makes safe.
    pub fn with_per_forward_mask(self, shield: ShieldConfig<T>) -> (r: InProcessTrustedExecutor<
        T,
        E,
    >)
        requires
            shield.k > 0,
        ensures
            r@ == self@.reusing(shield),
    {
        let mut r = self;
        r.per_forward_mask = true;
        r.shield = shield;
        r.shield_default = shield;
        r
    }

    pub fn is_per_forward_mask(&self) -> (r: bool)
        ensures
            r == self@.per_forward_mask,
    {
        self.per_forward_mask
    }

    /// Switches to one mask per offload, without a shield; an open forward pass is dropped.
    pub fn with_per_offload_mask(self) -> (r: InProcessTrustedExecutor<T, E>)
        ensures
            r@ == (Exec {
                per_forward_mask: false,
                shield: shield::no_shield(T::ops()),
                session: None,
                ..self@
            }),
    {
        let mut r = self;
        r.per_forward_mask = false;
        r.shield = ShieldConfig::none();
        r.session = None;
        r
    }

    /// Sets the number of probes per answer; none switches probing off.
    pub fn with_verify_probes(self, n: usize) -> (r: InProcessTrustedExecutor<T, E>)
        ensures
            r@ == (Exec { verify_probes: n, ..self@ }),
    {
        let mut r = self;
        r.verify_probes = n;
        r
    }

    pub fn set_verify_probes(&mut self, n: usize)
        ensures
            final(self)@ == (Exec { verify_probes: n, ..old(self)@ }),
    {
        self.verify_probes = n;
    }

    pub fn engine(&self) -> (r: &E)
        ensures
            *r == self@.engine,
    {
        &self.engine
    }

    pub fn shield_config(&self) -> (r: ShieldConfig<T>)
        ensures
            r == self@.shield,
    {
        self.shield
    }

    pub fn verify_probes(&self) -> (r: usize)
        ensures
            r == self@.verify_probes,
    {
        self.verify_probes
    }

    pub fn with_perm_attention(self, cfg: PermAttnConfig<T>) -> (r: InProcessTrustedExecutor<T, E>)
        ensures
            r@ == (Exec { perm_attn: cfg, ..self@ }),
    {
        let mut r = self;
        r.perm_attn = cfg;
        r
    }

    pub fn set_perm_attention(&mut self, cfg: PermAttnConfig<T>)
        ensures
            final(self)@ == (Exec { perm_attn: cfg, ..old(self)@ }),
    {
        self.perm_attn = cfg;
    }

    pub fn perm_attention(&self) -> (r: PermAttnConfig<T>)
        ensures
            r == self@.perm_attn,
    {
        self.perm_attn
    }

    /// Time and calls of what the executor has done, by category.
    pub fn profile(&self) -> (r: &Profile)
        ensures
            r@ == self@.timings,
    {
        &self.profile
    }

    /// Hands the profile out and goes on with an empty one.
    pub fn take_profile(&mut self) -> (r: Profile)
        ensures
            r@ == old(self)@.timings,
            final(self)@ == (Exec { timings: Seq::empty(), ..old(self)@ }),
    {
        let mut taken: Profile = Profile::new();
        std::mem::swap(&mut taken, &mut self.profile);
        taken
    }

    /// Starts to record offloads, from an empty collection.
    pub fn with_snapshot_capture(self, cfg: SnapshotConfig) -> (r: InProcessTrustedExecutor<T, E>)
        ensures
            r@ == (Exec { capture: Some(snapshot::empty_capture::<T>(cfg)), ..self@ }),
    {
        let mut r = self;
        r.snapshot_capture = Some(SnapshotCapture::new(cfg));
        r
    }

    /// Starts to record offloads, from an empty collection.
    pub fn enable_snapshot_capture(&mut self, cfg: SnapshotConfig)
        ensures
            final(self)@ == (Exec {
                capture: Some(snapshot::empty_capture::<T>(cfg)),
                ..old(self)@
            }),
    {
        self.snapshot_capture = Some(SnapshotCapture::new(cfg));
    }

    /// Stops recording and drops what was recorded.
    pub fn disable_snapshot_capture(&mut self)
        ensures
            final(self)@ == (Exec { capture: None, ..old(self)@ }),
    {
        self.snapshot_capture = None;
    }

    /// What has been recorded, where offloads are recorded.
    pub fn pcie_snapshots(&self) -> (r: Option<&Vec<PcieSnapshot<T>>>)
        ensures
            match self@.capture {
                Some(c) => r matches Some(v) && snapshot::taken_of(v@) == c.taken,
                None => r is None,
            },
    {
        match &self.snapshot_capture {
            Some(c) => Some(c.snapshots()),
            None => None,
        }
    }

    /// The collection of snapshots, where offloads are recorded.
    pub fn pcie_snapshot_capture(&self) -> (r: Option<&SnapshotCapture<T>>)
        ensures
            match self@.capture {
                Some(c) => r matches Some(v) && v@ == c,
                None => r is None,
            },
    {
        match &self.snapshot_capture {
            Some(c) => Some(c),
            None => None,
        }
    }

    /// Hands out what has been recorded; nothing where offloads are not recorded.
    pub fn drain_pcie_snapshots(&mut self) -> (r: Vec<PcieSnapshot<T>>)
        ensures
            match old(self)@.capture {
                Some(c) => {
                    &&& snapshot::taken_of(r@) == c.taken
                    &&& final(self)@ == (Exec {
                        capture: Some(snapshot::Capture { taken: Seq::empty(), ..c }),
                        ..old(self)@
                    })
                },
                None => r@.len() == 0 && final(self)@ == old(self)@,
            },
    {
        match &mut self.snapshot_capture {
            Some(c) => c.drain(),
            None => Vec::new(),
        }
    }
}

impl<T: Scalar, E: GpuOffloadEngine<T>> InProcessTrustedExecutor<T, E> {
    /// Checks a number of stacked rows: the data under `k` shield rows.
    fn check_rows(&self, n: usize, k: usize) -> (r: Result<usize, OffloadError>)
        ensures
            match self@.rows_error(n + k) {
                Some(e) => r == Err::<usize, OffloadError>(e),
                None => r matches Ok(s) && s == n + k && pow2::next_pow2(s as nat) <= usize::MAX,
            },
    {
        let limit: usize = usize::MAX / 2 + 1;
        if k > limit || n > limit - k {
            return Err(OffloadError::TooLarge);
        }
        let s: usize = n + k;
        proof {
            pow2::lemma_next_pow2_fits(s as nat);
        }
        if s == 0 {
            match mask::resolve_mask_kind_for_shape(self.mask_kind, s) {
                MaskKind::Dct4 => {
                    return Err(OffloadError::EmptyOperand);
                },
                _ => {},
            }
        }
        Ok(s)
    }

    /// Draws a mask for `s` stacked rows.
    fn sample_mask(&mut self, s: usize) -> (r: MaskFamily<T>)
        requires
            old(self)@.rows_error(s as int) is None,
            pow2::next_pow2(s as nat) <= usize::MAX,
        ensures
            r@ == old(self)@.fresh_mask(T::ops(), s as nat).0,
            r@.n() == mask::operand_rows(old(self)@.mask_kind, s as nat),
            final(self)@ == (Exec { rng: old(self)@.fresh_mask(T::ops(), s as nat).1, ..old(self)@ }),
    {
        let kind: MaskKind = mask::resolve_mask_kind_for_shape(self.mask_kind, s);
        let side: usize = self.side(s);
        MaskFamily::fresh(kind, side, &mut self.rng)
    }

    /// Rows of the operand for `s` stacked rows.
    fn side(&self, s: usize) -> (r: usize)
        requires
            pow2::next_pow2(s as nat) <= usize::MAX,
        ensures
            r == mask::operand_rows(self@.mask_kind, s as nat),
            r >= s,
            mask::resolved(self@.mask_kind, s as nat) == MaskKind::Hd3 ==> pow2::is_pow2(r as nat),
    {
        match mask::resolve_mask_kind_for_shape(self.mask_kind, s) {
            MaskKind::Hd3 => mask::padded_side(s),
            _ => s,
        }
    }

    /// The data over its shield rows.
    fn stack(&mut self, hidden: &Matrix<T>) -> (r: Matrix<T>)
        requires
            hidden@.len() + old(self)@.shield.k <= usize::MAX,
            old(self)@.shield.k * hidden.width() <= usize::MAX,
        ensures
            r@ == old(self)@.shielded(T::ops(), hidden@, hidden.width(), old(self)@.rng).0,
            r@.len() == hidden@.len() + old(self)@.shield.k,
            r.width() == hidden.width(),
            final(self)@ == (Exec {
                rng: old(self)@.shielded(T::ops(), hidden@, hidden.width(), old(self)@.rng).1,
                ..old(self)@
            }),
    {
        let n: usize = hidden.nrows();
        let d: usize = hidden.ncols();
        if self.per_forward_mask && self.shield.enabled() {
            let sigma: T = shield::shield_deviation(self.shield.energy_scale, hidden);
            let rows: Matrix<T> = gaussian::sample_normal(self.shield.k, d, sigma, &mut self.rng);
            hidden.stacked_on(&rows)
        } else {
            let (stacked, _) = shield::stack_shield(hidden, self.shield, &mut self.rng);
            stacked
        }
    }

    /// Room for `count` more snapshots, where offloads are recorded.
    fn capture_has_room(&self, count: usize) -> (r: bool)
        ensures
            r == (self@.capture matches Some(c) ==> c.has_room(count as nat)),
    {
        match &self.snapshot_capture {
            Some(c) => c.has_room(count),
            None => true,
        }
    }

    /// Stacks shield rows under the data, pads to the mask's side and masks. The mask is
    /// that of the open forward pass, else a fresh one.
    pub fn build_shielded_and_apply(&mut self, hidden: &Matrix<T>, count: usize) -> (r: Result<
        (MaskFamily<T>, Matrix<T>),
        OffloadError,
    >)
        ensures
            match old(self)@.offload_error(hidden@.len(), hidden.width(), count as nat) {
                Some(e) => {
                    &&& r == Err::<(MaskFamily<T>, Matrix<T>), OffloadError>(e)
                    &&& final(self)@ == old(self)@
                },
                None => {
                    let p = old(self)@.prepared(T::ops(), hidden@, hidden.width());
                    &&& r matches Ok((m, masked))
                    &&& m@ == p.0
                    &&& m@.n() == masked@.len()
                    &&& masked@ == p.1
                    &&& masked@.len() == mask::operand_rows(
                        old(self)@.mask_kind,
                        hidden@.len() + old(self)@.shield.k as nat,
                    )
                    &&& masked@.len() >= hidden@.len()
                    &&& masked.width() == hidden.width()
                    &&& final(self)@ == (Exec {
                        rng: p.2,
                        timings: final(self)@.timings,
                        ..old(self)@
                    })
                    &&& profile::timed(
                        old(self)@.timings,
                        old(self)@.preparing_names(T::ops(), hidden@.len()),
                        final(self)@.timings,
                    )
                },
            },
    {
        let ghost start = self@.timings;
        proof {
            profile::lemma_timed_nothing(start);
        }
        let n: usize = hidden.nrows();
        let d: usize = hidden.ncols();
        let k: usize = self.shield.k;
        let s: usize = match self.check_rows(n, k) {
            Ok(s) => s,
            Err(e) => {
                return Err(e);
            },
        };
        match k.checked_mul(d) {
            Some(_) => {},
            None => {
                return Err(OffloadError::TooLarge);
            },
        }
        if !self.capture_has_room(count) {
            return Err(OffloadError::TooLarge);
        }
        let side: usize = self.side(s);
        let held: Option<MaskFamily<T>> = if self.per_forward_mask {
            match &self.session {
                Some(session) => {
                    let session_stacked: usize = session.mask.n();
                    if session.data_n != n || session_stacked != side {
                        return Err(
                            OffloadError::SessionShape {
                                n,
                                stacked: side,
                                session_n: session.data_n,
                                session_stacked,
                            },
                        );
                    }
                    Some(session.mask.copied())
                },
                None => None,
            }
        } else {
            None
        };
        let mask: MaskFamily<T> = match held {
            Some(m) => m,
            None => {
                let watch: Stopwatch = Stopwatch::start();
                let m: MaskFamily<T> = self.sample_mask(s);
                watch.note(&mut self.profile, "gelo:mask_sample");
                m
            },
        };
        let ghost before = self@;
        let ghost names: Seq<Seq<char>> = if old(self)@.draws_mask() {
            seq!["gelo:mask_sample"@]
        } else {
            seq![]
        };
        assert(profile::timed(start, names, before.timings));
        let watch: Stopwatch = Stopwatch::start();
        let stacked: Matrix<T> = self.stack(hidden);
        let zeros: Matrix<T> = Matrix::zeros(side - s, d);
        let operand: Matrix<T> = stacked.stacked_on(&zeros);
        assert(operand@ =~= old(self)@.operand(
            T::ops(),
            hidden@,
            d as nat,
            side as nat,
            before.rng,
        ));
        watch.note(&mut self.profile, "gelo:shield_stack");
        let ghost stacked_at = self@.timings;
        let watch: Stopwatch = Stopwatch::start();
        let masked: Matrix<T> = mask.apply(&operand);
        watch.note(&mut self.profile, mask.apply_profile_category());
        proof {
            let stacking = seq!["gelo:shield_stack"@];
            let masking = seq![mask::apply_category(mask@.kind())];
            profile::lemma_timed_then(start, names, before.timings, stacking, stacked_at);
            profile::lemma_timed_then(
                start,
                names + stacking,
                stacked_at,
                masking,
                self@.timings,
            );
            assert((names + stacking) + masking =~= old(self)@.preparing_names(
                T::ops(),
                hidden@.len(),
            ));
        }
        Ok((mask, masked))
    }

    /// Records an offload, where offloads are recorded.
    fn record_snapshot(&mut self, handle: WeightHandle, operand: &Matrix<T>, output: &Matrix<T>)
        requires
            old(self)@.capture matches Some(c) ==> c.has_room(1),
        ensures
            final(self)@ == old(self)@.recorded(handle, snapshot::kept(*operand), *output),
    {
        match &mut self.snapshot_capture {
            Some(c) => {
                c.record(handle, operand, Some(output));
            },
            None => {},
        }
    }

    /// Judges one answer: its shape, and its probes where answers are probed.
    fn judge(&mut self, handle: WeightHandle, masked: &Matrix<T>, out: &Matrix<T>) -> (r: Result<
        (),
        OffloadError,
    >)
        ensures
            ({
                let v = old(self)@.judged(
                    T::ops(),
                    handle,
                    masked@,
                    masked.width(),
                    *out,
                    old(self)@.rng,
                );
                &&& r == (match v.0 {
                    Some(e) => Err::<(), OffloadError>(e),
                    None => Ok(()),
                })
                &&& v.0 is None ==> out@.len() == masked@.len()
                &&& final(self)@ == (Exec {
                    rng: v.1,
                    timings: final(self)@.timings,
                    ..old(self)@
                })
                &&& profile::timed(
                    old(self)@.timings,
                    old(self)@.judging_names(handle),
                    final(self)@.timings,
                )
            }),
    {
        let rows: usize = masked.nrows();
        let d: usize = masked.ncols();
        proof {
            profile::lemma_timed_nothing(self@.timings);
        }
        if self.verify_probes > 0 {
            let weight: Arc<Matrix<T>> = match self.weights.get(handle) {
                Some(w) => table::share(w),
                None => {
                    return Err(OffloadError::WeightNotCached(handle));
                },
            };
            let watch: Stopwatch = Stopwatch::start();
            let w_rows: usize = weight.nrows();
            let w_cols: usize = weight.ncols();
            let r: Result<(), OffloadError> = if out.nrows() != rows || w_rows != d || w_cols
                != out.ncols() || w_cols > usize::MAX - w_rows {
                Err(OffloadError::AnswerShape)
            } else {
                integrity::verify_offload(self.verify_probes, masked, &weight, out, &mut self.rng)
            };
            watch.note(&mut self.profile, "uverify:linear");
            r
        } else {
            if out.nrows() != rows {
                return Err(OffloadError::AnswerShape);
            }
            Ok(())
        }
    }
}

impl<T: Scalar, E: GpuOffloadEngine<T>> InProcessTrustedExecutor<T, E> {
    /// Removes the mask from every answer and keeps the first `n` rows of each.
    fn open_answers(&mut self, mask: &MaskFamily<T>, outs: &Vec<Matrix<T>>, n: usize) -> (r: Vec<
        Matrix<T>,
    >)
        requires
            n <= mask@.n(),
            forall|i: int| 0 <= i < outs@.len() ==> (#[trigger] outs@[i])@.len() == mask@.n(),
        ensures
            r@.len() == outs@.len(),
            forall|i: int|
                0 <= i < outs@.len() ==> {
                    &&& (#[trigger] r@[i])@ == executor::opened(
                        T::ops(),
                        mask@,
                        outs@[i],
                        n as nat,
                    )
                    &&& r@[i].width() == outs@[i].width()
                },
            final(self)@ == (Exec { timings: final(self)@.timings, ..old(self)@ }),
            profile::timed(
                old(self)@.timings,
                Exec::<T, E>::opening_names(mask@, outs@.len()),
                final(self)@.timings,
            ),
    {
        let ghost start = self@.timings;
        let ghost category = mask::unapply_category(mask@.kind());
        proof {
            profile::lemma_timed_nothing(start);
            assert(Seq::new(0, |j: int| category) =~= Seq::<Seq<char>>::empty());
        }
        let mut unmasked: Vec<Matrix<T>> = Vec::new();
        for i in 0..outs.len()
            invariant
                forall|j: int| 0 <= j < outs@.len() ==> (#[trigger] outs@[j])@.len() == mask@.n(),
                category == mask::unapply_category(mask@.kind()),
                self@ == (Exec { timings: self@.timings, ..old(self)@ }),
                profile::timed(start, Seq::new(i as nat, |j: int| category), self@.timings),
                unmasked@.len() == i,
                forall|j: int|
                    0 <= j < i ==> {
                        &&& (#[trigger] unmasked@[j])@ == mask@.unmasked(
                            T::ops(),
                            outs@[j]@,
                            outs@[j].width(),
                        )
                        &&& unmasked@[j]@.len() == mask@.n()
                        &&& unmasked@[j].width() == outs@[j].width()
                    },
        {
            let ghost before = self@.timings;
            let watch: Stopwatch = Stopwatch::start();
            let full: Matrix<T> = mask.unapply(&outs[i]);
            watch.note(&mut self.profile, mask.unapply_profile_category());
            unmasked.push(full);
            proof {
                let so_far = Seq::new(i as nat, |j: int| category);
                profile::lemma_timed_then(start, so_far, before, seq![category], self@.timings);
                assert(so_far + seq![category] =~= Seq::new((i + 1) as nat, |j: int| category));
            }
        }
        let ghost before = self@.timings;
        let watch: Stopwatch = Stopwatch::start();
        let mut opened: Vec<Matrix<T>> = Vec::new();
        for i in 0..unmasked.len()
            invariant
                n <= mask@.n(),
                unmasked@.len() == outs@.len(),
                forall|j: int|
                    0 <= j < outs@.len() ==> {
                        &&& (#[trigger] unmasked@[j])@ == mask@.unmasked(
                            T::ops(),
                            outs@[j]@,
                            outs@[j].width(),
                        )
                        &&& unmasked@[j]@.len() == mask@.n()
                        &&& unmasked@[j].width() == outs@[j].width()
                    },
                opened@.len() == i,
                forall|j: int|
                    0 <= j < i ==> {
                        &&& (#[trigger] opened@[j])@ == executor::opened(
                            T::ops(),
                            mask@,
                            outs@[j],
                            n as nat,
                        )
                        &&& opened@[j].width() == outs@[j].width()
                    },
        {
            opened.push(unmasked[i].first_rows(n));
        }
        watch.note(&mut self.profile, "gelo:strip_shield");
        proof {
            let removing = Seq::new(outs@.len(), |j: int| category);
            let last = seq!["gelo:strip_shield"@];
            profile::lemma_timed_then(start, removing, before, last, self@.timings);
            assert(removing + last =~= Exec::<T, E>::opening_names(mask@, outs@.len()));
        }
        opened
    }

    /// Records one offload per answer.
    fn record_all(&mut self, handles: &Vec<WeightHandle>, masked: &Matrix<T>, outs: &Vec<Matrix<T>>)
        requires
            handles@.len() == outs@.len(),
            old(self)@.capture matches Some(c) ==> c.has_room(handles@.len()),
        ensures
            final(self)@ == old(self)@.recorded_first(
                handles@,
                snapshot::kept(*masked),
                outs@,
                handles@.len(),
            ),
    {
        for i in 0..handles.len()
            invariant
                handles@.len() == outs@.len(),
                self@ == old(self)@.recorded_first(
                    handles@,
                    snapshot::kept(*masked),
                    outs@,
                    i as nat,
                ),
                self@.capture matches Some(c) ==> c.has_room((handles@.len() - i) as nat),
        {
            self.record_snapshot(handles[i], masked, &outs[i]);
        }
    }

    /// Judges the answers in order, up to the first that fails.
    fn judge_all(
        &mut self,
        handles: &Vec<WeightHandle>,
        masked: &Matrix<T>,
        outs: &Vec<Matrix<T>>,
    ) -> (r: Result<(), OffloadError>)
        requires
            handles@.len() == outs@.len(),
        ensures
            ({
                let v = old(self)@.judged_from(
                    T::ops(),
                    handles@,
                    masked@,
                    masked.width(),
                    outs@,
                    0,
                    old(self)@.rng,
                );
                &&& r == (match v.0 {
                    Some(e) => Err::<(), OffloadError>(e),
                    None => Ok(()),
                })
                &&& v.0 is None ==> forall|i: int|
                    0 <= i < outs@.len() ==> (#[trigger] outs@[i])@.len() == masked@.len()
                &&& final(self)@ == (Exec {
                    rng: v.1,
                    timings: final(self)@.timings,
                    ..old(self)@
                })
                &&& profile::timed(
                    old(self)@.timings,
                    old(self)@.judging_names_from(
                        T::ops(),
                        handles@,
                        masked@,
                        masked.width(),
                        outs@,
                        0,
                        old(self)@.rng,
                    ),
                    final(self)@.timings,
                )
            }),
    {
        let ghost start = self@.timings;
        let ghost mut names: Seq<Seq<char>> = seq![];
        let ghost all_names = old(self)@.judging_names_from(
            T::ops(),
            handles@,
            masked@,
            masked.width(),
            outs@,
            0,
            old(self)@.rng,
        );
        proof {
            profile::lemma_timed_nothing(start);
            assert(names + all_names =~= all_names);
        }
        let ghost whole = old(self)@.judged_from(
            T::ops(),
            handles@,
            masked@,
            masked.width(),
            outs@,
            0,
            old(self)@.rng,
        );
        for i in 0..handles.len()
            invariant
                handles@.len() == outs@.len(),
                self@ == (Exec { rng: self@.rng, timings: self@.timings, ..old(self)@ }),
                start == old(self)@.timings,
                profile::timed(start, names, self@.timings),
                all_names == names + self@.judging_names_from(
                    T::ops(),
                    handles@,
                    masked@,
                    masked.width(),
                    outs@,
                    i as nat,
                    self@.rng,
                ),
                all_names == old(self)@.judging_names_from(
                    T::ops(),
                    handles@,
                    masked@,
                    masked.width(),
                    outs@,
                    0,
                    old(self)@.rng,
                ),
                whole == self@.judged_from(
                    T::ops(),
                    handles@,
                    masked@,
                    masked.width(),
                    outs@,
                    i as nat,
                    self@.rng,
                ),
                whole == old(self)@.judged_from(
                    T::ops(),
                    handles@,
                    masked@,
                    masked.width(),
                    outs@,
                    0,
                    old(self)@.rng,
                ),
                forall|j: int| 0 <= j < i ==> (#[trigger] outs@[j])@.len() == masked@.len(),
        {
            let ghost before = self@;
            proof {
                before.lemma_judged_ignores_stream(
                    old(self)@,
                    T::ops(),
                    handles@,
                    masked@,
                    masked.width(),
                    outs@,
                    i as nat,
                    before.rng,
                );
            }
            let verdict = self.judge(handles[i], masked, &outs[i]);
            proof {
                let one = before.judging_names(handles@[i as int]);
                profile::lemma_timed_then(start, names, before.timings, one, self@.timings);
                names = names + one;
            }
            match verdict {
                Ok(_) => {},
                Err(e) => {
                    assert(names =~= all_names);
                    return Err(e);
                },
            }
            proof {
                before.lemma_judged_ignores_stream(
                    self@,
                    T::ops(),
                    handles@,
                    masked@,
                    masked.width(),
                    outs@,
                    (i + 1) as nat,
                    self@.rng,
                );
                let rest = self@.judging_names_from(
                    T::ops(),
                    handles@,
                    masked@,
                    masked.width(),
                    outs@,
                    (i + 1) as nat,
                    self@.rng,
                );
                assert(names + rest =~= all_names);
            }
        }
        assert(names =~= all_names);
        Ok(())
    }

    /// One masked operand for several weights.
    fn offload_batch(&mut self, handles: &Vec<WeightHandle>, hidden: &Matrix<T>) -> (r: Result<
        Vec<Matrix<T>>,
        OffloadError,
    >)
        requires
            handles@.len() > 0,
        ensures
            old(self)@.many_run(handles@, *hidden, final(self)@, r),
    {
        let (mask, masked) = match self.build_shielded_and_apply(hidden, handles.len()) {
            Ok(p) => p,
            Err(e) => {
                return Err(e);
            },
        };
        let ghost start = old(self)@.timings;
        let ghost prepared = self@.timings;
        let watch: Stopwatch = Stopwatch::start();
        let answer = self.engine.matmul_many(handles, &masked);
        watch.note(&mut self.profile, "engine:matmul_many");
        assert(substrate::answers_many(&old(self)@.engine, handles, &masked, answer));
        let ghost ready = self@;
        let ghost given = answer;
        let ghost asked = old(self)@.preparing_names(T::ops(), hidden@.len())
            + seq!["engine:matmul_many"@];
        let ghost all_names = old(self)@.many_names(T::ops(), handles@, *hidden, given);
        proof {
            profile::lemma_timed_then(
                start,
                old(self)@.preparing_names(T::ops(), hidden@.len()),
                prepared,
                seq!["engine:matmul_many"@],
                ready.timings,
            );
        }
        let outs: Vec<Matrix<T>> = match answer {
            Ok(outs) => outs,
            Err(e) => {
                assert(asked =~= all_names);
                return Err(e);
            },
        };
        if outs.len() != handles.len() {
            assert(asked =~= all_names);
            return Err(OffloadError::ResultCount { got: outs.len(), expected: handles.len() });
        }
        self.record_all(handles, &masked, &outs);
        let ghost recorded = self@;
        proof {
            let sent = snapshot::kept(masked);
            ready.lemma_recorded_keeps(handles@, sent, outs@, handles@.len());
            old(self)@.lemma_recorded_keeps(handles@, sent, outs@, handles@.len());
            ready.lemma_recorded_same(old(self)@, handles@, sent, outs@, handles@.len());
            recorded.lemma_judged_ignores_stream(
                old(self)@,
                T::ops(),
                handles@,
                masked@,
                masked.width(),
                outs@,
                0,
                recorded.rng,
            );
        }
        let verdict = self.judge_all(handles, &masked, &outs);
        let ghost judged = self@.timings;
        let ghost judging = old(self)@.judging_names_from(
            T::ops(),
            handles@,
            masked@,
            masked.width(),
            outs@,
            0,
            recorded.rng,
        );
        proof {
            profile::lemma_timed_then(start, asked, ready.timings, judging, judged);
        }
        match verdict {
            Ok(_) => {},
            Err(e) => {
                assert(asked + judging =~= all_names);
                return Err(e);
            },
        }
        let opened: Vec<Matrix<T>> = self.open_answers(&mask, &outs, hidden.nrows());
        proof {
            let opening = Exec::<T, E>::opening_names(mask@, outs@.len());
            profile::lemma_timed_then(start, asked + judging, judged, opening, self@.timings);
            assert((asked + judging) + opening =~= all_names);
        }
        Ok(opened)
    }
}

/// Looks tokens up in a table that may not be there.
fn gather_from<T: Scalar>(
    table: &Option<Arc<PleTable<T>>>,
    token_ids: &Vec<u32>,
    layer_idx: usize,
) -> (r: Result<Matrix<T>, OffloadError>)
    ensures
        executor::ple_lookup(
            match *table {
                Some(t) => Some(t@),
                None => None,
            },
            token_ids@,
            layer_idx,
            r,
        ),
{
    match table {
        None => Err(OffloadError::NoPleTable),
        Some(t) => match t.gather(token_ids, layer_idx) {
            Ok(m) => Ok(m),
            Err(e) => Err(OffloadError::Ple(e)),
        },
    }
}

/// How an executor goes on from asking for the product of queries and transposed keys: refused
/// where the blinded operands cannot be counted, else asked for under fresh secrets.
pub open spec fn scores_run<T: Scalar, E: GpuOffloadEngine<T>>(
    before: Exec<T, E>,
    q: Matrix<T>,
    kt: Matrix<T>,
    after: Exec<T, E>,
    r: Result<Matrix<T>, OffloadError>,
) -> bool {
    &&& after == (Exec { rng: after.rng, timings: after.timings, ..before })
    &&& if 2 * q@.len() + q.width() > usize::MAX {
        &&& r == Err::<Matrix<T>, OffloadError>(OffloadError::TooLarge)
        &&& after == before
    } else {
        out_attn_mult::qkt_run(
            &before.engine,
            &q,
            &kt,
            before.verify_probes,
            before.rng,
            before.timings,
            r,
            after.rng,
            after.timings,
        )
    }
}

/// The same for the heads of a stack, in one round trip.
pub open spec fn heads_run<T: Scalar, E: GpuOffloadEngine<T>>(
    before: Exec<T, E>,
    q: Tensor3<T>,
    kt: Tensor3<T>,
    after: Exec<T, E>,
    r: Result<Tensor3<T>, OffloadError>,
) -> bool {
    &&& after == (Exec { rng: after.rng, timings: after.timings, ..before })
    &&& if 2 * q.height() + q.width() > usize::MAX {
        &&& r == Err::<Tensor3<T>, OffloadError>(OffloadError::TooLarge)
        &&& after == before
    } else {
        out_attn_mult::qkt_run_batched(
            &before.engine,
            &q,
            &kt,
            before.verify_probes,
            before.rng,
            before.timings,
            r,
            after.rng,
            after.timings,
        )
    }
}

impl<T: Scalar, E: GpuOffloadEngine<T>> TrustedExecutor<T> for InProcessTrustedExecutor<T, E> {
    type Engine = E;

    open spec fn engine_of(self) -> E {
        self@.engine
    }

    fn offload_engine(&self) -> (r: &E) {
        &self.engine
    }

    open spec fn linear_step(
        before: Self,
        handle: WeightHandle,
        hidden: Matrix<T>,
        after: Self,
        r: Result<Matrix<T>, OffloadError>,
    ) -> bool {
        before@.linear_run(handle, hidden, after@, r)
    }

    open spec fn qkt_step(
        before: Self,
        q: Matrix<T>,
        kt: Matrix<T>,
        after: Self,
        r: Result<Matrix<T>, OffloadError>,
    ) -> bool {
        scores_run(before@, q, kt, after@, r)
    }

    /// Draws the mask of the forward pass, for the shield that suits its length.
    fn begin_forward_pass(&mut self, n: usize) -> (r: Result<(), OffloadError>)
        ensures
            match old(self)@.begin_error(n as nat) {
                Some(e) => r == Err::<(), OffloadError>(e) && final(self)@ == old(self)@,
                None => {
                    &&& r == Ok::<(), OffloadError>(())
                    &&& final(self)@ == (Exec {
                        timings: final(self)@.timings,
                        ..old(self)@.begun(T::ops(), n as nat)
                    })
                    &&& profile::timed(
                        old(self)@.timings,
                        if old(self)@.per_forward_mask {
                            seq!["gelo:mask_sample"@]
                        } else {
                            seq![]
                        },
                        final(self)@.timings,
                    )
                },
            },
    {
        if !self.per_forward_mask {
            proof {
                profile::lemma_timed_nothing(self@.timings);
            }
            return Ok(());
        }
        let shield: ShieldConfig<T> = match self.shield_small_n {
            Some(small) => if n <= self.shield_small_n_max {
                small
            } else {
                self.shield_default
            },
            None => self.shield_default,
        };
        let s: usize = match self.check_rows(n, shield.k) {
            Ok(s) => s,
            Err(e) => {
                return Err(e);
            },
        };
        self.shield = shield;
        let watch: Stopwatch = Stopwatch::start();
        let mask: MaskFamily<T> = self.sample_mask(s);
        watch.note(&mut self.profile, "gelo:mask_sample");
        self.session = Some(SessionMask { mask, data_n: n });
        Ok(())
    }

    /// Drops the mask of the forward pass.
    fn end_forward_pass(&mut self) -> (r: Result<(), OffloadError>)
        ensures
            r == Ok::<(), OffloadError>(()),
            final(self)@ == old(self)@.ended(),
    {
        self.session = None;
        Ok(())
    }

    fn set_rng_stream(&mut self, stream: u64)
        ensures
            final(self)@ == (Exec {
                rng: rng::RngState { stream, ..old(self)@.rng },
                ..old(self)@
            }),
    {
        self.rng.set_stream(stream);
    }

    /// Keeps a copy for probing, and hands the weight on.
    fn provision_weight(&mut self, handle: WeightHandle, weight: &Matrix<T>) -> (r: Result<
        (),
        OffloadError,
    >)
        ensures
            exists|engine: &mut E|
                {
                    &&& *engine == old(self)@.engine
                    &&& *final(engine) == final(self)@.engine
                    &&& #[trigger] call_ensures(E::register_weight, (engine, handle, weight), r)
                },
            exists|held: Matrix<T>|
                {
                    &&& held@ == weight@
                    &&& held.width() == weight.width()
                    &&& final(self)@ == (Exec {
                        engine: final(self)@.engine,
                        weights: #[trigger] old(self)@.weights.insert(handle, held),
                        ..old(self)@
                    })
                },
    {
        let copy: Matrix<T> = weight.copied();
        let ghost held = copy;
        self.weights.insert(handle, Arc::new(copy));
        assert(self@.weights == old(self)@.weights.insert(handle, held));
        self.engine.register_weight(handle, weight)
    }

    /// Hands the weight on and, once the engine has taken it, keeps it for probing.
    fn provision_weight_shared(&mut self, handle: WeightHandle, weight: Arc<Matrix<T>>) -> (r:
        Result<(), OffloadError>)
        ensures
            exists|engine: &mut E|
                {
                    &&& *engine == old(self)@.engine
                    &&& *final(engine) == final(self)@.engine
                    &&& #[trigger] call_ensures(
                        E::register_weight_shared,
                        (engine, handle, weight),
                        r,
                    )
                },
            final(self)@ == (Exec {
                engine: final(self)@.engine,
                weights: if r is Ok {
                    old(self)@.weights.insert(handle, *weight)
                } else {
                    old(self)@.weights
                },
                ..old(self)@
            }),
    {
        let r = self.engine.register_weight_shared(handle, table::share(&weight));
        if r.is_ok() {
            self.weights.insert(handle, weight);
        }
        r
    }

    /// Hands the weight on. Probes compare at full precision, so no copy is kept.
    fn provision_weight_bf16(&mut self, handle: WeightHandle, weight: &Matrix<T>) -> (r: Result<
        (),
        OffloadError,
    >)
        ensures
            exists|engine: &mut E|
                {
                    &&& *engine == old(self)@.engine
                    &&& *final(engine) == final(self)@.engine
                    &&& #[trigger] call_ensures(E::register_weight, (engine, handle, weight), r)
                },
            final(self)@ == (Exec { engine: final(self)@.engine, ..old(self)@ }),
    {
        self.engine.register_weight(handle, weight)
    }

    /// Hands the weight on, and keeps no copy.
    fn provision_weight_bf16_shared(&mut self, handle: WeightHandle, weight: Arc<Matrix<T>>) -> (r:
        Result<(), OffloadError>)
        ensures
            exists|engine: &mut E|
                {
                    &&& *engine == old(self)@.engine
                    &&& *final(engine) == final(self)@.engine
                    &&& #[trigger] call_ensures(
                        E::register_weight_shared,
                        (engine, handle, weight),
                        r,
                    )
                },
            final(self)@ == (Exec { engine: final(self)@.engine, ..old(self)@ }),
    {
        self.engine.register_weight_shared(handle, weight)
    }

    /// Masks, asks the engine, records, probes, and opens the answer.
    fn offload_linear(&mut self, handle: WeightHandle, hidden: &Matrix<T>) -> (r: Result<
        Matrix<T>,
        OffloadError,
    >) {
        let (mask, masked) = match self.build_shielded_and_apply(hidden, 1) {
            Ok(p) => p,
            Err(e) => {
                return Err(e);
            },
        };
        let ghost start = old(self)@.timings;
        let ghost prepared = self@.timings;
        let watch: Stopwatch = Stopwatch::start();
        let answer = self.engine.matmul(handle, &masked);
        watch.note(&mut self.profile, "engine:matmul");
        assert(substrate::answers(&old(self)@.engine, handle, &masked, answer));
        let ghost asked = old(self)@.preparing_names(T::ops(), hidden@.len())
            + seq!["engine:matmul"@];
        let ghost all_names = old(self)@.linear_names(T::ops(), handle, *hidden, answer);
        let ghost answered = self@.timings;
        proof {
            profile::lemma_timed_then(
                start,
                old(self)@.preparing_names(T::ops(), hidden@.len()),
                prepared,
                seq!["engine:matmul"@],
                answered,
            );
        }
        let out: Matrix<T> = match answer {
            Ok(out) => out,
            Err(e) => {
                assert(asked =~= all_names);
                return Err(e);
            },
        };
        self.record_snapshot(handle, &masked, &out);
        let verdict = self.judge(handle, &masked, &out);
        let ghost judged = self@.timings;
        let ghost judging = old(self)@.judging_names(handle);
        proof {
            profile::lemma_timed_then(start, asked, answered, judging, judged);
        }
        match verdict {
            Ok(_) => {},
            Err(e) => {
                assert(asked + judging =~= all_names);
                return Err(e);
            },
        }
        let ghost given = out;
        let mut outs: Vec<Matrix<T>> = Vec::new();
        outs.push(out);
        let mut opened: Vec<Matrix<T>> = self.open_answers(&mask, &outs, hidden.nrows());
        assert(outs@[0] == given);
        proof {
            let opening = Exec::<T, E>::opening_names(mask@, 1);
            profile::lemma_timed_then(start, asked + judging, judged, opening, self@.timings);
            assert((asked + judging) + opening =~= all_names);
        }
        Ok(opened.pop().unwrap())
    }

    /// Query, key and value from one masked operand.
    fn offload_qkv(&mut self, layer: u16, hidden: &Matrix<T>) -> (r: Result<
        (Matrix<T>, Matrix<T>, Matrix<T>),
        OffloadError,
    >)
        ensures
            old(self)@.qkv_run(layer, *hidden, final(self)@, r),
    {
        let mut handles: Vec<WeightHandle> = Vec::new();
        handles.push(WeightHandle::new(layer, WeightKind::Q));
        handles.push(WeightHandle::new(layer, WeightKind::K));
        handles.push(WeightHandle::new(layer, WeightKind::V));
        assert(handles@ =~= executor::qkv_handles(layer));
        let outs = self.offload_batch(&handles, hidden);
        let ghost given = outs;
        match outs {
            Err(e) => Err(e),
            Ok(mut v) => {
                let v_full: Matrix<T> = v.pop().unwrap();
                let k_full: Matrix<T> = v.pop().unwrap();
                let q_full: Matrix<T> = v.pop().unwrap();
                assert(given->Ok_0@ =~= seq![q_full, k_full, v_full]);
                Ok((q_full, k_full, v_full))
            },
        }
    }

    /// Several projections from one masked operand.
    fn offload_linear_many(&mut self, handles: &Vec<WeightHandle>, hidden: &Matrix<T>) -> (r:
        Result<Vec<Matrix<T>>, OffloadError>)
        ensures
            old(self)@.many_run(handles@, *hidden, final(self)@, r),
    {
        if handles.len() == 0 {
            return Ok(Vec::new());
        }
        self.offload_batch(handles, hidden)
    }

    /// Looks tokens up on the trusted side.
    fn ple_gather(&self, token_ids: &Vec<u32>, layer_idx: usize) -> (r: Result<
        Matrix<T>,
        OffloadError,
    >)
        ensures
            executor::ple_lookup(self@.ple, token_ids@, layer_idx, r),
    {
        gather_from(&self.ple_table, token_ids, layer_idx)
    }

    /// Takes the table in; the engine never sees it.
    fn provision_ple_table(&mut self, table: PleTable<T>) -> (r: Result<(), OffloadError>)
        ensures
            r == Ok::<(), OffloadError>(()),
            final(self)@ == (Exec { ple: Some(table@), ..old(self)@ }),
    {
        self.ple_table = Some(Arc::new(table));
        Ok(())
    }

    /// The product of queries and transposed keys, blinded.
    fn offload_attention_qkt(&mut self, q: &Matrix<T>, kt: &Matrix<T>) -> (r: Result<
        Matrix<T>,
        OffloadError,
    >)
        ensures
            scores_run(old(self)@, *q, *kt, final(self)@, r),
    {
        if !fits_twice(q.nrows(), q.ncols()) {
            return Err(OffloadError::TooLarge);
        }
        out_attn_mult::offload_qkt(
            &self.engine,
            &mut self.rng,
            q,
            kt,
            self.verify_probes,
            &mut self.profile,
        )
    }

    /// The products of every head, blinded, in one round trip.
    fn offload_attention_qkt_batched(&mut self, q: &Tensor3<T>, kt: &Tensor3<T>) -> (r: Result<
        Tensor3<T>,
        OffloadError,
    >)
        ensures
            heads_run(old(self)@, *q, *kt, final(self)@, r),
    {
        let (_, n, d) = q.dim();
        if !fits_twice(n, d) {
            return Err(OffloadError::TooLarge);
        }
        out_attn_mult::offload_qkt_batched(
            &self.engine,
            &mut self.rng,
            q,
            kt,
            self.verify_probes,
            &mut self.profile,
        )
    }

    /// Attention whose tokens the engine sees in a random order.
    fn offload_attention_permuted(
        &mut self,
        q: &Tensor3<T>,
        k: &Tensor3<T>,
        v: &Tensor3<T>,
        scale: T,
        mask: AttentionMask,
    ) -> (r: Result<Tensor3<T>, OffloadError>)
        ensures
            final(self)@ == (Exec {
                rng: final(self)@.rng,
                timings: final(self)@.timings,
                ..old(self)@
            }),
            profile::timed(
                old(self)@.timings,
                seq!["gelo:perm_attention"@],
                final(self)@.timings,
            ),
            attention::permuted_run(
                &old(self)@.engine,
                q,
                k,
                v,
                scale,
                mask,
                old(self)@.perm_attn,
                old(self)@.rng,
                r,
                final(self)@.rng,
            ),
    {
        let watch: Stopwatch = Stopwatch::start();
        let r = attention::permuted_attention(
            &self.engine,
            q,
            k,
            v,
            scale,
            mask,
            self.perm_attn,
            &mut self.rng,
        );
        watch.note(&mut self.profile, "gelo:perm_attention");
        r
    }

    /// Attention over a cache whose tokens the engine sees in a random order.
    fn offload_attention_permuted_cached(
        &mut self,
        q: &Tensor3<T>,
        k: &Tensor3<T>,
        v: &Tensor3<T>,
        scale: T,
        q_pos_offset: usize,
        mask: AttentionMask,
    ) -> (r: Result<Tensor3<T>, OffloadError>)
        ensures
            final(self)@ == (Exec {
                rng: final(self)@.rng,
                timings: final(self)@.timings,
                ..old(self)@
            }),
            profile::timed(
                old(self)@.timings,
                seq!["gelo:perm_attention_cached"@],
                final(self)@.timings,
            ),
            attention::cached_run(
                &old(self)@.engine,
                q,
                k,
                v,
                scale,
                q_pos_offset,
                mask,
                old(self)@.perm_attn,
                old(self)@.rng,
                r,
                final(self)@.rng,
            ),
    {
        let watch: Stopwatch = Stopwatch::start();
        let r = attention::permuted_attention_cached(
            &self.engine,
            q,
            k,
            v,
            scale,
            q_pos_offset,
            mask,
            self.perm_attn,
            &mut self.rng,
        );
        watch.note(&mut self.profile, "gelo:perm_attention_cached");
        r
    }
}

/// Whether `2n + d` can be counted.
fn fits_twice(n: usize, d: usize) -> (r: bool)
    ensures
        r == (2 * n + d <= usize::MAX),
{
    n <= usize::MAX / 2 && d <= usize::MAX - 2 * n
}

/// Another handle to a table that may not be there.
fn shared_table<T>(table: &Option<Arc<PleTable<T>>>) -> (r: Option<Arc<PleTable<T>>>)
    ensures
        r == *table,
{
    match table {
        Some(t) => Some(table::share(t)),
        None => None,
    }
}

impl<T: Scalar, E: GpuOffloadEngine<T> + Clone> Clone for InProcessTrustedExecutor<T, E> {
    /// An executor with the same settings, weights, table and stream. It has no open forward
    /// pass, records from scratch where this one records, and has an empty profile.
    fn clone(&self) -> (r: InProcessTrustedExecutor<T, E>)
        ensures
            cloned(self@.engine, r@.engine),
            r@ == (Exec {
                engine: r@.engine,
                session: None,
                capture: match self@.capture {
                    Some(c) => Some(snapshot::empty_capture(c.cfg)),
                    None => None,
                },
                timings: Seq::empty(),
                ..self@
            }),
    {
        let engine: E = self.engine.clone();
        let capture: Option<SnapshotCapture<T>> = match &self.snapshot_capture {
            Some(c) => Some(SnapshotCapture::new(c.config())),
            None => None,
        };
        let rng: MaskRng = MaskRng::at(self.rng.seed(), self.rng.stream(), self.rng.word_pos());
        InProcessTrustedExecutor {
            engine,
            rng,
            shield: self.shield,
            shield_default: self.shield_default,
            shield_small_n: self.shield_small_n,
            shield_small_n_max: self.shield_small_n_max,
            verify_probes: self.verify_probes,
            weights: self.weights.clone(),
            ple_table: shared_table(&self.ple_table),
            per_forward_mask: self.per_forward_mask,
            session: None,
            perm_attn: self.perm_attn,
            snapshot_capture: capture,
            mask_kind: self.mask_kind,
            profile: Profile::new(),
        }
    }
}

/// What an executor without masks holds.
#[verifier::reject_recursive_types(T)]
pub struct Plain<T, E> {
    pub engine: E,
    pub ple: Option<ple::Table<T>>,
    pub timings: Seq<profile::Entry>,
}

impl<T, E> Plain<T, E> {
    /// Nothing changes but that what was done has been timed.
    pub open spec fn goes_on(self, names: Seq<Seq<char>>, after: Plain<T, E>) -> bool {
        &&& after == (Plain { timings: after.timings, ..self })
        &&& profile::timed(self.timings, names, after.timings)
    }
}

/// Executor that hands everything to its engine unmasked.
#[derive(Debug)]
pub struct PlaintextExecutor<T, E> {
    engine: E,
    ple_table: Option<Arc<PleTable<T>>>,
    profile: Profile,
}

impl<T, E> View for PlaintextExecutor<T, E> {
    type V = Plain<T, E>;

    closed spec fn view(&self) -> Plain<T, E> {
        Plain {
            engine: self.engine,
            ple: match self.ple_table {
                Some(t) => Some(t@),
                None => None,
            },
            timings: self.profile@,
        }
    }
}

impl<T: Scalar, E: GpuOffloadEngine<T> + Clone> Clone for PlaintextExecutor<T, E> {
    fn clone(&self) -> (r: PlaintextExecutor<T, E>)
        ensures
            cloned(self@.engine, r@.engine),
            r@ == (Plain { engine: r@.engine, timings: Seq::empty(), ..self@ }),
    {
        PlaintextExecutor {
            engine: self.engine.clone(),
            ple_table: shared_table(&self.ple_table),
            profile: Profile::new(),
        }
    }
}

impl<T: Scalar, E: GpuOffloadEngine<T>> PlaintextExecutor<T, E> {
    pub fn new(engine: E) -> (r: PlaintextExecutor<T, E>)
        ensures
            r@ == (Plain::<T, E> { engine, ple: None, timings: Seq::empty() }),
    {
        PlaintextExecutor { engine, ple_table: None, profile: Profile::new() }
    }

    /// Time and calls of what the executor has done, by category.
    pub fn profile(&self) -> (r: &Profile)
        ensures
            r@ == self@.timings,
    {
        &self.profile
    }

    /// Hands the profile out and goes on with an empty one.
    pub fn take_profile(&mut self) -> (r: Profile)
        ensures
            r@ == old(self)@.timings,
            final(self)@ == (Plain { timings: Seq::empty(), ..old(self)@ }),
    {
        let mut taken: Profile = Profile::new();
        std::mem::swap(&mut taken, &mut self.profile);
        taken
    }

    pub fn engine(&self) -> (r: &E)
        ensures
            *r == self@.engine,
    {
        &self.engine
    }
}

impl<T: Scalar, E: GpuOffloadEngine<T>> TrustedExecutor<T> for PlaintextExecutor<T, E> {
    type Engine = E;

    open spec fn engine_of(self) -> E {
        self@.engine
    }

    fn offload_engine(&self) -> (r: &E) {
        &self.engine
    }

    open spec fn linear_step(
        before: Self,
        handle: WeightHandle,
        hidden: Matrix<T>,
        after: Self,
        r: Result<Matrix<T>, OffloadError>,
    ) -> bool {
        &&& substrate::answers(&before@.engine, handle, &hidden, r)
        &&& before@.goes_on(seq!["engine:matmul"@], after@)
    }

    open spec fn qkt_step(
        before: Self,
        q: Matrix<T>,
        kt: Matrix<T>,
        after: Self,
        r: Result<Matrix<T>, OffloadError>,
    ) -> bool {
        &&& substrate::answers_dynamic(&before@.engine, &q, &kt, r)
        &&& before@.goes_on(seq!["engine:matmul_dynamic"@], after@)
    }

    fn provision_weight(&mut self, handle: WeightHandle, weight: &Matrix<T>) -> (r: Result<
        (),
        OffloadError,
    >)
        ensures
            exists|engine: &mut E|
                {
                    &&& *engine == old(self)@.engine
                    &&& *final(engine) == final(self)@.engine
                    &&& #[trigger] call_ensures(E::register_weight, (engine, handle, weight), r)
                },
            final(self)@ == (Plain { engine: final(self)@.engine, ..old(self)@ }),
    {
        self.engine.register_weight(handle, weight)
    }

    fn provision_weight_bf16(&mut self, handle: WeightHandle, weight: &Matrix<T>) -> (r: Result<
        (),
        OffloadError,
    >)
        ensures
            exists|engine: &mut E|
                {
                    &&& *engine == old(self)@.engine
                    &&& *final(engine) == final(self)@.engine
                    &&& #[trigger] call_ensures(E::register_weight, (engine, handle, weight), r)
                },
            final(self)@ == (Plain { engine: final(self)@.engine, ..old(self)@ }),
    {
        self.engine.register_weight(handle, weight)
    }

    fn offload_linear(&mut self, handle: WeightHandle, hidden: &Matrix<T>) -> (r: Result<
        Matrix<T>,
        OffloadError,
    >) {
        let watch: Stopwatch = Stopwatch::start();
        let r = self.engine.matmul(handle, hidden);
        watch.note(&mut self.profile, "engine:matmul");
        assert(substrate::answers(&self@.engine, handle, hidden, r));
        r
    }

    fn offload_attention_qkt(&mut self, q: &Matrix<T>, kt: &Matrix<T>) -> (r: Result<
        Matrix<T>,
        OffloadError,
    >)
        ensures
            substrate::answers_dynamic(&old(self)@.engine, q, kt, r),
            old(self)@.goes_on(seq!["engine:matmul_dynamic"@], final(self)@),
    {
        let watch: Stopwatch = Stopwatch::start();
        let r = self.engine.matmul_dynamic(q, kt);
        watch.note(&mut self.profile, "engine:matmul_dynamic");
        r
    }

    fn offload_attention_qkt_batched(&mut self, q: &Tensor3<T>, kt: &Tensor3<T>) -> (r: Result<
        Tensor3<T>,
        OffloadError,
    >)
        ensures
            substrate::answers_batched(&old(self)@.engine, q, kt, r),
            old(self)@.goes_on(seq!["engine:matmul_dynamic_batched"@], final(self)@),
    {
        let watch: Stopwatch = Stopwatch::start();
        let r = self.engine.matmul_dynamic_batched(q, kt);
        watch.note(&mut self.profile, "engine:matmul_dynamic_batched");
        r
    }

    fn provision_ple_table(&mut self, table: PleTable<T>) -> (r: Result<(), OffloadError>)
        ensures
            r == Ok::<(), OffloadError>(()),
            final(self)@ == (Plain { ple: Some(table@), ..old(self)@ }),
    {
        self.ple_table = Some(Arc::new(table));
        Ok(())
    }

    fn ple_gather(&self, token_ids: &Vec<u32>, layer_idx: usize) -> (r: Result<
        Matrix<T>,
        OffloadError,
    >)
        ensures
            executor::ple_lookup(self@.ple, token_ids@, layer_idx, r),
    {
        gather_from(&self.ple_table, token_ids, layer_idx)
    }
}

} // verus!
