//! What the masking executor holds, and how each operation changes it.

use vstd::prelude::*;

use crate::attention;
use crate::error::OffloadError;
use crate::gaussian;
use crate::integrity;
use crate::mask;
use crate::mask::MaskKind;
use crate::matrix;
use crate::matrix::Matrix;
use crate::ple;
use crate::profile;
use crate::rng;
use crate::scalar::{Ops, Scalar};
use crate::shield;
use crate::shield::ShieldConfig;
use crate::snapshot;
use crate::substrate;
use crate::substrate::{GpuOffloadEngine, WeightHandle, WeightKind};

verus! {

/// The mask of a forward pass and the number of tokens it was opened for.
pub struct Session<T> {
    pub mask: mask::Family<T>,
    pub data_n: nat,
}

/// Everything a masking executor holds.
#[verifier::reject_recursive_types(T)]
#[verifier::reject_recursive_types(E)]
#[verifier::ext_equal]
pub struct Exec<T, E> {
    pub engine: E,
    pub rng: rng::RngState,
    /// The shield in use.
    pub shield: ShieldConfig<T>,
    /// The shield of an ordinary forward pass.
    pub shield_default: ShieldConfig<T>,
    /// The shield of a small forward pass, where it differs.
    pub shield_small_n: Option<ShieldConfig<T>>,
    /// The largest forward pass that counts as small.
    pub shield_small_n_max: usize,
    /// Probes per answer.
    pub verify_probes: usize,
    /// The weights that were provisioned, held on the trusted side for probing.
    pub weights: Map<WeightHandle, Matrix<T>>,
    pub ple: Option<ple::Table<T>>,
    /// One mask per forward pass, or one per offload.
    pub per_forward_mask: bool,
    pub session: Option<Session<T>>,
    pub perm_attn: attention::PermAttnConfig<T>,
    pub capture: Option<snapshot::Capture<T>>,
    pub mask_kind: MaskKind,
    /// Time and calls of what the executor has done, by category.
    pub timings: Seq<profile::Entry>,
}

/// Largest number of stacked rows that can be padded to a power of two.
pub open spec fn max_rows() -> int {
    usize::MAX / 2 + 1
}

/// The first `n` rows of what the mask leaves of an answer.
pub open spec fn opened<T>(ops: Ops<T>, m: mask::Family<T>, out: Matrix<T>, n: nat) -> Seq<Seq<T>> {
    m.unmasked(ops, out@, out.width()).take(n as int)
}

/// The query, key and value weights of a layer.
pub open spec fn qkv_handles(layer: u16) -> Seq<WeightHandle> {
    seq![
        WeightHandle { layer, kind: WeightKind::Q },
        WeightHandle { layer, kind: WeightKind::K },
        WeightHandle { layer, kind: WeightKind::V },
    ]
}

/// The outcome of looking tokens up in the per-layer embedding table.
pub open spec fn ple_lookup<T: Scalar>(
    ple: Option<ple::Table<T>>,
    tokens: Seq<u32>,
    layer_idx: usize,
    r: Result<Matrix<T>, OffloadError>,
) -> bool {
    match ple {
        None => r == Err::<Matrix<T>, OffloadError>(OffloadError::NoPleTable),
        Some(t) => {
            ||| r matches Ok(m) && t.looked_up(
                T::ops(),
                tokens,
                layer_idx,
                Ok::<Matrix<T>, ple::PleError>(m),
            )
            ||| r matches Err(OffloadError::Ple(e)) && t.looked_up(
                T::ops(),
                tokens,
                layer_idx,
                Err::<Matrix<T>, ple::PleError>(e),
            )
        },
    }
}

impl<T, E> Exec<T, E> {
    /// The shield of a forward pass over `n` tokens.
    pub open spec fn chosen_shield(self, n: nat) -> ShieldConfig<T> {
        match self.shield_small_n {
            Some(small) => if n <= self.shield_small_n_max {
                small
            } else {
                self.shield_default
            },
            None => self.shield_default,
        }
    }

    /// With one mask per forward pass, and this shield for it.
    pub open spec fn reusing(self, shield: ShieldConfig<T>) -> Exec<T, E> {
        Exec { per_forward_mask: true, shield, shield_default: shield, ..self }
    }

    /// Why `s` stacked rows cannot be masked.
    pub open spec fn rows_error(self, s: int) -> Option<OffloadError> {
        if s > max_rows() {
            Some(OffloadError::TooLarge)
        } else if s == 0 && mask::resolved(self.mask_kind, 0) == MaskKind::Dct4 {
            Some(OffloadError::EmptyOperand)
        } else {
            None
        }
    }

    /// Why a forward pass over `n` tokens cannot be opened.
    pub open spec fn begin_error(self, n: nat) -> Option<OffloadError> {
        if !self.per_forward_mask {
            None
        } else {
            self.rows_error(n + self.chosen_shield(n).k)
        }
    }

    /// A mask for `s` stacked rows drawn from the stream, and the stream after it.
    pub open spec fn fresh_mask(self, ops: Ops<T>, s: nat) -> (mask::Family<T>, rng::RngState) {
        let kind = mask::resolved(self.mask_kind, s);
        let side = mask::operand_rows(self.mask_kind, s);
        (
            mask::sampled_family(ops, kind, self.rng, side),
            mask::after_family(ops, kind, self.rng, side),
        )
    }

    /// After a forward pass over `n` tokens has been opened: with one mask per offload
    /// nothing happens, else the shield is chosen and the mask drawn.
    pub open spec fn begun(self, ops: Ops<T>, n: nat) -> Exec<T, E> {
        if !self.per_forward_mask {
            self
        } else {
            let chosen = Exec { shield: self.chosen_shield(n), ..self };
            let drawn = chosen.fresh_mask(ops, n + chosen.shield.k as nat);
            Exec {
                session: Some(Session { mask: drawn.0, data_n: n }),
                rng: drawn.1,
                ..chosen
            }
        }
    }

    /// After the forward pass has been closed.
    pub open spec fn ended(self) -> Exec<T, E> {
        Exec { session: None, ..self }
    }

    /// The open forward pass was opened for another shape.
    pub open spec fn session_misfits(self, n: nat) -> bool {
        self.per_forward_mask && (self.session matches Some(s) && (s.data_n != n || s.mask.n()
            != mask::operand_rows(self.mask_kind, n + self.shield.k as nat)))
    }

    /// Why `n` rows of width `d` cannot be offloaded to `count` weights.
    pub open spec fn offload_error(self, n: nat, d: nat, count: nat) -> Option<OffloadError> {
        let s = n + self.shield.k;
        if self.rows_error(s) is Some {
            self.rows_error(s)
        } else if self.shield.k * d > usize::MAX {
            Some(OffloadError::TooLarge)
        } else if self.capture matches Some(c) && !c.has_room(count) {
            Some(OffloadError::TooLarge)
        } else if self.session_misfits(n) {
            Some(
                OffloadError::SessionShape {
                    n: n as usize,
                    stacked: mask::operand_rows(self.mask_kind, s as nat) as usize,
                    session_n: self.session.unwrap().data_n as usize,
                    session_stacked: self.session.unwrap().mask.n() as usize,
                },
            )
        } else {
            None
        }
    }

    /// The mask of an offload of `n` rows: that of the open forward pass, else a fresh one.
    pub open spec fn mask_for(self, ops: Ops<T>, n: nat) -> (mask::Family<T>, rng::RngState) {
        match self.session {
            Some(s) => if self.per_forward_mask {
                (s.mask, self.rng)
            } else {
                self.fresh_mask(ops, n + self.shield.k as nat)
            },
            None => self.fresh_mask(ops, n + self.shield.k as nat),
        }
    }

    /// The data over its shield rows, with the stream `s` before and the result after the
    /// rows are drawn.
    pub open spec fn shielded(self, ops: Ops<T>, hidden: Seq<Seq<T>>, d: nat, s: rng::RngState) -> (
        Seq<Seq<T>>,
        rng::RngState,
    ) {
        let k = self.shield.k as nat;
        if self.per_forward_mask && k > 0 {
            let sigma = shield::deviation(ops, self.shield.energy_scale, hidden, d);
            (
                hidden + gaussian::normal_rows(ops, s, k, d, sigma),
                gaussian::after_normal_rows(ops, s, k, d),
            )
        } else {
            (
                shield::stacked(ops, hidden, d, self.shield, s),
                shield::after_stacked(ops, hidden, d, self.shield, s),
            )
        }
    }

    /// The operand before masking: data, shield rows, and rows of zeros up to the mask's
    /// side.
    pub open spec fn operand(
        self,
        ops: Ops<T>,
        hidden: Seq<Seq<T>>,
        d: nat,
        side: nat,
        s: rng::RngState,
    ) -> Seq<Seq<T>> {
        let sh = self.shielded(ops, hidden, d, s).0;
        sh + matrix::filled(ops.zero(), (side - sh.len()) as nat, d)
    }

    /// The mask of an offload, the masked operand, and the stream afterwards.
    pub open spec fn prepared(self, ops: Ops<T>, hidden: Seq<Seq<T>>, d: nat) -> (
        mask::Family<T>,
        Seq<Seq<T>>,
        rng::RngState,
    ) {
        let m = self.mask_for(ops, hidden.len());
        (
            m.0,
            m.0.masked(ops, self.operand(ops, hidden, d, m.0.n(), m.1), d),
            self.shielded(ops, hidden, d, m.1).1,
        )
    }

    /// An offload draws a mask of its own.
    pub open spec fn draws_mask(self) -> bool {
        !self.per_forward_mask || self.session is None
    }

    /// What is timed of preparing an offload of `n` rows: drawing a mask, where one is drawn,
    /// stacking the shield, and masking.
    pub open spec fn preparing_names(self, ops: Ops<T>, n: nat) -> Seq<Seq<char>> {
        (if self.draws_mask() {
            seq!["gelo:mask_sample"@]
        } else {
            seq![]
        }) + seq!["gelo:shield_stack"@, mask::apply_category(self.mask_for(ops, n).0.kind())]
    }

    /// What is timed of judging one answer: its probes, where there are any and the weight is
    /// held.
    pub open spec fn judging_names(self, handle: WeightHandle) -> Seq<Seq<char>> {
        if self.verify_probes > 0 && self.weights.contains_key(handle) {
            seq!["uverify:linear"@]
        } else {
            seq![]
        }
    }

    /// What is timed of judging the answers from number `i` on, up to the first error.
    pub open spec fn judging_names_from(
        self,
        ops: Ops<T>,
        handles: Seq<WeightHandle>,
        masked: Seq<Seq<T>>,
        d: nat,
        outs: Seq<Matrix<T>>,
        i: nat,
        s: rng::RngState,
    ) -> Seq<Seq<char>>
        decreases handles.len() - i,
    {
        if i >= handles.len() {
            seq![]
        } else {
            let one = self.judged(ops, handles[i as int], masked, d, outs[i as int], s);
            let names = self.judging_names(handles[i as int]);
            if one.0 is Some {
                names
            } else {
                names + self.judging_names_from(ops, handles, masked, d, outs, i + 1, one.1)
            }
        }
    }

    /// What is timed of opening `count` answers to an operand that was masked by `m`: removing
    /// the mask from each, and taking the data rows out.
    pub open spec fn opening_names(m: mask::Family<T>, count: nat) -> Seq<Seq<char>> {
        Seq::new(count, |i: int| mask::unapply_category(m.kind())).push("gelo:strip_shield"@)
    }

    /// What is timed of an offload to one weight, given the engine's answer.
    pub open spec fn linear_names(
        self,
        ops: Ops<T>,
        handle: WeightHandle,
        hidden: Matrix<T>,
        answer: Result<Matrix<T>, OffloadError>,
    ) -> Seq<Seq<char>> {
        let d = hidden.width();
        let (m, masked, s) = self.prepared(ops, hidden@, d);
        self.preparing_names(ops, hidden@.len()) + seq!["engine:matmul"@] + (match answer {
            Err(_) => seq![],
            Ok(out) => self.judging_names(handle) + (if self.judged(
                ops,
                handle,
                masked,
                d,
                out,
                s,
            ).0 is None {
                Self::opening_names(m, 1)
            } else {
                seq![]
            }),
        })
    }

    /// What is timed of an offload to several weights, given the engine's answer.
    pub open spec fn many_names(
        self,
        ops: Ops<T>,
        handles: Seq<WeightHandle>,
        hidden: Matrix<T>,
        answer: Result<Vec<Matrix<T>>, OffloadError>,
    ) -> Seq<Seq<char>> {
        let d = hidden.width();
        let (m, masked, s) = self.prepared(ops, hidden@, d);
        self.preparing_names(ops, hidden@.len()) + seq!["engine:matmul_many"@] + (match answer {
            Err(_) => seq![],
            Ok(outs) => if outs@.len() != handles.len() {
                seq![]
            } else {
                self.judging_names_from(ops, handles, masked, d, outs@, 0, s) + (
                if self.judged_from(ops, handles, masked, d, outs@, 0, s).0 is None {
                    Self::opening_names(m, handles.len())
                } else {
                    seq![]
                })
            },
        })
    }

    /// Judgement on one answer: its error, if any, and the stream afterwards.
    pub open spec fn judged(
        self,
        ops: Ops<T>,
        handle: WeightHandle,
        masked: Seq<Seq<T>>,
        d: nat,
        out: Matrix<T>,
        s: rng::RngState,
    ) -> (Option<OffloadError>, rng::RngState) {
        if self.verify_probes > 0 && !self.weights.contains_key(handle) {
            (Some(OffloadError::WeightNotCached(handle)), s)
        } else if out@.len() != masked.len() {
            (Some(OffloadError::AnswerShape), s)
        } else if self.verify_probes > 0 {
            let w = self.weights[handle];
            if w@.len() != d || w.width() != out.width() || w@.len() + w.width() > usize::MAX {
                (Some(OffloadError::AnswerShape), s)
            } else {
                let found = integrity::outcome(
                    ops,
                    self.verify_probes as nat,
                    masked,
                    w@,
                    out@,
                    w.width(),
                    0,
                    s,
                );
                match found.0 {
                    None => (None, found.1),
                    Some((probe, row)) => (
                        Some(OffloadError::Tampered { probe: probe as usize, row: row as usize }),
                        found.1,
                    ),
                }
            }
        } else {
            (None, s)
        }
    }

    /// Judgement on the answers from number `i` on, up to the first error.
    pub open spec fn judged_from(
        self,
        ops: Ops<T>,
        handles: Seq<WeightHandle>,
        masked: Seq<Seq<T>>,
        d: nat,
        outs: Seq<Matrix<T>>,
        i: nat,
        s: rng::RngState,
    ) -> (Option<OffloadError>, rng::RngState)
        decreases handles.len() - i,
    {
        if i >= handles.len() {
            (None, s)
        } else {
            let one = self.judged(ops, handles[i as int], masked, d, outs[i as int], s);
            if one.0 is Some {
                one
            } else {
                self.judged_from(ops, handles, masked, d, outs, i + 1, one.1)
            }
        }
    }

    /// With an offload recorded, where offloads are recorded.
    pub open spec fn recorded(
        self,
        handle: WeightHandle,
        masked: snapshot::Kept<T>,
        out: Matrix<T>,
    ) -> Exec<T, E> {
        Exec {
            capture: match self.capture {
                Some(c) => Some(c.recorded(handle, masked, Some(snapshot::kept(out)))),
                None => None,
            },
            ..self
        }
    }

    /// With the first `count` offloads recorded.
    pub open spec fn recorded_first(
        self,
        handles: Seq<WeightHandle>,
        masked: snapshot::Kept<T>,
        outs: Seq<Matrix<T>>,
        count: nat,
    ) -> Exec<T, E>
        decreases count,
    {
        if count == 0 {
            self
        } else {
            self.recorded_first(handles, masked, outs, (count - 1) as nat).recorded(
                handles[count - 1],
                masked,
                outs[count - 1],
            )
        }
    }

    /// How an offload to one weight ends, given the engine's answer.
    pub open spec fn linear_end(
        self,
        ops: Ops<T>,
        handle: WeightHandle,
        hidden: Matrix<T>,
        answer: Result<Matrix<T>, OffloadError>,
        after: Exec<T, E>,
        r: Result<Matrix<T>, OffloadError>,
    ) -> bool {
        let d = hidden.width();
        let (m, masked, s) = self.prepared(ops, hidden@, d);
        match answer {
            Err(e) => {
                &&& r == Err::<Matrix<T>, OffloadError>(e)
                &&& after == Exec { rng: s, timings: after.timings, ..self }
            },
            Ok(out) => {
                let verdict = self.judged(ops, handle, masked, d, out, s);
                let sent = snapshot::Kept { rows: masked, width: d };
                &&& after == (Exec {
                    rng: verdict.1,
                    timings: after.timings,
                    ..self.recorded(handle, sent, out)
                })
                &&& match verdict.0 {
                    Some(e) => r == Err::<Matrix<T>, OffloadError>(e),
                    None => r matches Ok(res) && {
                        &&& res@ == opened(ops, m, out, hidden@.len())
                        &&& res.width() == out.width()
                    },
                }
            },
        }
    }

    /// The outcome of an offload to one weight: refused before anything was drawn, or what
    /// the engine's answer to the masked operand comes to.
    pub open spec fn linear_run(
        self,
        handle: WeightHandle,
        hidden: Matrix<T>,
        after: Exec<T, E>,
        r: Result<Matrix<T>, OffloadError>,
    ) -> bool where T: Scalar, E: GpuOffloadEngine<T> {
        match self.offload_error(hidden@.len(), hidden.width(), 1) {
            Some(e) => r == Err::<Matrix<T>, OffloadError>(e) && after == self,
            None => exists|x: &Matrix<T>, answer: Result<Matrix<T>, OffloadError>|
                {
                    &&& #[trigger] substrate::answers(&self.engine, handle, x, answer)
                    &&& x@ == self.prepared(T::ops(), hidden@, hidden.width()).1
                    &&& x.width() == hidden.width()
                    &&& self.linear_end(T::ops(), handle, hidden, answer, after, r)
                    &&& profile::timed(
                        self.timings,
                        self.linear_names(T::ops(), handle, hidden, answer),
                        after.timings,
                    )
                },
        }
    }

    /// The outcome of an offload to several weights: nothing for no weights, refused before
    /// anything was drawn, or what the engine's answers to one masked operand come to.
    pub open spec fn many_run(
        self,
        handles: Seq<WeightHandle>,
        hidden: Matrix<T>,
        after: Exec<T, E>,
        r: Result<Vec<Matrix<T>>, OffloadError>,
    ) -> bool where T: Scalar, E: GpuOffloadEngine<T> {
        if handles.len() == 0 {
            r matches Ok(outs) && outs@.len() == 0 && after == self
        } else {
            match self.offload_error(hidden@.len(), hidden.width(), handles.len()) {
                Some(e) => r == Err::<Vec<Matrix<T>>, OffloadError>(e) && after == self,
                None => exists|
                    asked: &Vec<WeightHandle>,
                    x: &Matrix<T>,
                    answer: Result<Vec<Matrix<T>>, OffloadError>,
                |
                    {
                        &&& #[trigger] substrate::answers_many(&self.engine, asked, x, answer)
                        &&& asked@ == handles
                        &&& x@ == self.prepared(T::ops(), hidden@, hidden.width()).1
                        &&& x.width() == hidden.width()
                        &&& self.many_end(T::ops(), handles, hidden, answer, after, r)
                        &&& profile::timed(
                            self.timings,
                            self.many_names(T::ops(), handles, hidden, answer),
                            after.timings,
                        )
                    },
            }
        }
    }

    /// The outcome of the query, key and value projections of a layer, from one masked operand.
    pub open spec fn qkv_run(
        self,
        layer: u16,
        hidden: Matrix<T>,
        after: Exec<T, E>,
        r: Result<(Matrix<T>, Matrix<T>, Matrix<T>), OffloadError>,
    ) -> bool where T: Scalar, E: GpuOffloadEngine<T> {
        exists|outs: Result<Vec<Matrix<T>>, OffloadError>|
            {
                &&& #[trigger] self.many_run(qkv_handles(layer), hidden, after, outs)
                &&& match outs {
                    Ok(v) => r matches Ok(t) && v@ == seq![t.0, t.1, t.2],
                    Err(e) => r == Err::<(Matrix<T>, Matrix<T>, Matrix<T>), OffloadError>(e),
                }
            }
    }

    /// How an offload to several weights ends, given the engine's answer.
    pub open spec fn many_end(
        self,
        ops: Ops<T>,
        handles: Seq<WeightHandle>,
        hidden: Matrix<T>,
        answer: Result<Vec<Matrix<T>>, OffloadError>,
        after: Exec<T, E>,
        r: Result<Vec<Matrix<T>>, OffloadError>,
    ) -> bool {
        let d = hidden.width();
        let (m, masked, s) = self.prepared(ops, hidden@, d);
        match answer {
            Err(e) => {
                &&& r == Err::<Vec<Matrix<T>>, OffloadError>(e)
                &&& after == Exec { rng: s, timings: after.timings, ..self }
            },
            Ok(outs) => if outs@.len() != handles.len() {
                &&& r == Err::<Vec<Matrix<T>>, OffloadError>(
                    OffloadError::ResultCount {
                        got: outs@.len() as usize,
                        expected: handles.len() as usize,
                    },
                )
                &&& after == Exec { rng: s, timings: after.timings, ..self }
            } else {
                let verdict = self.judged_from(ops, handles, masked, d, outs@, 0, s);
                let sent = snapshot::Kept { rows: masked, width: d };
                &&& after == (Exec {
                    rng: verdict.1,
                    timings: after.timings,
                    ..self.recorded_first(handles, sent, outs@, handles.len())
                })
                &&& match verdict.0 {
                    Some(e) => r == Err::<Vec<Matrix<T>>, OffloadError>(e),
                    None => r matches Ok(res) && {
                        &&& res@.len() == handles.len()
                        &&& forall|i: int|
                            0 <= i < handles.len() ==> {
                                &&& (#[trigger] res@[i])@ == opened(
                                    ops,
                                    m,
                                    outs@[i],
                                    hidden@.len(),
                                )
                                &&& res@[i].width() == outs@[i].width()
                            }
                    },
                }
            },
        }
    }

    /// Once one mask serves a whole forward pass, every pass opened over more tokens than count
    /// as small runs with the shield that was given for it; a small pass runs with its own.
    pub proof fn law_reused_mask_has_its_shield(self, ops: Ops<T>, shield: ShieldConfig<T>, n: nat)
        ensures
            ({
                let opened = self.reusing(shield).begun(ops, n);
                &&& opened.per_forward_mask
                &&& n > self.shield_small_n_max || self.shield_small_n is None ==> opened.shield
                    == shield
                &&& n <= self.shield_small_n_max && self.shield_small_n is Some ==> opened.shield
                    == self.shield_small_n.unwrap()
                &&& opened.session matches Some(s) && s.data_n == n
            }),
    {
    }

    /// Recording touches nothing but the capture.
    pub proof fn lemma_recorded_keeps(
        self,
        handles: Seq<WeightHandle>,
        masked: snapshot::Kept<T>,
        outs: Seq<Matrix<T>>,
        count: nat,
    )
        ensures
            self.recorded_first(handles, masked, outs, count) == (Exec {
                capture: self.recorded_first(handles, masked, outs, count).capture,
                ..self
            }),
        decreases count,
    {
        if count > 0 {
            self.lemma_recorded_keeps(handles, masked, outs, (count - 1) as nat);
        }
    }

    /// What is recorded does not depend on the stream.
    pub proof fn lemma_recorded_same(
        self,
        other: Exec<T, E>,
        handles: Seq<WeightHandle>,
        masked: snapshot::Kept<T>,
        outs: Seq<Matrix<T>>,
        count: nat,
    )
        requires
            self.capture == other.capture,
        ensures
            self.recorded_first(handles, masked, outs, count).capture == other.recorded_first(
                handles,
                masked,
                outs,
                count,
            ).capture,
        decreases count,
    {
        if count > 0 {
            self.lemma_recorded_same(other, handles, masked, outs, (count - 1) as nat);
        }
    }

    /// Judgement depends on the probes and the weights held alone.
    pub proof fn lemma_judged_ignores_stream(
        self,
        other: Exec<T, E>,
        ops: Ops<T>,
        handles: Seq<WeightHandle>,
        masked: Seq<Seq<T>>,
        d: nat,
        outs: Seq<Matrix<T>>,
        i: nat,
        s: rng::RngState,
    )
        requires
            self.verify_probes == other.verify_probes,
            self.weights == other.weights,
        ensures
            self.judged_from(ops, handles, masked, d, outs, i, s) == other.judged_from(
                ops,
                handles,
                masked,
                d,
                outs,
                i,
                s,
            ),
            self.judging_names_from(ops, handles, masked, d, outs, i, s)
                == other.judging_names_from(ops, handles, masked, d, outs, i, s),
        decreases handles.len() - i,
    {
        if i < handles.len() {
            let one = self.judged(ops, handles[i as int], masked, d, outs[i as int], s);
            self.lemma_judged_ignores_stream(
                other,
                ops,
                handles,
                masked,
                d,
                outs,
                i + 1,
                one.1,
            );
        }
    }
}

} // verus!
