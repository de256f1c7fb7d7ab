//! What can go wrong between the two sides.

use vstd::prelude::*;
use vstd::string::*;

use crate::ple::PleError;
use crate::substrate::{WeightHandle, WeightKind};
use crate::text;

verus! {

/// Why an offload failed.
#[derive(Debug, PartialEq, Eq)]
#[allow(inconsistent_fields)]
pub enum OffloadError {
    /// The engine does not know the weight.
    WeightNotRegistered(WeightHandle),
    /// Columns of the input against rows of the weight.
    MatmulShape { input_cols: usize, weight_rows: usize },
    /// Columns of the left operand against rows of the right one.
    MatmulDynamicShape { lhs_cols: usize, rhs_rows: usize },
    /// Shapes of two stacks that cannot be multiplied.
    MatmulBatchedShape { lhs: (usize, usize, usize), rhs: (usize, usize, usize) },
    /// Queries and transposed keys that do not fit.
    OutAttnShape { q: (usize, usize), kt: (usize, usize) },
    OutAttnBatchedShape { q: (usize, usize, usize), kt: (usize, usize, usize) },
    /// Keys of another shape than the queries.
    AttentionKeyShape { k: (usize, usize, usize), q: (usize, usize, usize) },
    /// Values of another shape than the queries.
    AttentionValueShape { v: (usize, usize, usize), q: (usize, usize, usize) },
    CachedKeyShape { k: (usize, usize, usize), expected: (usize, usize, usize) },
    CachedValueShape { v: (usize, usize, usize), expected: (usize, usize, usize) },
    /// More queries than cached positions.
    TooManyQueries { n_q: usize, n_kv: usize },
    /// Queries that reach past the cached positions.
    QueriesPastCache { q_pos_offset: usize, n_q: usize, n_kv: usize },
    /// More rows or entries than can be handled.
    TooLarge,
    /// Nothing to mask.
    EmptyOperand,
    /// The forward pass was opened for another number of tokens.
    SessionShape { n: usize, stacked: usize, session_n: usize, session_stacked: usize },
    /// The engine answered with another number of matrices than it was asked for.
    ResultCount { got: usize, expected: usize },
    /// The engine answered with a matrix of the wrong shape.
    AnswerShape,
    /// Answers are to be probed, but the weight is not held on the trusted side.
    WeightNotCached(WeightHandle),
    /// An answer failed a probe.
    Tampered { probe: usize, row: usize },
    NoPleTable,
    PleProvisionNotImplemented,
    PleGatherNotProvisioned,
    Ple(PleError),
    /// The executor does not offer this operation.
    NotImplemented,
    /// The engine's own words.
    Engine(String),
}

/// A weight's kind by name.
pub open spec fn kind_name(kind: WeightKind) -> Seq<char> {
    match kind {
        WeightKind::Q => "Q"@,
        WeightKind::K => "K"@,
        WeightKind::V => "V"@,
        WeightKind::O => "O"@,
        WeightKind::FfnGate => "FfnGate"@,
        WeightKind::FfnUp => "FfnUp"@,
        WeightKind::FfnDown => "FfnDown"@,
    }
}

/// A weight by layer and kind.
pub open spec fn handle_name(h: WeightHandle) -> Seq<char> {
    "WeightHandle { layer: "@ + text::decimal(h.layer as nat) + ", kind: "@ + kind_name(h.kind)
        + " }"@
}

fn push_handle(out: &mut String, h: WeightHandle)
    ensures
        final(out)@ == old(out)@ + handle_name(h),
{
    let ghost before = out@;
    out.append("WeightHandle { layer: ");
    text::push_decimal(out, h.layer as usize);
    out.append(", kind: ");
    out.append(
        match h.kind {
            WeightKind::Q => "Q",
            WeightKind::K => "K",
            WeightKind::V => "V",
            WeightKind::O => "O",
            WeightKind::FfnGate => "FfnGate",
            WeightKind::FfnUp => "FfnUp",
            WeightKind::FfnDown => "FfnDown",
        },
    );
    out.append(" }");
    assert(out@ =~= before + handle_name(h));
}

impl OffloadError {
    /// The error in words.
    pub open spec fn text(self) -> Seq<char> {
        match self {
            OffloadError::WeightNotRegistered(h) => "weight "@ + handle_name(h)
                + " not registered with engine"@,
            OffloadError::MatmulShape { input_cols, weight_rows } =>
                "matmul shape mismatch: input cols "@ + text::decimal(input_cols as nat)
                + " != weight rows "@ + text::decimal(weight_rows as nat),
            OffloadError::MatmulDynamicShape { lhs_cols, rhs_rows } =>
                "matmul_dynamic shape mismatch: lhs cols "@ + text::decimal(lhs_cols as nat)
                + " != rhs rows "@ + text::decimal(rhs_rows as nat),
            OffloadError::MatmulBatchedShape { lhs, rhs } =>
                "matmul_dynamic_batched shape mismatch: lhs "@ + text::tight_triple(lhs) + " vs rhs "@
                + text::list(rhs),
            OffloadError::OutAttnShape { q, kt } => "OutAttnMult shape mismatch: q is "@
                + text::tight_pair(q) + " but kt is "@ + text::tight_pair(kt),
            OffloadError::OutAttnBatchedShape { q, kt } =>
                "offload_qkt_batched shape mismatch: q is "@ + text::tight_triple(q) + " but kt is "@
                + text::list(kt),
            OffloadError::AttentionKeyShape { k, q } => "permuted_attention: K shape "@
                + text::triple(k) + " must match Q "@ + text::triple(q),
            OffloadError::AttentionValueShape { v, q } => "permuted_attention: V shape "@
                + text::triple(v) + " must match Q "@ + text::triple(q),
            OffloadError::CachedKeyShape { k, expected } => "permuted_attention_cached: K shape "@
                + text::triple(k) + " expected "@ + text::triple(expected),
            OffloadError::CachedValueShape { v, expected } => "permuted_attention_cached: V shape "@
                + text::triple(v) + " expected "@ + text::triple(expected),
            OffloadError::TooManyQueries { n_q, n_kv } => "permuted_attention_cached: n_q ("@
                + text::decimal(n_q as nat) + ") cannot exceed n_kv ("@ + text::decimal(
                n_kv as nat,
            ) + ")"@,
            OffloadError::QueriesPastCache { q_pos_offset, n_q, n_kv } =>
                "permuted_attention_cached: q_pos_offset ("@ + text::decimal(q_pos_offset as nat)
                + ") + n_q ("@ + text::decimal(n_q as nat) + ") must be ≤ n_kv ("@
                + text::decimal(n_kv as nat) + ")"@,
            OffloadError::TooLarge => "operand too large"@,
            OffloadError::EmptyOperand => "operand has no rows"@,
            OffloadError::SessionShape { n, stacked, session_n, session_stacked } =>
                "per-forward-pass mask: offload n="@ + text::decimal(n as nat) + " (stacked "@
                + text::decimal(stacked as nat) + ") doesn't match session n="@ + text::decimal(
                session_n as nat,
            ) + " (stacked "@ + text::decimal(session_stacked as nat) + ")"@,
            OffloadError::ResultCount { got, expected } => "engine.matmul_many returned "@
                + text::decimal(got as nat) + " results; expected "@ + text::decimal(
                expected as nat,
            ),
            OffloadError::AnswerShape => "engine answer has the wrong shape"@,
            OffloadError::WeightNotCached(h) => "verify_probes>0 but weight "@ + handle_name(h)
                + " not cached in TEE"@,
            OffloadError::Tampered { probe, row } => "U-Verify: probe "@ + text::decimal(
                probe as nat,
            ) + " failed at row "@ + text::decimal(row as nat),
            OffloadError::NoPleTable => "ple_gather: no PLE table provisioned"@,
            OffloadError::PleProvisionNotImplemented =>
                "provision_ple_table not implemented for this executor"@,
            OffloadError::PleGatherNotProvisioned =>
                "ple_gather called without a provisioned PLE table"@,
            OffloadError::Ple(e) => e.text(),
            OffloadError::NotImplemented => "operation not implemented for this executor"@,
            OffloadError::Engine(s) => s@,
        }
    }

    /// The error in words.
    pub fn message(&self) -> (r: String)
        ensures
            r@ == self.text(),
    {
        let mut out: String = String::new();
        match self {
            OffloadError::WeightNotRegistered(h) => {
                out.append("weight ");
                push_handle(&mut out, *h);
                out.append(" not registered with engine");
            },
            OffloadError::MatmulShape { input_cols, weight_rows } => {
                out.append("matmul shape mismatch: input cols ");
                text::push_decimal(&mut out, *input_cols);
                out.append(" != weight rows ");
                text::push_decimal(&mut out, *weight_rows);
            },
            OffloadError::MatmulDynamicShape { lhs_cols, rhs_rows } => {
                out.append("matmul_dynamic shape mismatch: lhs cols ");
                text::push_decimal(&mut out, *lhs_cols);
                out.append(" != rhs rows ");
                text::push_decimal(&mut out, *rhs_rows);
            },
            OffloadError::MatmulBatchedShape { lhs, rhs } => {
                out.append("matmul_dynamic_batched shape mismatch: lhs ");
                text::push_tight_triple(&mut out, *lhs);
                out.append(" vs rhs ");
                text::push_list(&mut out, *rhs);
            },
            OffloadError::OutAttnShape { q, kt } => {
                out.append("OutAttnMult shape mismatch: q is ");
                text::push_tight_pair(&mut out, *q);
                out.append(" but kt is ");
                text::push_tight_pair(&mut out, *kt);
            },
            OffloadError::OutAttnBatchedShape { q, kt } => {
                out.append("offload_qkt_batched shape mismatch: q is ");
                text::push_tight_triple(&mut out, *q);
                out.append(" but kt is ");
                text::push_list(&mut out, *kt);
            },
            OffloadError::AttentionKeyShape { k, q } => {
                out.append("permuted_attention: K shape ");
                text::push_triple(&mut out, *k);
                out.append(" must match Q ");
                text::push_triple(&mut out, *q);
            },
            OffloadError::AttentionValueShape { v, q } => {
                out.append("permuted_attention: V shape ");
                text::push_triple(&mut out, *v);
                out.append(" must match Q ");
                text::push_triple(&mut out, *q);
            },
            OffloadError::CachedKeyShape { k, expected } => {
                out.append("permuted_attention_cached: K shape ");
                text::push_triple(&mut out, *k);
                out.append(" expected ");
                text::push_triple(&mut out, *expected);
            },
            OffloadError::CachedValueShape { v, expected } => {
                out.append("permuted_attention_cached: V shape ");
                text::push_triple(&mut out, *v);
                out.append(" expected ");
                text::push_triple(&mut out, *expected);
            },
            OffloadError::TooManyQueries { n_q, n_kv } => {
                out.append("permuted_attention_cached: n_q (");
                text::push_decimal(&mut out, *n_q);
                out.append(") cannot exceed n_kv (");
                text::push_decimal(&mut out, *n_kv);
                out.append(")");
            },
            OffloadError::QueriesPastCache { q_pos_offset, n_q, n_kv } => {
                out.append("permuted_attention_cached: q_pos_offset (");
                text::push_decimal(&mut out, *q_pos_offset);
                out.append(") + n_q (");
                text::push_decimal(&mut out, *n_q);
                out.append(") must be ≤ n_kv (");
                text::push_decimal(&mut out, *n_kv);
                out.append(")");
            },
            OffloadError::TooLarge => {
                out.append("operand too large");
            },
            OffloadError::EmptyOperand => {
                out.append("operand has no rows");
            },
            OffloadError::SessionShape { n, stacked, session_n, session_stacked } => {
                out.append("per-forward-pass mask: offload n=");
                text::push_decimal(&mut out, *n);
                out.append(" (stacked ");
                text::push_decimal(&mut out, *stacked);
                out.append(") doesn't match session n=");
                text::push_decimal(&mut out, *session_n);
                out.append(" (stacked ");
                text::push_decimal(&mut out, *session_stacked);
                out.append(")");
            },
            OffloadError::ResultCount { got, expected } => {
                out.append("engine.matmul_many returned ");
                text::push_decimal(&mut out, *got);
                out.append(" results; expected ");
                text::push_decimal(&mut out, *expected);
            },
            OffloadError::AnswerShape => {
                out.append("engine answer has the wrong shape");
            },
            OffloadError::WeightNotCached(h) => {
                out.append("verify_probes>0 but weight ");
                push_handle(&mut out, *h);
                out.append(" not cached in TEE");
            },
            OffloadError::Tampered { probe, row } => {
                out.append("U-Verify: probe ");
                text::push_decimal(&mut out, *probe);
                out.append(" failed at row ");
                text::push_decimal(&mut out, *row);
            },
            OffloadError::NoPleTable => {
                out.append("ple_gather: no PLE table provisioned");
            },
            OffloadError::PleProvisionNotImplemented => {
                out.append("provision_ple_table not implemented for this executor");
            },
            OffloadError::PleGatherNotProvisioned => {
                out.append("ple_gather called without a provisioned PLE table");
            },
            OffloadError::Ple(e) => {
                out.append(e.message().as_str());
            },
            OffloadError::NotImplemented => {
                out.append("operation not implemented for this executor");
            },
            OffloadError::Engine(s) => {
                out.append(s.as_str());
            },
        }
        assert(out@ =~= self.text());
        out
    }
}

} // verus!
