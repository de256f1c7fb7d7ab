//! What crosses to the engine and what is kept of it: the masked operand, the blinded scores,
//! the shuffled rows, and the snapshots of them.

use vstd::prelude::*;

use crate::attention;
use crate::attention::{AttentionMask, PermAttnConfig};
use crate::error::OffloadError;
use crate::exact;
use crate::executor;
use crate::executor::Exec;
use crate::mask;
use crate::mask::MaskKind;
use crate::matrix::{Matrix, Tensor3};
use crate::out_attn_mult;
use crate::pow2;
use crate::profile;
use crate::recovery;
use crate::rng;
use crate::scalar::{Ops, Scalar};
use crate::shield::ShieldConfig;
use crate::sim;
use crate::snapshot;
use crate::soundness;
use crate::substrate;
use crate::substrate::{GpuOffloadEngine, WeightHandle, WeightKind};

verus! {

/// An offload to one weight shows the engine the masked operand and nothing else, and fails where
/// the engine does.
pub proof fn law_engine_sees_the_masked_operand<T: Scalar, E: GpuOffloadEngine<T>>(
    e: Exec<T, E>,
    handle: WeightHandle,
    hidden: Matrix<T>,
    after: Exec<T, E>,
    r: Result<Matrix<T>, OffloadError>,
)
    requires
        e.offload_error(hidden@.len(), hidden.width(), 1) is None,
        e.linear_run(handle, hidden, after, r),
    ensures
        exists|x: &Matrix<T>, answer: Result<Matrix<T>, OffloadError>|
            {
                &&& #[trigger] call_ensures(E::matmul, (&e.engine, handle, x), answer)
                &&& x@ == e.prepared(T::ops(), hidden@, hidden.width()).1
                &&& x.width() == hidden.width()
                &&& answer matches Err(err) ==> r == Err::<Matrix<T>, OffloadError>(err)
            },
{
    let (x, answer) = choose|x: &Matrix<T>, answer: Result<Matrix<T>, OffloadError>|
        {
            &&& #[trigger] substrate::answers(&e.engine, handle, x, answer)
            &&& x@ == e.prepared(T::ops(), hidden@, hidden.width()).1
            &&& x.width() == hidden.width()
            &&& e.linear_end(T::ops(), handle, hidden, answer, after, r)
        };
    assert(call_ensures(E::matmul, (&e.engine, handle, x), answer));
}

/// An offload to several weights shows the engine one masked operand for all of them, and fails
/// where the engine does.
pub proof fn law_engine_sees_one_masked_operand<T: Scalar, E: GpuOffloadEngine<T>>(
    e: Exec<T, E>,
    handles: Seq<WeightHandle>,
    hidden: Matrix<T>,
    after: Exec<T, E>,
    r: Result<Vec<Matrix<T>>, OffloadError>,
)
    requires
        handles.len() > 0,
        e.offload_error(hidden@.len(), hidden.width(), handles.len()) is None,
        e.many_run(handles, hidden, after, r),
    ensures
        exists|
            asked: &Vec<WeightHandle>,
            x: &Matrix<T>,
            answer: Result<Vec<Matrix<T>>, OffloadError>,
        |
            {
                &&& #[trigger] call_ensures(E::matmul_many, (&e.engine, asked, x), answer)
                &&& asked@ == handles
                &&& x@ == e.prepared(T::ops(), hidden@, hidden.width()).1
                &&& x.width() == hidden.width()
                &&& answer matches Err(err) ==> r == Err::<Vec<Matrix<T>>, OffloadError>(err)
            },
{
    let (asked, x, answer) = choose|
        asked: &Vec<WeightHandle>,
        x: &Matrix<T>,
        answer: Result<Vec<Matrix<T>>, OffloadError>,
    |
        {
            &&& #[trigger] substrate::answers_many(&e.engine, asked, x, answer)
            &&& asked@ == handles
            &&& x@ == e.prepared(T::ops(), hidden@, hidden.width()).1
            &&& x.width() == hidden.width()
            &&& e.many_end(T::ops(), handles, hidden, answer, after, r)
        };
    assert(call_ensures(E::matmul_many, (&e.engine, asked, x), answer));
}

/// All offloads of an open forward pass use its mask: an offload leaves the pass open, and the
/// next one has the same mask.
pub proof fn law_pass_reuses_its_mask<T, E>(
    ops: Ops<T>,
    e: Exec<T, E>,
    handle: WeightHandle,
    hidden: Matrix<T>,
    answer: Result<Matrix<T>, OffloadError>,
    after: Exec<T, E>,
    r: Result<Matrix<T>, OffloadError>,
    next: Seq<Seq<T>>,
)
    requires
        e.per_forward_mask,
        e.session is Some,
        e.linear_end(ops, handle, hidden, answer, after, r),
    ensures
        after.session == e.session,
        after.prepared(ops, next, hidden.width()).0 == e.prepared(
            ops,
            hidden@,
            hidden.width(),
        ).0,
        after.shield == e.shield,
        after.weights == e.weights,
        after.verify_probes == e.verify_probes,
{
}

/// Opening a forward pass draws its mask from the stream, at the side that its rows and shield
/// rows need, and every offload of the pass uses that mask.
pub proof fn law_pass_draws_its_mask<T, E>(ops: Ops<T>, e: Exec<T, E>, n: nat)
    requires
        e.per_forward_mask,
    ensures
        ({
            let open = e.begun(ops, n);
            let kind = mask::resolved(e.mask_kind, n + open.shield.k as nat);
            let side = mask::operand_rows(e.mask_kind, n + open.shield.k as nat);
            let drawn = mask::sampled_family(ops, kind, e.rng, side);
            &&& open.session matches Some(s) && s.mask == drawn && s.data_n == n
            &&& open.mask_for(ops, n).0 == drawn
            &&& open.mask_for(ops, n).1 == open.rng
            &&& open.rng == mask::after_family(ops, kind, e.rng, side)
            &&& open.ended().session is None
        }),
{
}

/// Without a mask for the whole pass, every offload draws one of its own, from where the stream
/// stands.
pub proof fn law_offload_draws_its_mask<T, E>(ops: Ops<T>, e: Exec<T, E>, hidden: Seq<Seq<T>>, d: nat)
    requires
        !e.per_forward_mask || e.session is None,
    ensures
        ({
            let rows = hidden.len() + e.shield.k as nat;
            let kind = mask::resolved(e.mask_kind, rows);
            let side = mask::operand_rows(e.mask_kind, rows);
            e.prepared(ops, hidden, d).0 == mask::sampled_family(ops, kind, e.rng, side)
        }),
{
}

/// A mask of each family has that family's kind and the side that was asked for.
pub proof fn law_sampled_family_is_of_its_kind<T>(
    ops: Ops<T>,
    kind: MaskKind,
    s: rng::RngState,
    n: nat,
)
    requires
        kind != MaskKind::Auto,
    ensures
        mask::sampled_family(ops, kind, s, n).kind() == kind,
        kind != MaskKind::Haar ==> mask::sampled_family(ops, kind, s, n).n() == n,
{
}

/// An executor as it is made shields every forward pass: by eight rows, or by as many as bring a
/// single token up to sixteen rows, of four times the energy of the data.
pub proof fn law_fresh_executor_shields<E>(
    ops: Ops<real>,
    engine: E,
    s: rng::RngState,
    n: nat,
)
    requires
        exact::exact(ops),
    ensures
        ({
            let open = sim::initial(ops, engine, s).begun(ops, n);
            &&& open.session is Some
            &&& open.shield.energy_scale == 4real
            &&& n >= 2 ==> open.shield.k == 8
            &&& n == 1 ==> n + open.shield.k == 16
            &&& n <= 1 ==> open.shield.k == 15
            &&& open.mask_kind == MaskKind::Haar
            &&& recovery::session_sound(ops, sim::initial(ops, engine, s))
        }),
        ({
            let open = sim::initial(ops, engine, s).begun(ops, n).ended();
            open.session is None && open.per_forward_mask
        }),
{
}

/// What is recorded of an offload is what crossed: the operand that the engine was shown and, where
/// answers are kept, its answer. Nothing that was recorded before changes.
pub proof fn law_recording_keeps_what_crossed<T, E>(
    ops: Ops<T>,
    e: Exec<T, E>,
    handle: WeightHandle,
    hidden: Matrix<T>,
    out: Matrix<T>,
    after: Exec<T, E>,
    r: Result<Matrix<T>, OffloadError>,
)
    requires
        e.linear_end(ops, handle, hidden, Ok(out), after, r),
        e.capture is Some,
        !e.capture.unwrap().full(),
    ensures
        ({
            let before = e.capture.unwrap();
            let kept = after.capture.unwrap();
            let new = kept.taken[before.taken.len() as int];
            &&& after.capture is Some
            &&& kept.taken.len() == before.taken.len() + 1
            &&& forall|i: int|
                0 <= i < before.taken.len() ==> #[trigger] kept.taken[i] == before.taken[i]
            &&& new.handle == handle
            &&& new.operand.rows == e.prepared(ops, hidden@, hidden.width()).1
            &&& new.operand.width == hidden.width()
            &&& before.cfg.capture_outputs ==> (new.output matches Some(o) && o.rows == out@
                && o.width == out.width())
            &&& !before.cfg.capture_outputs ==> new.output is None
        }),
{
}

proof fn lemma_recorded_first<T, E>(
    e: Exec<T, E>,
    handles: Seq<WeightHandle>,
    masked: snapshot::Kept<T>,
    outs: Seq<Matrix<T>>,
    count: nat,
)
    requires
        e.capture is Some,
        e.capture.unwrap().cfg.max_snapshots matches Some(cap) ==> e.capture.unwrap().taken.len()
            + count <= cap,
    ensures
        ({
            let before = e.capture.unwrap();
            let kept = e.recorded_first(handles, masked, outs, count).capture.unwrap();
            &&& e.recorded_first(handles, masked, outs, count).capture is Some
            &&& kept.cfg == before.cfg
            &&& kept.taken.len() == before.taken.len() + count
            &&& forall|i: int|
                0 <= i < before.taken.len() ==> #[trigger] kept.taken[i] == before.taken[i]
            &&& forall|k: int|
                #![trigger handles[k]]
                0 <= k < count ==> {
                    let new = kept.taken[before.taken.len() + k];
                    &&& new.handle == handles[k]
                    &&& new.operand == masked
                    &&& new.output == if before.cfg.capture_outputs {
                        Some(snapshot::kept(outs[k]))
                    } else {
                        None
                    }
                }
        }),
    decreases count,
{
    if count > 0 {
        let c = (count - 1) as nat;
        lemma_recorded_first(e, handles, masked, outs, c);
        let before = e.capture.unwrap();
        let mid = e.recorded_first(handles, masked, outs, c).capture.unwrap();
        let kept = e.recorded_first(handles, masked, outs, count).capture.unwrap();
        assert(!mid.full());
        assert forall|k: int| #![trigger handles[k]] 0 <= k < count implies {
            let new = kept.taken[before.taken.len() + k];
            &&& new.handle == handles[k]
            &&& new.operand == masked
            &&& new.output == if before.cfg.capture_outputs {
                Some(snapshot::kept(outs[k]))
            } else {
                None
            }
        } by {
            if k < c {
                assert(kept.taken[before.taken.len() + k] == mid.taken[before.taken.len() + k]);
            }
        }
        assert forall|i: int| 0 <= i < before.taken.len() implies #[trigger] kept.taken[i]
            == before.taken[i] by {
            assert(mid.taken[i] == before.taken[i]);
        }
    }
}

/// The same of an offload to several weights: one snapshot for each of them, in order, all with
/// the operand that the engine was shown, each with its own weight and answer.
pub proof fn law_recording_keeps_all_that_crossed<T, E>(
    ops: Ops<T>,
    e: Exec<T, E>,
    handles: Seq<WeightHandle>,
    hidden: Matrix<T>,
    outs: Vec<Matrix<T>>,
    after: Exec<T, E>,
    r: Result<Vec<Matrix<T>>, OffloadError>,
    k: int,
)
    requires
        e.many_end(ops, handles, hidden, Ok(outs), after, r),
        outs@.len() == handles.len(),
        e.capture is Some,
        e.capture.unwrap().cfg.max_snapshots matches Some(cap) ==> e.capture.unwrap().taken.len()
            + handles.len() <= cap,
        0 <= k < handles.len(),
    ensures
        ({
            let before = e.capture.unwrap();
            let kept = after.capture.unwrap();
            let new = kept.taken[before.taken.len() + k];
            &&& after.capture is Some
            &&& kept.taken.len() == before.taken.len() + handles.len()
            &&& new.handle == handles[k]
            &&& new.operand.rows == e.prepared(ops, hidden@, hidden.width()).1
            &&& new.operand.width == hidden.width()
            &&& before.cfg.capture_outputs ==> (new.output matches Some(o) && o.rows == outs@[k]@
                && o.width == outs@[k].width())
            &&& !before.cfg.capture_outputs ==> new.output is None
        }),
{
    let sent = snapshot::Kept {
        rows: e.prepared(ops, hidden@, hidden.width()).1,
        width: hidden.width(),
    };
    lemma_recorded_first(e, handles, sent, outs@, handles.len());
    assert(handles[k] == handles[k]);
}

/// Scores that an executor passes on have been probed: the engine's answer to the blinded
/// operands passed, in every row, every one of the probes that the executor asks for.
pub proof fn law_scores_are_probed<T: Scalar, E: GpuOffloadEngine<T>>(
    e: Exec<T, E>,
    q: Matrix<T>,
    kt: Matrix<T>,
    after: Exec<T, E>,
    r: Result<Matrix<T>, OffloadError>,
)
    requires
        sim::scores_run(e, q, kt, after, r),
        r is Ok,
    ensures
        after.rng == rng::skip(
            out_attn_mult::drawn(T::ops(), e.rng, q@.len(), q.width()).1,
            e.verify_probes as nat * (2 * q@.len()),
        ),
        exists|x: &Matrix<T>, y: &Matrix<T>, tilde: Matrix<T>|
            {
                &&& #[trigger] call_ensures(
                    E::matmul_dynamic,
                    (&e.engine, x, y),
                    Ok::<Matrix<T>, OffloadError>(tilde),
                )
                &&& forall|a: int|
                    0 <= a < e.verify_probes ==> #[trigger] soundness::all_pass(
                        T::ops(),
                        x@,
                        y@,
                        tilde@,
                        2 * q@.len(),
                        out_attn_mult::drawn(T::ops(), e.rng, q@.len(), q.width()).1,
                        a,
                    )
            },
{
    let n = q@.len();
    let (bl, mid) = out_attn_mult::drawn(T::ops(), e.rng, n, q.width());
    let (x, y, answer) = choose|
        x: &Matrix<T>,
        y: &Matrix<T>,
        answer: Result<Matrix<T>, OffloadError>,
    |
        {
            &&& #[trigger] substrate::answers_dynamic(&e.engine, x, y, answer)
            &&& out_attn_mult::concluded(
                T::ops(),
                answer,
                x@,
                y@,
                bl,
                n,
                e.verify_probes as nat,
                mid,
                r,
                after.rng,
            )
        };
    let tilde = answer->Ok_0;
    soundness::law_single_head_is_probed(
        T::ops(),
        tilde,
        x@,
        y@,
        bl,
        n,
        e.verify_probes as nat,
        mid,
        r,
        after.rng,
    );
    assert(call_ensures(
        E::matmul_dynamic,
        (&e.engine, x, y),
        Ok::<Matrix<T>, OffloadError>(tilde),
    ));
}

/// The same for the heads of a stack: the engine's answer for every head passed, in every row,
/// every one of the probes that the executor asks for.
pub proof fn law_scores_of_all_heads_are_probed<T: Scalar, E: GpuOffloadEngine<T>>(
    e: Exec<T, E>,
    q: Tensor3<T>,
    kt: Tensor3<T>,
    after: Exec<T, E>,
    r: Result<Tensor3<T>, OffloadError>,
)
    requires
        sim::heads_run(e, q, kt, after, r),
        r is Ok,
        q@.len() > 0,
    ensures
        after.rng == soundness::head_stream(
            out_attn_mult::after_heads(T::ops(), e.rng, q@.len(), q.height(), q.width()),
            e.verify_probes as nat,
            2 * q.height(),
            q@.len() as int,
        ),
        exists|x: &Tensor3<T>, y: &Tensor3<T>, tilde: Tensor3<T>|
            {
                &&& #[trigger] call_ensures(
                    E::matmul_dynamic_batched,
                    (&e.engine, x, y),
                    Ok::<Tensor3<T>, OffloadError>(tilde),
                )
                &&& x@.len() == q@.len()
                &&& forall|h: int, a: int|
                    0 <= h < q@.len() && 0 <= a < e.verify_probes
                        ==> #[trigger] soundness::head_passes(
                        T::ops(),
                        e.verify_probes as nat,
                        x@,
                        y@,
                        tilde@,
                        2 * q.height(),
                        out_attn_mult::after_heads(
                            T::ops(),
                            e.rng,
                            q@.len(),
                            q.height(),
                            q.width(),
                        ),
                        h,
                        a,
                    )
            },
{
    let n = q.height();
    let d = q.width();
    let heads = q@.len();
    let bls = out_attn_mult::blindings(T::ops(), e.rng, heads, n, d);
    let mid = out_attn_mult::after_heads(T::ops(), e.rng, heads, n, d);
    let (x, y, answer) = choose|
        x: &Tensor3<T>,
        y: &Tensor3<T>,
        answer: Result<Tensor3<T>, OffloadError>,
    |
        {
            &&& #[trigger] substrate::answers_batched(&e.engine, x, y, answer)
            &&& x@ == out_attn_mult::stacked_q_heads(T::ops(), e.rng, q@, n, d)
            &&& out_attn_mult::concluded_heads(
                T::ops(),
                answer,
                x@,
                y@,
                bls,
                n,
                e.verify_probes as nat,
                mid,
                r,
                after.rng,
            )
        };
    let tilde = answer->Ok_0;
    soundness::law_every_head_is_probed(
        T::ops(),
        tilde,
        x@,
        y@,
        bls,
        n,
        e.verify_probes as nat,
        mid,
        r,
        after.rng,
    );
    assert(call_ensures(
        E::matmul_dynamic_batched,
        (&e.engine, x, y),
        Ok::<Tensor3<T>, OffloadError>(tilde),
    ));
}

/// The order that a stream gives to `n` rows, and the stream after it.
pub open spec fn shuffled(s: rng::RngState, n: nat) -> (Seq<usize>, rng::RngState) {
    let out = rng::shuffle_outcome(
        Seq::new(n, |i: int| i as usize),
        s.seed,
        s.stream,
        s.word_pos,
    );
    (out.0, rng::RngState { word_pos: out.1, ..s })
}

/// Attention over one sequence shows the engine queries and keys in one order that was shuffled
/// from the stream, with the noise drawn after it; the stream goes on after the noise.
pub proof fn law_attention_shows_shuffled_rows<T: Scalar, E: GpuOffloadEngine<T>>(
    engine: &E,
    q: &Tensor3<T>,
    k: &Tensor3<T>,
    v: &Tensor3<T>,
    scale: T,
    mask: AttentionMask,
    cfg: PermAttnConfig<T>,
    s: rng::RngState,
    out: Tensor3<T>,
    after: rng::RngState,
)
    requires
        attention::permuted_run(
            engine,
            q,
            k,
            v,
            scale,
            mask,
            cfg,
            s,
            Ok::<Tensor3<T>, OffloadError>(out),
            after,
        ),
    ensures
        ({
            let n = q.height();
            let (p, then) = shuffled(s, n);
            let sent = attention::shipped(
                T::ops(),
                then,
                q@,
                k@,
                n,
                n,
                q.width(),
                cfg.noise_sigma,
                p,
                p,
            );
            &&& after == sent.2
            &&& exists|a: &Tensor3<T>, b: &Tensor3<T>, scores: Tensor3<T>|
                {
                    &&& #[trigger] call_ensures(
                        E::matmul_dynamic_batched,
                        (engine, a, b),
                        Ok::<Tensor3<T>, OffloadError>(scores),
                    )
                    &&& a@ == sent.0
                    &&& b@ == sent.1
                }
        }),
{
    let n = q.height();
    let (p, then) = shuffled(s, n);
    assert(Seq::new(n, |i: int| i as usize) =~= rng::identity_perm(n));
    let sent = attention::shipped(T::ops(), then, q@, k@, n, n, q.width(), cfg.noise_sigma, p, p);
    let (a, b, scores) = choose|a: &Tensor3<T>, b: &Tensor3<T>, scores: Tensor3<T>|
        {
            &&& #[trigger] substrate::answers_batched(
                engine,
                a,
                b,
                Ok::<Tensor3<T>, OffloadError>(scores),
            )
            &&& a@ == sent.0
            &&& b@ == sent.1
        };
    assert(call_ensures(
        E::matmul_dynamic_batched,
        (engine, a, b),
        Ok::<Tensor3<T>, OffloadError>(scores),
    ));
}

/// Attention over a cache shows the engine queries and keys in two orders, each shuffled from the
/// stream, with the noise drawn after them; the stream goes on after the noise.
pub proof fn law_cached_attention_shows_shuffled_rows<T: Scalar, E: GpuOffloadEngine<T>>(
    engine: &E,
    q: &Tensor3<T>,
    k: &Tensor3<T>,
    v: &Tensor3<T>,
    scale: T,
    q_pos_offset: usize,
    mask: AttentionMask,
    cfg: PermAttnConfig<T>,
    s: rng::RngState,
    out: Tensor3<T>,
    after: rng::RngState,
)
    requires
        attention::cached_run(
            engine,
            q,
            k,
            v,
            scale,
            q_pos_offset,
            mask,
            cfg,
            s,
            Ok::<Tensor3<T>, OffloadError>(out),
            after,
        ),
    ensures
        ({
            let (p_q, mid) = shuffled(s, q.height());
            let (p_kv, then) = shuffled(mid, k.height());
            let sent = attention::shipped(
                T::ops(),
                then,
                q@,
                k@,
                q.height(),
                k.height(),
                q.width(),
                cfg.noise_sigma,
                p_q,
                p_kv,
            );
            &&& after == sent.2
            &&& exists|a: &Tensor3<T>, b: &Tensor3<T>, scores: Tensor3<T>|
                {
                    &&& #[trigger] call_ensures(
                        E::matmul_dynamic_batched,
                        (engine, a, b),
                        Ok::<Tensor3<T>, OffloadError>(scores),
                    )
                    &&& a@ == sent.0
                    &&& b@ == sent.1
                }
        }),
{
    let (n_q, n_kv) = (q.height(), k.height());
    let (p_q, mid) = shuffled(s, n_q);
    let (p_kv, then) = shuffled(mid, n_kv);
    assert(Seq::new(n_q, |i: int| i as usize) =~= rng::identity_perm(n_q));
    assert(Seq::new(n_kv, |i: int| i as usize) =~= rng::identity_perm(n_kv));
    let sent = attention::shipped(
        T::ops(),
        then,
        q@,
        k@,
        n_q,
        n_kv,
        q.width(),
        cfg.noise_sigma,
        p_q,
        p_kv,
    );
    let (a, b, scores) = choose|a: &Tensor3<T>, b: &Tensor3<T>, scores: Tensor3<T>|
        {
            &&& #[trigger] substrate::answers_batched(
                engine,
                a,
                b,
                Ok::<Tensor3<T>, OffloadError>(scores),
            )
            &&& a@ == sent.0
            &&& b@ == sent.1
        };
    assert(call_ensures(
        E::matmul_dynamic_batched,
        (engine, a, b),
        Ok::<Tensor3<T>, OffloadError>(scores),
    ));
}

/// Stacked rows are too many only where they could not be padded to a power of two.
pub proof fn law_only_unpaddable_rows_are_too_large<T, E>(e: Exec<T, E>, s: nat)
    ensures
        e.rows_error(s as int) == Some(OffloadError::TooLarge) <==> pow2::next_pow2(s)
            > usize::MAX,
        s > 0 && pow2::next_pow2(s) <= usize::MAX ==> e.rows_error(s as int) is None,
{
    let half = (usize::MAX / 2 + 1) as nat;
    pow2::lemma_next_pow2(s);
    pow2::lemma_next_pow2(half);
    pow2::lemma_next_pow2_fits(half);
    if s <= half {
        pow2::lemma_next_pow2_fits(s);
    } else {
        pow2::lemma_pow2_step(half, pow2::next_pow2(s));
    }
}

/// An offload of some rows is taken on where its operand can be counted, its offloads can be
/// numbered, and it fits the forward pass that is open, if one is.
pub proof fn law_ordinary_offloads_are_taken<T, E>(e: Exec<T, E>, n: nat, d: nat, count: nat)
    requires
        n > 0,
        pow2::next_pow2(n + e.shield.k as nat) <= usize::MAX,
        e.shield.k * d <= usize::MAX,
        e.capture matches Some(c) ==> c.next_seq + count <= usize::MAX && c.dropped + count
            <= usize::MAX,
        e.per_forward_mask && e.session is Some ==> e.session.unwrap().data_n == n
            && e.session.unwrap().mask.n() == mask::operand_rows(
            e.mask_kind,
            n + e.shield.k as nat,
        ),
    ensures
        e.offload_error(n, d, count) is None,
{
    law_only_unpaddable_rows_are_too_large(e, n + e.shield.k as nat);
}

/// A forward pass that could be opened takes on the offloads it was opened for, and refuses those
/// of another number of rows.
pub proof fn law_open_pass_takes_its_offloads<E>(
    ops: Ops<real>,
    e: Exec<real, E>,
    n: nat,
    other: nat,
    d: nat,
    count: nat,
)
    requires
        exact::exact(ops),
        n > 0,
        e.per_forward_mask,
        e.begin_error(n) is None,
        e.begun(ops, n).shield.k * d <= usize::MAX,
        e.capture is None,
    ensures
        e.begun(ops, n).offload_error(n, d, count) is None,
        other != n ==> e.begun(ops, n).offload_error(other, d, count) is Some,
{
    let chosen = Exec { shield: e.chosen_shield(n), ..e };
    recovery::lemma_fresh_mask_sound(ops, chosen, n);
}

/// The three projections of a layer come from one masked operand, and in order: the first result
/// is what the mask leaves of the engine's answer for the query weight, the second of that for the
/// key weight, the third of that for the value weight.
pub proof fn law_projections_come_in_order<T: Scalar, E: GpuOffloadEngine<T>>(
    e: Exec<T, E>,
    layer: u16,
    hidden: Matrix<T>,
    after: Exec<T, E>,
    t: (Matrix<T>, Matrix<T>, Matrix<T>),
)
    requires
        e.qkv_run(
            layer,
            hidden,
            after,
            Ok::<(Matrix<T>, Matrix<T>, Matrix<T>), OffloadError>(t),
        ),
    ensures
        exists|asked: &Vec<WeightHandle>, x: &Matrix<T>, outs: Vec<Matrix<T>>|
            {
                let (m, masked, _) = e.prepared(T::ops(), hidden@, hidden.width());
                let n = hidden@.len() as int;
                &&& #[trigger] call_ensures(
                    E::matmul_many,
                    (&e.engine, asked, x),
                    Ok::<Vec<Matrix<T>>, OffloadError>(outs),
                )
                &&& asked@.len() == 3
                &&& asked@[0] == (WeightHandle { layer, kind: WeightKind::Q })
                &&& asked@[1] == (WeightHandle { layer, kind: WeightKind::K })
                &&& asked@[2] == (WeightHandle { layer, kind: WeightKind::V })
                &&& x@ == masked
                &&& t.0@ == m.unmasked(T::ops(), outs@[0]@, outs@[0].width()).take(n)
                &&& t.1@ == m.unmasked(T::ops(), outs@[1]@, outs@[1].width()).take(n)
                &&& t.2@ == m.unmasked(T::ops(), outs@[2]@, outs@[2].width()).take(n)
            },
{
    let handles = executor::qkv_handles(layer);
    let v = choose|v: Result<Vec<Matrix<T>>, OffloadError>|
        {
            &&& #[trigger] e.many_run(handles, hidden, after, v)
            &&& match v {
                Ok(all) => all@ == seq![t.0, t.1, t.2],
                Err(_) => false,
            }
        };
    let all = v->Ok_0;
    let (asked, x, answer) = choose|
        asked: &Vec<WeightHandle>,
        x: &Matrix<T>,
        answer: Result<Vec<Matrix<T>>, OffloadError>,
    |
        {
            &&& #[trigger] substrate::answers_many(&e.engine, asked, x, answer)
            &&& asked@ == handles
            &&& x@ == e.prepared(T::ops(), hidden@, hidden.width()).1
            &&& e.many_end(T::ops(), handles, hidden, answer, after, v)
        };
    let outs = answer->Ok_0;
    assert(call_ensures(
        E::matmul_many,
        (&e.engine, asked, x),
        Ok::<Vec<Matrix<T>>, OffloadError>(outs),
    ));
    assert(all@[0] == t.0 && all@[1] == t.1 && all@[2] == t.2);
}

/// An executor made with a shield of its own uses it for every offload, small or not, and draws a
/// mask for each.
pub proof fn law_own_shield_is_always_used<T, E>(
    ops: Ops<T>,
    engine: E,
    s: rng::RngState,
    shield: ShieldConfig<T>,
    n: nat,
)
    ensures
        ({
            let e = sim::initial_shielded(ops, engine, s, shield);
            &&& !e.per_forward_mask
            &&& e.shield == shield
            &&& e.chosen_shield(n) == shield
            &&& e.begun(ops, n) == e
            &&& e.rng == s
            &&& e.engine == engine
            &&& e.session is None
        }),
{
}

/// What is timed of an offload to one weight that the engine answered: one request, one stacking
/// of the shield, a draw of the mask where one is drawn, the probes where there are any and the
/// weight is held, and taking the shield off where the answer was accepted.
pub proof fn law_offload_is_timed_once<T, E>(
    ops: Ops<T>,
    e: Exec<T, E>,
    handle: WeightHandle,
    hidden: Matrix<T>,
    out: Matrix<T>,
)
    ensures
        ({
            let names = e.linear_names(ops, handle, hidden, Ok(out));
            let (_, masked, s) = e.prepared(ops, hidden@, hidden.width());
            let accepted = e.judged(ops, handle, masked, hidden.width(), out, s).0 is None;
            let probed = e.verify_probes > 0 && e.weights.contains_key(handle);
            let drawn = !(e.per_forward_mask && e.session is Some);
            &&& profile::occurrences(names, "engine:matmul"@) == 1
            &&& profile::occurrences(names, "gelo:shield_stack"@) == 1
            &&& profile::occurrences(names, "gelo:mask_sample"@) == if drawn {
                1nat
            } else {
                0nat
            }
            &&& profile::occurrences(names, "uverify:linear"@) == if probed {
                1nat
            } else {
                0nat
            }
            &&& profile::occurrences(names, "gelo:strip_shield"@) == if accepted {
                1nat
            } else {
                0nat
            }
        }),
{
    let d = hidden.width();
    let (m, masked, s) = e.prepared(ops, hidden@, d);
    let first = if e.draws_mask() {
        seq!["gelo:mask_sample"@]
    } else {
        seq![]
    };
    let apply = mask::apply_category(e.mask_for(ops, hidden@.len()).0.kind());
    let stack = seq!["gelo:shield_stack"@, apply];
    let asked = seq!["engine:matmul"@];
    let judging = e.judging_names(handle);
    let accepted = e.judged(ops, handle, masked, d, out, s).0 is None;
    let unapply = mask::unapply_category(m.kind());
    let opening = if accepted {
        seq![unapply, "gelo:strip_shield"@]
    } else {
        seq![]
    };
    assert(Exec::<T, E>::opening_names(m, 1) =~= seq![unapply, "gelo:strip_shield"@]);
    let names = e.linear_names(ops, handle, hidden, Ok(out));
    assert(names =~= first + stack + asked + (judging + opening));
    lemma_names_differ();
    lemma_pieces(first, stack, asked, judging, opening, "engine:matmul"@);
    lemma_pieces(first, stack, asked, judging, opening, "gelo:shield_stack"@);
    lemma_pieces(first, stack, asked, judging, opening, "gelo:mask_sample"@);
    lemma_pieces(first, stack, asked, judging, opening, "uverify:linear"@);
    lemma_pieces(first, stack, asked, judging, opening, "gelo:strip_shield"@);
}

/// How often a name stands in a few short lists together.
proof fn lemma_pieces(
    first: Seq<Seq<char>>,
    stack: Seq<Seq<char>>,
    asked: Seq<Seq<char>>,
    judging: Seq<Seq<char>>,
    opening: Seq<Seq<char>>,
    name: Seq<char>,
)
    requires
        first.len() <= 2,
        stack.len() <= 2,
        asked.len() <= 2,
        judging.len() <= 2,
        opening.len() <= 2,
    ensures
        profile::occurrences(first + stack + asked + (judging + opening), name) == standing(
            first,
            name,
        ) + standing(stack, name) + standing(asked, name) + standing(judging, name) + standing(
            opening,
            name,
        ),
{
    profile::lemma_occurrences_add(first, stack, name);
    profile::lemma_occurrences_add(first + stack, asked, name);
    profile::lemma_occurrences_add(first + stack + asked, judging + opening, name);
    profile::lemma_occurrences_add(judging, opening, name);
    lemma_standing(first, name);
    lemma_standing(stack, name);
    lemma_standing(asked, name);
    lemma_standing(judging, name);
    lemma_standing(opening, name);
}

/// How often a name stands in a list of at most two.
spec fn standing(names: Seq<Seq<char>>, name: Seq<char>) -> nat {
    let a = if names.len() > 0 && names[0] == name {
        1nat
    } else {
        0nat
    };
    let b = if names.len() > 1 && names[1] == name {
        1nat
    } else {
        0nat
    };
    a + b
}

proof fn lemma_standing(names: Seq<Seq<char>>, name: Seq<char>)
    requires
        names.len() <= 2,
    ensures
        profile::occurrences(names, name) == standing(names, name),
{
    reveal_with_fuel(profile::occurrences, 3);
}

/// The names of what is timed of an offload differ.
proof fn lemma_names_differ()
    ensures
        "engine:matmul"@.len() == 13,
        "uverify:linear"@.len() == 14,
        "gelo:mask_sample"@.len() == 16,
        "gelo:shield_stack"@.len() == 17,
        "gelo:strip_shield"@.len() == 17,
        "gelo:shield_stack"@ != "gelo:strip_shield"@,
        forall|kind: MaskKind| (#[trigger] mask::apply_category(kind)).len() >= 19,
        forall|kind: MaskKind| (#[trigger] mask::unapply_category(kind)).len() >= 19,
{
    reveal_strlit("engine:matmul");
    reveal_strlit("uverify:linear");
    reveal_strlit("gelo:mask_sample");
    reveal_strlit("gelo:shield_stack");
    reveal_strlit("gelo:strip_shield");
    reveal_strlit("gelo:mask_apply:hd3");
    reveal_strlit("gelo:mask_apply:dct4");
    reveal_strlit("gelo:mask_apply:haar");
    reveal_strlit("gelo:mask_unapply:hd3");
    reveal_strlit("gelo:mask_unapply:dct4");
    reveal_strlit("gelo:mask_unapply:haar");
    assert("gelo:shield_stack"@[6] != "gelo:strip_shield"@[6]);
}

/// An offload that does not fit the open forward pass is refused with both shapes: its own rows
/// and the rows of its operand, and those that the pass was opened for.
pub proof fn law_misfit_names_both_shapes<T, E>(e: Exec<T, E>, n: nat, d: nat, count: nat)
    requires
        e.offload_error(n, d, count) matches Some(err) && err is SessionShape,
        n <= usize::MAX,
        e.session.unwrap().data_n <= usize::MAX,
        e.session.unwrap().mask.n() <= usize::MAX,
        mask::operand_rows(e.mask_kind, n + e.shield.k as nat) <= usize::MAX,
    ensures
        e.per_forward_mask,
        e.session is Some,
        ({
            let open = e.session.unwrap();
            let rows = mask::operand_rows(e.mask_kind, n + e.shield.k as nat);
            &&& open.data_n != n || open.mask.n() != rows
            &&& e.offload_error(n, d, count) matches Some(err) && err == (
            OffloadError::SessionShape {
                n: n as usize,
                stacked: rows as usize,
                session_n: open.data_n as usize,
                session_stacked: open.mask.n() as usize,
            })
        }),
{
}

} // verus!
