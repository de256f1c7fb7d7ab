//! What the calls of the services and of the masking executor come to, whatever is behind them.

use vstd::prelude::*;

use crate::attention;
use crate::attention::AttentionMask;
use crate::attestation::AttestationVerifier;
use crate::dct4;
use crate::dct4::Dct4Mask;
use crate::error::OffloadError;
use crate::haar;
use crate::hd3;
use crate::hd3::Hd3Mask;
use crate::mask;
use crate::mask::GeloMask;
use crate::matrix;
use crate::matrix::{Matrix, Tensor3};
use crate::pairing;
use crate::pairing::Meaning;
use crate::ple::{PleError, PleTable};
use crate::pow2;
use crate::profile;
use crate::profile::Profile;
use crate::retrieval;
use crate::rng;
use crate::rng::MaskSeed;
use crate::scalar::Scalar;
use crate::service::{
    DocumentChunk, GeloRagInMemoryService, Holdings, RagBackend, RetrievalHit,
};
use crate::shield;
use crate::sim;
use crate::sim::{InProcessTrustedExecutor, RayonCpuEngine};
use crate::softmax;
use crate::substrate::{GpuOffloadEngine, TrustedExecutor, WeightHandle};
use crate::tenant::Secret;
use crate::two_party_service;
use crate::two_party_service::{GeloRagTwoPartyService, State, TwoPartyError};

verus! {

/// Every call that takes an owner's chunks in and succeeds leaves the index with what it held
/// before and, in order, every chunk beside the vector of its own text.
pub proof fn law_owner_calls_store_pairs<B: RagBackend, V: AttestationVerifier>(mean: Meaning<B>)
    ensures
        forall|svc: &mut GeloRagInMemoryService<B, V>, chunks: Vec<DocumentChunk>|
            {
                let b = &(*svc).holdings().backend;
                #[trigger] call_ensures(
                    GeloRagInMemoryService::<B, V>::ingest_chunks,
                    (svc, chunks),
                    Ok::<(), String>(()),
                ) && retrieval::keeps(b, mean.held) && pairing::models(b, mean)
                    && pairing::seals_vectors(b, mean) ==> pairing::adds_chunks(
                    b,
                    mean,
                    &(*svc).holdings().key,
                    (mean.held)((*svc).holdings().index),
                    (mean.held)((*final(svc)).holdings().index),
                    chunks@,
                )
            },
{
    assert forall|svc: &mut GeloRagInMemoryService<B, V>, chunks: Vec<DocumentChunk>|
        {
            let b = &(*svc).holdings().backend;
            #[trigger] call_ensures(
                GeloRagInMemoryService::<B, V>::ingest_chunks,
                (svc, chunks),
                Ok::<(), String>(()),
            ) && retrieval::keeps(b, mean.held) && pairing::models(b, mean)
                && pairing::seals_vectors(b, mean)
        } implies pairing::adds_chunks(
        &(*svc).holdings().backend,
        mean,
        &(*svc).holdings().key,
        (mean.held)((*svc).holdings().index),
        (mean.held)((*final(svc)).holdings().index),
        chunks@,
    ) by {
        pairing::law_ingest_keeps_chunks_with_their_vectors(
            (*svc).holdings(),
            mean,
            chunks@,
            (*final(svc)).holdings(),
        );
    }
}

/// Every query of an owner that succeeds finds at most as many chunks as were asked for, best
/// first, each with the score and the vector of its own text, and leaves the index as it is.
pub proof fn law_owner_calls_rank_hits<B: RagBackend, V: AttestationVerifier>(mean: Meaning<B>)
    ensures
        forall|
            svc: &mut GeloRagInMemoryService<B, V>,
            text: &String,
            top_k: usize,
            hits: Vec<RetrievalHit<B::Score, B::SealedEmbedding>>,
        |
            #[trigger] call_ensures(
                GeloRagInMemoryService::<B, V>::query,
                (svc, text, top_k),
                Ok::<Vec<RetrievalHit<B::Score, B::SealedEmbedding>>, String>(hits),
            ) && is_understood((*svc).holdings(), mean) ==> are_ranked(mean, text@, top_k, hits@)
                && (*final(svc)).holdings().index == (*svc).holdings().index,
{
    assert forall|
        svc: &mut GeloRagInMemoryService<B, V>,
        text: &String,
        top_k: usize,
        hits: Vec<RetrievalHit<B::Score, B::SealedEmbedding>>,
    |
        #[trigger] call_ensures(
            GeloRagInMemoryService::<B, V>::query,
            (svc, text, top_k),
            Ok::<Vec<RetrievalHit<B::Score, B::SealedEmbedding>>, String>(hits),
        ) && is_understood((*svc).holdings(), mean) implies are_ranked(mean, text@, top_k, hits@)
        && (*final(svc)).holdings().index == (*svc).holdings().index by {
        pairing::law_owner_hits_are_ranked(
            (*svc).holdings(),
            mean,
            text@,
            top_k,
            (*final(svc)).holdings(),
            hits,
        );
    }
}

/// The backend means what `mean` says, its key opens what it sealed, and every chunk that is held
/// stands beside the vector of its own text.
pub open spec fn is_understood<B: RagBackend>(held: Holdings<B>, mean: Meaning<B>) -> bool {
    &&& retrieval::keeps(&held.backend, mean.held)
    &&& retrieval::opens(&held.backend, &held.key)
    &&& pairing::models(&held.backend, mean)
    &&& pairing::seals_vectors(&held.backend, mean)
    &&& pairing::ranks(&held.backend, mean)
    &&& pairing::is_matched(&held.backend, mean, &held.key, (mean.held)(held.index))
}

/// At most as many hits as were asked for, best first, each with the score and the vector of its
/// own text.
pub open spec fn are_ranked<B: RagBackend>(
    mean: Meaning<B>,
    text: Seq<char>,
    top_k: usize,
    hits: Seq<RetrievalHit<B::Score, B::SealedEmbedding>>,
) -> bool {
    &&& hits.len() <= top_k
    &&& forall|i: int|
        0 <= i < hits.len() ==> pairing::is_honest_hit(mean, text, #[trigger] hits[i])
    &&& forall|i: int, j: int|
        0 <= i <= j < hits.len() ==> (mean.no_worse)(
            (#[trigger] hits[i]).score,
            (#[trigger] hits[j]).score,
        )
}

/// Every call that takes a tenant's chunks in fixes the tenant's secret, if there was none, stores
/// for that tenant alone, and wipes the secret that came with the call. Where it succeeds the
/// tenant's index holds what it held before and, in order, every chunk beside the vector of its
/// own text, sealed under a key from the two secrets.
pub proof fn law_tenant_calls_store_pairs<B: RagBackend, V: AttestationVerifier>(mean: Meaning<B>)
    ensures
        forall|
            svc: &mut GeloRagTwoPartyService<B, V>,
            name: &String,
            secret: &mut Secret,
            chunks: Vec<DocumentChunk>,
            fresh: Secret,
            r: Result<(), TwoPartyError>,
        |
            #[trigger] call_ensures(
                GeloRagTwoPartyService::<B, V>::ingest_chunks_with,
                (svc, name, secret, chunks, fresh),
                r,
            ) ==> {
                let before = (*svc)@;
                let after = (*final(svc))@;
                &&& forall|i: int| 0 <= i < 32 ==> #[trigger] (*final(secret))@[i] == 0u8
                &&& after.secrets.contains_key(name@)
                &&& before.secrets.contains_key(name@) ==> after.secrets[name@]
                    == before.secrets[name@]
                &&& !before.secrets.contains_key(name@) ==> after.secrets[name@] == fresh
                &&& forall|other: Seq<char>|
                    other != name@ ==> #[trigger] after.index_of(other) == before.index_of(other)
                &&& r is Ok && is_clear(&before.backend, mean) ==> stores_pairs(
                    before,
                    after,
                    mean,
                    *name,
                    *secret,
                    chunks@,
                )
            },
{
    assert forall|
        svc: &mut GeloRagTwoPartyService<B, V>,
        name: &String,
        secret: &mut Secret,
        chunks: Vec<DocumentChunk>,
        fresh: Secret,
        r: Result<(), TwoPartyError>,
    |
        #[trigger] call_ensures(
            GeloRagTwoPartyService::<B, V>::ingest_chunks_with,
            (svc, name, secret, chunks, fresh),
            r,
        ) implies {
        let before = (*svc)@;
        let after = (*final(svc))@;
        &&& forall|i: int| 0 <= i < 32 ==> #[trigger] (*final(secret))@[i] == 0u8
        &&& after.secrets.contains_key(name@)
        &&& before.secrets.contains_key(name@) ==> after.secrets[name@] == before.secrets[name@]
        &&& !before.secrets.contains_key(name@) ==> after.secrets[name@] == fresh
        &&& forall|other: Seq<char>|
            other != name@ ==> #[trigger] after.index_of(other) == before.index_of(other)
        &&& r is Ok && is_clear(&before.backend, mean) ==> stores_pairs(
            before,
            after,
            mean,
            *name,
            *secret,
            chunks@,
        )
    } by {
        let before = (*svc)@;
        let known = before.introduced(name@, fresh);
        let after = (*final(svc))@;
        assert forall|other: Seq<char>| other != name@ implies #[trigger] after.index_of(other)
            == before.index_of(other) by {
            two_party_service::law_ingest_touches_one_index(
                known,
                *name,
                *secret,
                chunks@,
                after,
                r,
                other,
            );
        }
        two_party_service::law_ingest_touches_one_index(
            known,
            *name,
            *secret,
            chunks@,
            after,
            r,
            name@,
        );
        if r is Ok && is_clear(&before.backend, mean) {
            let keys = pairing::law_tenant_chunks_keep_their_vectors(
                known,
                mean,
                *name,
                *secret,
                chunks@,
                after,
            );
        }
    }
}

/// The backend's index, model and vector cipher mean what `mean` says.
pub open spec fn is_clear<B: RagBackend>(b: &B, mean: Meaning<B>) -> bool {
    &&& retrieval::keeps(b, mean.held)
    &&& pairing::models(b, mean)
    &&& pairing::seals_vectors(b, mean)
}

/// The tenant's index has taken every chunk beside the vector of its own text, sealed under a key
/// from the tenant's secret and the service's for that tenant.
pub open spec fn stores_pairs<B: RagBackend>(
    before: State<B>,
    after: State<B>,
    mean: Meaning<B>,
    name: String,
    secret: Secret,
    chunks: Seq<DocumentChunk>,
) -> bool {
    exists|keys: (B::Cipher, B::ChunkKey)|
        {
            &&& #[trigger] call_ensures(
                B::derive_keys,
                (
                    &before.backend,
                    before.policy,
                    before.params,
                    &secret,
                    &after.secrets[name@],
                    &name,
                ),
                keys,
            )
            &&& pairing::adds_chunks(
                &before.backend,
                mean,
                &keys.1,
                pairing::held_of(before, mean, name@),
                pairing::held_of(after, mean, name@),
                chunks,
            )
        }
}

/// The backend means what `mean` says, and every key that may be derived for the tenant opens what
/// it sealed and goes with what the tenant has stored.
pub open spec fn is_tenant_understood<B: RagBackend>(
    st: State<B>,
    mean: Meaning<B>,
    name: String,
    secret: Secret,
) -> bool {
    &&& is_clear(&st.backend, mean)
    &&& pairing::ranks(&st.backend, mean)
    &&& forall|k: (B::Cipher, B::ChunkKey)|
        #[trigger] call_ensures(
            B::derive_keys,
            (&st.backend, st.policy, st.params, &secret, &st.secrets[name@], &name),
            k,
        ) ==> {
            &&& retrieval::opens(&st.backend, &k.1)
            &&& pairing::is_matched(
                &st.backend,
                mean,
                &k.1,
                pairing::held_of(st, mean, name@),
            )
        }
}

/// Every query of a tenant wipes the secret that came with it and changes nothing that is stored.
/// A tenant without a secret is refused by name. The others find at most as many of their own
/// chunks as were asked for, best first, each with the score and the vector of its own text.
pub proof fn law_tenant_calls_rank_hits<B: RagBackend, V: AttestationVerifier>(mean: Meaning<B>)
    ensures
        forall|
            svc: &mut GeloRagTwoPartyService<B, V>,
            name: &String,
            secret: &mut Secret,
            text: &String,
            top_k: usize,
            r: Result<Vec<RetrievalHit<B::Score, B::SealedEmbedding>>, TwoPartyError>,
        |
            #[trigger] call_ensures(
                GeloRagTwoPartyService::<B, V>::query_for,
                (svc, name, secret, text, top_k),
                r,
            ) ==> {
                let before = (*svc)@;
                let after = (*final(svc))@;
                &&& forall|i: int| 0 <= i < 32 ==> #[trigger] (*final(secret))@[i] == 0u8
                &&& after.secrets == before.secrets
                &&& after.indices == before.indices
                &&& !before.secrets.contains_key(name@) ==> (r matches Err(
                    TwoPartyError::UnknownTenant(unknown),
                ) && unknown@ == name@)
                &&& before.secrets.contains_key(name@) ==> !(r matches Err(
                    TwoPartyError::UnknownTenant(_),
                ))
                &&& r matches Ok(hits) ==> is_tenant_understood(before, mean, *name, *secret)
                    ==> are_ranked(mean, text@, top_k, hits@) && (!before.indices.contains_key(
                    name@,
                ) ==> hits@.len() == 0)
            },
{
    assert forall|
        svc: &mut GeloRagTwoPartyService<B, V>,
        name: &String,
        secret: &mut Secret,
        text: &String,
        top_k: usize,
        r: Result<Vec<RetrievalHit<B::Score, B::SealedEmbedding>>, TwoPartyError>,
    |
        #[trigger] call_ensures(
            GeloRagTwoPartyService::<B, V>::query_for,
            (svc, name, secret, text, top_k),
            r,
        ) implies {
        let before = (*svc)@;
        let after = (*final(svc))@;
        &&& forall|i: int| 0 <= i < 32 ==> #[trigger] (*final(secret))@[i] == 0u8
        &&& after.secrets == before.secrets
        &&& after.indices == before.indices
        &&& !before.secrets.contains_key(name@) ==> (r matches Err(
            TwoPartyError::UnknownTenant(unknown),
        ) && unknown@ == name@)
        &&& before.secrets.contains_key(name@) ==> !(r matches Err(
            TwoPartyError::UnknownTenant(_),
        ))
        &&& r matches Ok(hits) ==> is_tenant_understood(before, mean, *name, *secret)
            ==> are_ranked(mean, text@, top_k, hits@) && (!before.indices.contains_key(name@)
            ==> hits@.len() == 0)
    } by {
        let before = (*svc)@;
        if let Ok(hits) = r {
            if is_tenant_understood(before, mean, *name, *secret) {
                let keys = pairing::law_tenant_hits_are_ranked(
                    before,
                    mean,
                    *name,
                    *secret,
                    text@,
                    top_k,
                    (*final(svc))@,
                    hits,
                );
            }
        }
    }
}

/// Every projection that a masking executor is asked for is a run of its own: of one weight, of
/// several, or of the three weights of a layer.
pub proof fn law_projection_calls_are_runs<T: Scalar, E: GpuOffloadEngine<T>>()
    ensures
        forall|
            e: &mut InProcessTrustedExecutor<T, E>,
            handle: WeightHandle,
            hidden: &Matrix<T>,
            r: Result<Matrix<T>, OffloadError>,
        |
            #[trigger] call_ensures(
                <InProcessTrustedExecutor<T, E> as TrustedExecutor<T>>::offload_linear,
                (e, handle, hidden),
                r,
            ) ==> (*e)@.linear_run(handle, *hidden, (*final(e))@, r),
        forall|
            e: &mut InProcessTrustedExecutor<T, E>,
            handles: &Vec<WeightHandle>,
            hidden: &Matrix<T>,
            r: Result<Vec<Matrix<T>>, OffloadError>,
        |
            #[trigger] call_ensures(
                <InProcessTrustedExecutor<T, E> as TrustedExecutor<T>>::offload_linear_many,
                (e, handles, hidden),
                r,
            ) ==> (*e)@.many_run(handles@, *hidden, (*final(e))@, r),
        forall|
            e: &mut InProcessTrustedExecutor<T, E>,
            layer: u16,
            hidden: &Matrix<T>,
            r: Result<(Matrix<T>, Matrix<T>, Matrix<T>), OffloadError>,
        |
            #[trigger] call_ensures(
                <InProcessTrustedExecutor<T, E> as TrustedExecutor<T>>::offload_qkv,
                (e, layer, hidden),
                r,
            ) ==> (*e)@.qkv_run(layer, *hidden, (*final(e))@, r),
{
}

/// Every attention that a masking executor is asked for is a run of its own, with the probes and
/// the noise that the executor is set to.
pub proof fn law_attention_calls_are_runs<T: Scalar, E: GpuOffloadEngine<T>>()
    ensures
        forall|
            e: &mut InProcessTrustedExecutor<T, E>,
            q: &Matrix<T>,
            kt: &Matrix<T>,
            r: Result<Matrix<T>, OffloadError>,
        |
            #[trigger] call_ensures(
                <InProcessTrustedExecutor<T, E> as TrustedExecutor<T>>::offload_attention_qkt,
                (e, q, kt),
                r,
            ) ==> sim::scores_run((*e)@, *q, *kt, (*final(e))@, r),
        forall|
            e: &mut InProcessTrustedExecutor<T, E>,
            q: &Tensor3<T>,
            kt: &Tensor3<T>,
            r: Result<Tensor3<T>, OffloadError>,
        |
            #[trigger] call_ensures(
                <InProcessTrustedExecutor<
                    T,
                    E,
                > as TrustedExecutor<T>>::offload_attention_qkt_batched,
                (e, q, kt),
                r,
            ) ==> sim::heads_run((*e)@, *q, *kt, (*final(e))@, r),
        forall|
            e: &mut InProcessTrustedExecutor<T, E>,
            q: &Tensor3<T>,
            k: &Tensor3<T>,
            v: &Tensor3<T>,
            scale: T,
            mask: AttentionMask,
            r: Result<Tensor3<T>, OffloadError>,
        |
            #[trigger] call_ensures(
                <InProcessTrustedExecutor<T, E> as TrustedExecutor<T>>::offload_attention_permuted,
                (e, q, k, v, scale, mask),
                r,
            ) ==> attention::permuted_run(
                &(*e)@.engine,
                q,
                k,
                v,
                scale,
                mask,
                (*e)@.perm_attn,
                (*e)@.rng,
                r,
                (*final(e))@.rng,
            ),
        forall|
            e: &mut InProcessTrustedExecutor<T, E>,
            q: &Tensor3<T>,
            k: &Tensor3<T>,
            v: &Tensor3<T>,
            scale: T,
            offset: usize,
            mask: AttentionMask,
            r: Result<Tensor3<T>, OffloadError>,
        |
            #[trigger] call_ensures(
                <InProcessTrustedExecutor<
                    T,
                    E,
                > as TrustedExecutor<T>>::offload_attention_permuted_cached,
                (e, q, k, v, scale, offset, mask),
                r,
            ) ==> attention::cached_run(
                &(*e)@.engine,
                q,
                k,
                v,
                scale,
                offset,
                mask,
                (*e)@.perm_attn,
                (*e)@.rng,
                r,
                (*final(e))@.rng,
            ),
{
}

/// Moving an executor to another stream makes its next word the one of that stream's number, at
/// the index where it stood; opening a forward pass draws the mask that all its offloads use.
pub proof fn law_stream_and_pass_calls<T: Scalar, E: GpuOffloadEngine<T>>()
    ensures
        forall|e: &mut InProcessTrustedExecutor<T, E>, stream: u64|
            #[trigger] call_ensures(
                <InProcessTrustedExecutor<T, E> as TrustedExecutor<T>>::set_rng_stream,
                (e, stream),
                (),
            ) ==> rng::word((*final(e))@.rng) == rng::chacha20_word(
                (*e)@.rng.seed,
                stream,
                (*e)@.rng.word_pos,
            ),
        forall|e: &mut InProcessTrustedExecutor<T, E>, n: usize|
            #[trigger] call_ensures(
                <InProcessTrustedExecutor<T, E> as TrustedExecutor<T>>::begin_forward_pass,
                (e, n),
                Ok::<(), OffloadError>(()),
            ) && (*e)@.per_forward_mask ==> {
                let open = (*final(e))@;
                let rows = (n + open.shield.k) as nat;
                &&& open.shield == (*e)@.chosen_shield(n as nat)
                &&& open.session matches Some(s) && s.data_n == n && s.mask == mask::sampled_family(
                    T::ops(),
                    mask::resolved((*e)@.mask_kind, rows),
                    (*e)@.rng,
                    mask::operand_rows((*e)@.mask_kind, rows),
                )
            },
        forall|e: &mut InProcessTrustedExecutor<T, E>|
            #[trigger] call_ensures(
                <InProcessTrustedExecutor<T, E> as TrustedExecutor<T>>::end_forward_pass,
                (e,),
                Ok::<(), OffloadError>(()),
            ) ==> (*final(e))@.session is None,
{
}

/// The same of the calls that draw the service's secret themselves: a tenant without one gets one
/// that was drawn at random.
pub proof fn law_tenant_calls_draw_secrets<B: RagBackend, V: AttestationVerifier>(mean: Meaning<B>)
    ensures
        forall|
            svc: &mut GeloRagTwoPartyService<B, V>,
            name: &String,
            secret: &mut Secret,
            chunks: Vec<DocumentChunk>,
            r: Result<(), TwoPartyError>,
        |
            #[trigger] call_ensures(
                GeloRagTwoPartyService::<B, V>::ingest_chunks_for,
                (svc, name, secret, chunks),
                r,
            ) ==> {
                let before = (*svc)@;
                let after = (*final(svc))@;
                &&& forall|i: int| 0 <= i < 32 ==> #[trigger] (*final(secret))@[i] == 0u8
                &&& after.secrets.contains_key(name@)
                &&& before.secrets.contains_key(name@) ==> after.secrets[name@]
                    == before.secrets[name@]
                &&& !before.secrets.contains_key(name@) ==> after.secrets[name@].is_drawn()
                &&& r is Ok && is_clear(&before.backend, mean) ==> stores_pairs(
                    before,
                    after,
                    mean,
                    *name,
                    *secret,
                    chunks@,
                )
            },
{
    assert forall|
        svc: &mut GeloRagTwoPartyService<B, V>,
        name: &String,
        secret: &mut Secret,
        chunks: Vec<DocumentChunk>,
        r: Result<(), TwoPartyError>,
    |
        #[trigger] call_ensures(
            GeloRagTwoPartyService::<B, V>::ingest_chunks_for,
            (svc, name, secret, chunks),
            r,
        ) implies {
        let before = (*svc)@;
        let after = (*final(svc))@;
        &&& forall|i: int| 0 <= i < 32 ==> #[trigger] (*final(secret))@[i] == 0u8
        &&& after.secrets.contains_key(name@)
        &&& before.secrets.contains_key(name@) ==> after.secrets[name@] == before.secrets[name@]
        &&& !before.secrets.contains_key(name@) ==> after.secrets[name@].is_drawn()
        &&& r is Ok && is_clear(&before.backend, mean) ==> stores_pairs(
            before,
            after,
            mean,
            *name,
            *secret,
            chunks@,
        )
    } by {
        let before = (*svc)@;
        let after = (*final(svc))@;
        let fresh = choose|fresh: Secret|
            {
                &&& fresh.is_drawn()
                &&& #[trigger] before.introduced(name@, fresh).ingested(
                    *name,
                    *secret,
                    chunks@,
                    after,
                    r,
                )
            };
        let known = before.introduced(name@, fresh);
        two_party_service::law_ingest_touches_one_index(
            known,
            *name,
            *secret,
            chunks@,
            after,
            r,
            name@,
        );
        if r is Ok && is_clear(&before.backend, mean) {
            let keys = pairing::law_tenant_chunks_keep_their_vectors(
                known,
                mean,
                *name,
                *secret,
                chunks@,
                after,
            );
        }
    }
}

/// Forgetting a tenant leaves neither secret nor index, and every other tenant as it was.
pub proof fn law_forgetting_calls<B: RagBackend, V: AttestationVerifier>()
    ensures
        forall|svc: &mut GeloRagTwoPartyService<B, V>, name: &String|
            #[trigger] call_ensures(
                GeloRagTwoPartyService::<B, V>::forget_tenant,
                (svc, name),
                (),
            ) ==> {
                let before = (*svc)@;
                let after = (*final(svc))@;
                &&& !after.secrets.contains_key(name@)
                &&& !after.indices.contains_key(name@)
                &&& forall|other: Seq<char>|
                    other != name@ ==> #[trigger] after.index_of(other) == before.index_of(other)
                        && after.secrets.contains_key(other) == before.secrets.contains_key(other)
            },
{
}

/// The executable softmax of a row, guarded or not, is the one that the laws on weights speak of,
/// and so is attention without any shielding.
pub proof fn law_softmax_calls<T: Scalar>()
    ensures
        forall|row: &Vec<T>, r: Vec<T>|
            #[trigger] call_ensures(softmax::softmax_row::<T>, (row,), r) ==> r@
                == softmax::softmax(T::ops(), row@),
        forall|row: &Vec<T>, r: Vec<T>|
            #[trigger] call_ensures(softmax::guarded_softmax_row::<T>, (row,), r) ==> r@
                == softmax::guarded_softmax(T::ops(), row@),
        forall|m: &Matrix<T>, r: Matrix<T>, i: int|
            #[trigger] call_ensures(softmax::softmax_rowwise::<T>, (m,), r) && 0 <= i
                < m@.len() ==> #[trigger] r@[i] == softmax::softmax(T::ops(), m@[i]),
        forall|
            q: &Tensor3<T>,
            k: &Tensor3<T>,
            v: &Tensor3<T>,
            scale: T,
            mask: AttentionMask,
            r: Result<Tensor3<T>, OffloadError>,
        |
            #[trigger] call_ensures(
                attention::plain_attention::<T>,
                (q, k, v, scale, mask),
                r,
            ) ==> attention::plain_run(q, k, v, scale, mask, r),
{
}

/// A lookup in a table of embeddings is the one that the law on lookups speaks of.
pub proof fn law_lookup_calls<T: Scalar>()
    ensures
        forall|t: &PleTable<T>, tokens: &Vec<u32>, layer: usize, r: Result<Matrix<T>, PleError>|
            #[trigger] call_ensures(PleTable::<T>::gather, (t, tokens, layer), r)
                ==> t@.looked_up(T::ops(), tokens@, layer, r),
{
}

/// The engine on the calling thread answers for a weight that it holds with the product, entry by
/// entry, and refuses a weight that it does not hold.
pub proof fn law_thread_engine_calls<T: Scalar>()
    ensures
        forall|
            engine: &RayonCpuEngine<T>,
            handle: WeightHandle,
            x: &Matrix<T>,
            r: Result<Matrix<T>, OffloadError>,
        |
            #[trigger] call_ensures(
                <RayonCpuEngine<T> as GpuOffloadEngine<T>>::matmul,
                (engine, handle, x),
                r,
            ) ==> {
                &&& r is Ok <==> engine@.contains_key(handle) && x.width()
                    == engine@[handle]@.len()
                &&& r matches Ok(out) ==> out@.len() == x@.len() && out.width()
                    == engine@[handle].width() && forall|i: int, j: int|
                    0 <= i < x@.len() && 0 <= j < out.width() ==> #[trigger] out@[i][j]
                        == matrix::dot(
                        T::ops(),
                        x@[i],
                        matrix::col(engine@[handle]@, j),
                        x.width(),
                    )
            },
{
}

/// Asked for the softmax of a stack, the engine on the calling thread answers with that of every
/// row.
pub proof fn law_thread_engine_weighs_rows<T: Scalar>()
    ensures
        forall|
            engine: &RayonCpuEngine<T>,
            t: &Tensor3<T>,
            r: Result<Tensor3<T>, OffloadError>,
            h: int,
            i: int,
        |
            #![trigger call_ensures(
                <RayonCpuEngine<T> as GpuOffloadEngine<T>>::softmax_batched,
                (engine, t),
                r,
            ), t@[h][i]]
            call_ensures(
                <RayonCpuEngine<T> as GpuOffloadEngine<T>>::softmax_batched,
                (engine, t),
                r,
            ) && 0 <= h < t@.len() && 0 <= i < t@[h].len() ==> (r matches Ok(out) && out@[h][i]
                == softmax::softmax(T::ops(), t@[h][i])),
{
}

/// A mask that a seed determines is the one sampled from the first word of the seed's stream.
pub proof fn law_seeds_determine_masks<T: Scalar>()
    ensures
        forall|n: usize, seed: MaskSeed, r: GeloMask<T>|
            #[trigger] call_ensures(GeloMask::<T>::from_seed, (n, seed), r) ==> r@
                == haar::sampled(T::ops(), opened_by(seed), n as nat),
        forall|n: usize, seed: MaskSeed, r: Hd3Mask<T>|
            #[trigger] call_ensures(Hd3Mask::<T>::from_seed, (n, seed), r) ==> r@
                == hd3::sampled(T::ops(), opened_by(seed), n as nat),
        forall|n: usize, seed: MaskSeed, r: Dct4Mask<T>|
            #[trigger] call_ensures(Dct4Mask::<T>::from_seed, (n, seed), r) ==> r@
                == dct4::sampled(T::ops(), opened_by(seed), n as nat),
{
}

/// The stream with the seed for its key and number zero, at its first word.
pub open spec fn opened_by(seed: MaskSeed) -> rng::RngState {
    rng::RngState { seed: seed.0@, stream: 0, word_pos: 0 }
}

/// Masking in place does to a buffer what masking does to a matrix, for both cascades, and so does
/// unmasking.
pub proof fn law_in_place_calls<T: Scalar>()
    ensures
        forall|m: &Hd3Mask<T>, buf: &mut Matrix<T>|
            #[trigger] call_ensures(Hd3Mask::<T>::apply_in_place, (m, buf), ()) ==> (*final(buf))@
                == mask::Family::Hd3(m@).masked(T::ops(), (*buf)@, (*buf).width()),
        forall|m: &Hd3Mask<T>, buf: &mut Matrix<T>|
            #[trigger] call_ensures(Hd3Mask::<T>::unapply_in_place, (m, buf), ()) ==> (*final(buf))@ == mask::Family::Hd3(m@).unmasked(T::ops(), (*buf)@, (*buf).width()),
        forall|m: &Dct4Mask<T>, buf: &mut Matrix<T>|
            #[trigger] call_ensures(Dct4Mask::<T>::apply_in_place, (m, buf), ()) ==> (*final(buf))@
                == mask::Family::Dct4(m@).masked(T::ops(), (*buf)@, (*buf).width()),
        forall|m: &Dct4Mask<T>, buf: &mut Matrix<T>|
            #[trigger] call_ensures(Dct4Mask::<T>::unapply_in_place, (m, buf), ()) ==> (*final(buf))@ == mask::Family::Dct4(m@).unmasked(T::ops(), (*buf)@, (*buf).width()),
{
}

/// The shield rows for a batch bring its rows up to a power of two: the least that leaves room for
/// as many as were asked for.
pub proof fn law_batches_land_on_powers_of_two(q: nat)
    ensures
        forall|n: usize, base: usize, k: usize|
            #[trigger] call_ensures(shield::shield_k_for_batch, (n, base), k) ==> {
                &&& k >= base
                &&& pow2::is_pow2((n + k) as nat)
                &&& pow2::is_pow2(q) && q >= n + base ==> n + k <= q
            },
{
}

/// The rows of a profile show falling times.
pub proof fn law_profile_rows_fall()
    ensures
        forall|p: &Profile, r: Vec<(&'static str, u128, u64)>, i: int, j: int|
            #![trigger call_ensures(Profile::rows_by_time, (p,), r), r@[i], r@[j]]
            call_ensures(Profile::rows_by_time, (p,), r) && 0 <= i < j < r@.len() ==> r@[i].1
                >= r@[j].1,
{
    assert forall|p: &Profile, r: Vec<(&'static str, u128, u64)>, i: int, j: int|
        #![trigger call_ensures(Profile::rows_by_time, (p,), r), r@[i], r@[j]]
        call_ensures(Profile::rows_by_time, (p,), r) && 0 <= i < j < r@.len() implies r@[i].1
        >= r@[j].1 by {
        let rows = profile::rows_of(r@);
        assert(profile::stands_above(rows[i], rows[j]));
        profile::law_rows_fall(rows[i], rows[j]);
    }
}

} // verus!
