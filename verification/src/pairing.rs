//! Which vector goes with which chunk, with a backend whose model, ciphers and search can be
//! described by what they mean.

use vstd::prelude::*;

use crate::retrieval;
use crate::service;
use crate::service::{DocumentChunk, Holdings, RagBackend, RetrievalHit};
use crate::tenant::Secret;
use crate::two_party_service;
use crate::two_party_service::{State, TwoPartyError};

verus! {

/// What the values of a backend mean.
#[verifier::reject_recursive_types(B)]
pub struct Meaning<B: RagBackend> {
    /// What an index holds, in the order in which it was taken.
    pub held: spec_fn(B::Index) -> Seq<(B::SealedChunk, B::SealedEmbedding)>,
    /// The model's vector for a text.
    pub model: spec_fn(Seq<char>) -> B::Embedding,
    /// The vector that was sealed to be stored.
    pub stored: spec_fn(B::SealedEmbedding) -> B::Embedding,
    /// The vector that was sealed to be searched for.
    pub asked: spec_fn(B::SealedEmbedding) -> B::Embedding,
    /// How well a stored vector fits one that is searched for.
    pub fit: spec_fn(B::Embedding, B::Embedding) -> B::Score,
    /// A score is no worse than another.
    pub no_worse: spec_fn(B::Score, B::Score) -> bool,
}

/// The model answers every text with the vector of that text.
pub open spec fn models<B: RagBackend>(b: &B, mean: Meaning<B>) -> bool {
    forall|memory: &B::Memory, t: &Vec<String>, after: B::Memory, v: Vec<B::Embedding>|
        #[trigger] call_ensures(
            B::embed,
            (b, memory, t),
            (after, Ok::<Vec<B::Embedding>, String>(v)),
        ) ==> {
            &&& v@.len() == t@.len()
            &&& forall|i: int| 0 <= i < t@.len() ==> #[trigger] v@[i] == (mean.model)(t@[i]@)
        }
}

/// A sealed vector is a sealing of the vector that was handed to the cipher.
pub open spec fn seals_vectors<B: RagBackend>(b: &B, mean: Meaning<B>) -> bool {
    &&& forall|c: &B::Cipher, x: &B::Embedding, next: B::Cipher, sealed: B::SealedEmbedding|
        #[trigger] call_ensures(
            B::encrypt_document,
            (b, c, x),
            (next, Ok::<B::SealedEmbedding, String>(sealed)),
        ) ==> (mean.stored)(sealed) == *x
    &&& forall|c: &B::Cipher, x: &B::Embedding, next: B::Cipher, sealed: B::SealedEmbedding|
        #[trigger] call_ensures(
            B::encrypt_query,
            (b, c, x),
            (next, Ok::<B::SealedEmbedding, String>(sealed)),
        ) ==> (mean.asked)(sealed) == *x
}

/// What was found are at most `top_k` items, each with the score of its vector, best first.
pub open spec fn is_ranking<B: RagBackend>(
    mean: Meaning<B>,
    query: B::Embedding,
    top_k: usize,
    found: Seq<(B::SealedChunk, B::SealedEmbedding, B::Score)>,
) -> bool {
    &&& found.len() <= top_k
    &&& forall|i: int|
        0 <= i < found.len() ==> (#[trigger] found[i]).2 == (mean.fit)(
            query,
            (mean.stored)(found[i].1),
        )
    &&& forall|i: int, j: int|
        0 <= i <= j < found.len() ==> (mean.no_worse)(
            (#[trigger] found[i]).2,
            (#[trigger] found[j]).2,
        )
}

/// A search ranks what it finds.
pub open spec fn ranks<B: RagBackend>(b: &B, mean: Meaning<B>) -> bool {
    forall|
        ix: &B::Index,
        query: &B::SealedEmbedding,
        top_k: usize,
        found: Vec<(B::SealedChunk, B::SealedEmbedding, B::Score)>,
    |
        #[trigger] call_ensures(B::search, (b, ix, query, top_k), found) ==> is_ranking(
            mean,
            (mean.asked)(*query),
            top_k,
            found@,
        )
}

/// The vector was sealed to be stored.
pub open spec fn is_sealing<B: RagBackend>(
    b: &B,
    vector: B::Embedding,
    sealed: B::SealedEmbedding,
) -> bool {
    exists|c: &B::Cipher, next: B::Cipher|
        #[trigger] call_ensures(
            B::encrypt_document,
            (b, c, &vector),
            (next, Ok::<B::SealedEmbedding, String>(sealed)),
        )
}

/// A pair is a chunk and a vector, each sealed.
pub open spec fn is_pair<B: RagBackend>(
    b: &B,
    key: &B::ChunkKey,
    chunk: DocumentChunk,
    vector: B::Embedding,
    pair: (B::SealedChunk, B::SealedEmbedding),
) -> bool {
    &&& call_ensures(
        B::encrypt_chunk,
        (b, key, &chunk),
        Ok::<B::SealedChunk, String>(pair.0),
    )
    &&& is_sealing(b, vector, pair.1)
}

/// The index has taken `m` pairs more, of which the `i`-th is the `i`-th chunk with the `i`-th
/// vector; what it held before is untouched.
pub open spec fn adds_pairs<B: RagBackend>(
    b: &B,
    key: &B::ChunkKey,
    before: Seq<(B::SealedChunk, B::SealedEmbedding)>,
    after: Seq<(B::SealedChunk, B::SealedEmbedding)>,
    chunks: Seq<DocumentChunk>,
    vectors: Seq<B::Embedding>,
    m: nat,
) -> bool {
    &&& after.len() == before.len() + m
    &&& forall|j: int| 0 <= j < before.len() ==> #[trigger] after[j] == before[j]
    &&& forall|i: int|
        #![trigger chunks[i]]
        0 <= i < m ==> is_pair(b, key, chunks[i], vectors[i], after[before.len() + i])
}

proof fn lemma_pairs_grow<B: RagBackend>(
    b: &B,
    key: &B::ChunkKey,
    held: spec_fn(B::Index) -> Seq<(B::SealedChunk, B::SealedEmbedding)>,
    chunks: Seq<DocumentChunk>,
    embeddings: Seq<B::Embedding>,
    vectors: Seq<B::SealedEmbedding>,
    sealed: Seq<B::SealedChunk>,
    states: Seq<B::Index>,
    m: nat,
)
    requires
        retrieval::keeps(b, held),
        vectors.len() >= m,
        sealed.len() >= m,
        states.len() > m,
        forall|i: int|
            #![trigger vectors[i]]
            0 <= i < m ==> {
                &&& is_sealing(b, embeddings[i], vectors[i])
                &&& call_ensures(
                    B::encrypt_chunk,
                    (b, key, &chunks[i]),
                    Ok::<B::SealedChunk, String>(sealed[i]),
                )
                &&& call_ensures(B::inserted, (b, states[i], sealed[i], vectors[i]), states[i + 1])
            },
    ensures
        adds_pairs(b, key, held(states[0]), held(states[m as int]), chunks, embeddings, m),
    decreases m,
{
    if m > 0 {
        let k = m - 1;
        lemma_pairs_grow(
            b,
            key,
            held,
            chunks,
            embeddings,
            vectors,
            sealed,
            states,
            k as nat,
        );
        let (first, before, after) = (held(states[0]), held(states[k]), held(states[k + 1]));
        assert(vectors[k] == vectors[k]);
        assert(after == before.push((sealed[k], vectors[k])));
        assert forall|i: int| #![trigger chunks[i]] 0 <= i < m implies is_pair(
            b,
            key,
            chunks[i],
            embeddings[i],
            after[first.len() + i],
        ) by {
            if i < k {
                assert(after[first.len() + i] == before[first.len() + i]);
            }
        }
        assert forall|j: int| 0 <= j < first.len() implies #[trigger] after[j] == first[j] by {
            assert(before[j] == first[j]);
        }
    }
}

proof fn lemma_first_are_paired<B: RagBackend>(
    b: &B,
    cipher: B::Cipher,
    key: &B::ChunkKey,
    held: spec_fn(B::Index) -> Seq<(B::SealedChunk, B::SealedEmbedding)>,
    chunks: Seq<DocumentChunk>,
    embeddings: Seq<B::Embedding>,
    m: nat,
    start: B::Index,
    end: B::Index,
    after: B::Cipher,
)
    requires
        retrieval::keeps(b, held),
        service::stored_first(b, cipher, key, chunks, embeddings, m, start, end, after),
    ensures
        adds_pairs(b, key, held(start), held(end), chunks, embeddings, m),
{
    let (vectors, sealed, states, ciphers) = choose|
        vectors: Seq<B::SealedEmbedding>,
        sealed: Seq<B::SealedChunk>,
        states: Seq<B::Index>,
        ciphers: Seq<B::Cipher>,
    |
        {
            &&& #[trigger] vectors.len() == m
            &&& #[trigger] sealed.len() == m
            &&& #[trigger] states.len() == m + 1
            &&& #[trigger] ciphers.len() == m + 1
            &&& states[0] == start
            &&& states.last() == end
            &&& forall|i: int|
                #![trigger vectors[i]]
                0 <= i < m ==> {
                    &&& call_ensures(
                        B::encrypt_document,
                        (b, &ciphers[i], &embeddings[i]),
                        (ciphers[i + 1], Ok::<B::SealedEmbedding, String>(vectors[i])),
                    )
                    &&& call_ensures(
                        B::encrypt_chunk,
                        (b, key, &chunks[i]),
                        Ok::<B::SealedChunk, String>(sealed[i]),
                    )
                    &&& call_ensures(
                        B::inserted,
                        (b, states[i], sealed[i], vectors[i]),
                        states[i + 1],
                    )
                }
        };
    lemma_pairs_grow(b, key, held, chunks, embeddings, vectors, sealed, states, m);
}

/// The error is what the backend said to sealing this vector, or this chunk.
pub open spec fn is_refusal<B: RagBackend>(
    b: &B,
    key: &B::ChunkKey,
    chunk: DocumentChunk,
    vector: B::Embedding,
    e: String,
) -> bool {
    ||| exists|c: &B::Cipher, next: B::Cipher|
        #[trigger] call_ensures(
            B::encrypt_document,
            (b, c, &vector),
            (next, Err::<B::SealedEmbedding, String>(e)),
        )
    ||| call_ensures(B::encrypt_chunk, (b, key, &chunk), Err::<B::SealedChunk, String>(e))
}

/// Storing adds to the index pairs of one chunk and one vector, in order: the `i`-th new pair is
/// the `i`-th chunk sealed together with the `i`-th vector sealed. On success there is a pair
/// for as many chunks as have a vector, after a failure for those before the failing one, and the
/// error is the one that the failing one was met with.
pub proof fn law_chunks_are_stored_with_their_vectors<B: RagBackend>(
    b: &B,
    cipher: B::Cipher,
    key: &B::ChunkKey,
    held: spec_fn(B::Index) -> Seq<(B::SealedChunk, B::SealedEmbedding)>,
    chunks: Seq<DocumentChunk>,
    embeddings: Seq<B::Embedding>,
    start: B::Index,
    end: B::Index,
    after: B::Cipher,
    r: Result<(), String>,
) -> (m: nat)
    requires
        retrieval::keeps(b, held),
        service::stored(b, cipher, key, chunks, embeddings, start, end, after, r),
    ensures
        adds_pairs(b, key, held(start), held(end), chunks, embeddings, m),
        m <= chunks.len(),
        m <= embeddings.len(),
        r is Ok ==> m == chunks.len() || m == embeddings.len(),
        r matches Err(e) ==> m < chunks.len() && m < embeddings.len() && is_refusal(
            b,
            key,
            chunks[m as int],
            embeddings[m as int],
            e,
        ),
{
    let n = service::paired(chunks.len(), embeddings.len());
    match r {
        Ok(_) => {
            lemma_first_are_paired(
                b,
                cipher,
                key,
                held,
                chunks,
                embeddings,
                n,
                start,
                end,
                after,
            );
            n
        },
        Err(e) => {
            let (m, at) = choose|m: nat, at: B::Cipher|
                {
                    &&& m < n
                    &&& #[trigger] service::stored_first(
                        b,
                        cipher,
                        key,
                        chunks,
                        embeddings,
                        m,
                        start,
                        end,
                        at,
                    )
                    &&& service::sealing_fails(
                        b,
                        at,
                        key,
                        chunks[m as int],
                        embeddings[m as int],
                        after,
                        e,
                    )
                };
            lemma_first_are_paired(b, cipher, key, held, chunks, embeddings, m, start, end, at);
            let vector = choose|vector: Result<B::SealedEmbedding, String>|
                {
                    &&& #[trigger] call_ensures(
                        B::encrypt_document,
                        (b, &at, &embeddings[m as int]),
                        (after, vector),
                    )
                    &&& match vector {
                        Err(f) => e == f,
                        Ok(_) => call_ensures(
                            B::encrypt_chunk,
                            (b, key, &chunks[m as int]),
                            Err::<B::SealedChunk, String>(e),
                        ),
                    }
                };
            m
        },
    }
}

/// Every chunk has been added, in order, each sealed under the key beside a sealing of the
/// model's vector for its own text.
pub open spec fn adds_chunks<B: RagBackend>(
    b: &B,
    mean: Meaning<B>,
    key: &B::ChunkKey,
    before: Seq<(B::SealedChunk, B::SealedEmbedding)>,
    after: Seq<(B::SealedChunk, B::SealedEmbedding)>,
    chunks: Seq<DocumentChunk>,
) -> bool {
    &&& after.len() == before.len() + chunks.len()
    &&& forall|j: int| 0 <= j < before.len() ==> #[trigger] after[j] == before[j]
    &&& forall|i: int|
        #![trigger chunks[i]]
        0 <= i < chunks.len() ==> {
            let pair = after[before.len() + i];
            &&& call_ensures(
                B::encrypt_chunk,
                (b, key, &chunks[i]),
                Ok::<B::SealedChunk, String>(pair.0),
            )
            &&& (mean.stored)(pair.1) == (mean.model)(chunks[i].text@)
        }
}

proof fn lemma_ingest_adds<B: RagBackend>(
    b: &B,
    mean: Meaning<B>,
    memory: B::Memory,
    memory_after: B::Memory,
    cipher: B::Cipher,
    key: &B::ChunkKey,
    chunks: Seq<DocumentChunk>,
    v: Vec<B::Embedding>,
    start: B::Index,
    end: B::Index,
    used: B::Cipher,
)
    requires
        retrieval::keeps(b, mean.held),
        models(b, mean),
        seals_vectors(b, mean),
        service::embeds(
            b,
            memory,
            service::texts_of(chunks),
            memory_after,
            Ok::<Vec<B::Embedding>, String>(v),
        ),
        service::stored(b, cipher, key, chunks, v@, start, end, used, Ok::<(), String>(())),
    ensures
        adds_chunks(b, mean, key, (mean.held)(start), (mean.held)(end), chunks),
{
    let texts = service::texts_of(chunks);
    let t = choose|t: &Vec<String>|
        {
            &&& #[trigger] call_ensures(
                B::embed,
                (b, &memory, t),
                (memory_after, Ok::<Vec<B::Embedding>, String>(v)),
            )
            &&& t@.len() == texts.len()
            &&& forall|i: int| 0 <= i < texts.len() ==> (#[trigger] t@[i])@ == texts[i]
        };
    let m = law_chunks_are_stored_with_their_vectors(
        b,
        cipher,
        key,
        mean.held,
        chunks,
        v@,
        start,
        end,
        used,
        Ok::<(), String>(()),
    );
    let (before, after) = ((mean.held)(start), (mean.held)(end));
    assert forall|i: int| #![trigger chunks[i]] 0 <= i < chunks.len() implies {
        let pair = after[before.len() + i];
        &&& call_ensures(
            B::encrypt_chunk,
            (b, key, &chunks[i]),
            Ok::<B::SealedChunk, String>(pair.0),
        )
        &&& (mean.stored)(pair.1) == (mean.model)(chunks[i].text@)
    } by {
        let pair = after[before.len() + i];
        assert(is_pair(b, key, chunks[i], v@[i], pair));
        let (c, next) = choose|c: &B::Cipher, next: B::Cipher|
            #[trigger] call_ensures(
                B::encrypt_document,
                (b, c, &v@[i]),
                (next, Ok::<B::SealedEmbedding, String>(pair.1)),
            );
        assert((mean.stored)(pair.1) == v@[i]);
        assert(t@[i]@ == texts[i]);
        assert(v@[i] == (mean.model)(t@[i]@));
    }
}

/// After an owner's chunks have been taken in, the index holds what it held before and, in
/// order, every chunk beside the vector of its own text.
pub proof fn law_ingest_keeps_chunks_with_their_vectors<B: RagBackend>(
    start: Holdings<B>,
    mean: Meaning<B>,
    chunks: Seq<DocumentChunk>,
    end: Holdings<B>,
)
    requires
        retrieval::keeps(&start.backend, mean.held),
        models(&start.backend, mean),
        seals_vectors(&start.backend, mean),
        start.ingested(chunks, end, Ok::<(), String>(())),
    ensures
        adds_chunks(
            &start.backend,
            mean,
            &start.key,
            (mean.held)(start.index),
            (mean.held)(end.index),
            chunks,
        ),
        end.backend == start.backend,
        end.key == start.key,
{
    let vectors = choose|vectors: Result<Vec<B::Embedding>, String>|
        {
            &&& #[trigger] service::embeds(
                &start.backend,
                start.memory,
                service::texts_of(chunks),
                end.memory,
                vectors,
            )
            &&& match vectors {
                Err(e) => false,
                Ok(v) => service::stored(
                    &start.backend,
                    start.cipher,
                    &start.key,
                    chunks,
                    v@,
                    start.index,
                    end.index,
                    end.cipher,
                    Ok::<(), String>(()),
                ),
            }
        };
    lemma_ingest_adds(
        &start.backend,
        mean,
        start.memory,
        end.memory,
        start.cipher,
        &start.key,
        chunks,
        vectors->Ok_0,
        start.index,
        end.index,
        end.cipher,
    );
}

/// What a tenant has stored, nothing where there is no index.
pub open spec fn held_of<B: RagBackend>(st: State<B>, mean: Meaning<B>, name: Seq<char>) -> Seq<
    (B::SealedChunk, B::SealedEmbedding),
> {
    if st.indices.contains_key(name) {
        (mean.held)(st.indices[name])
    } else {
        seq![]
    }
}

/// After a tenant's chunks have been taken in, the tenant's index holds what it held before and,
/// in order, every chunk beside the vector of its own text, sealed under a key that was derived
/// from the tenant's secret and the service's secret for that tenant.
pub proof fn law_tenant_chunks_keep_their_vectors<B: RagBackend>(
    st: State<B>,
    mean: Meaning<B>,
    name: String,
    user_secret: Secret,
    chunks: Seq<DocumentChunk>,
    after: State<B>,
) -> (keys: (B::Cipher, B::ChunkKey))
    requires
        retrieval::keeps(&st.backend, mean.held),
        models(&st.backend, mean),
        seals_vectors(&st.backend, mean),
        st.ingested(name, user_secret, chunks, after, Ok::<(), TwoPartyError>(())),
    ensures
        call_ensures(
            B::derive_keys,
            (
                &st.backend,
                st.policy,
                st.params,
                &user_secret,
                &st.secrets[name@],
                &name,
            ),
            keys,
        ),
        adds_chunks(
            &st.backend,
            mean,
            &keys.1,
            held_of(st, mean, name@),
            held_of(after, mean, name@),
            chunks,
        ),
{
    let b = &st.backend;
    let (keys, vectors) = choose|
        keys: (B::Cipher, B::ChunkKey),
        vectors: Result<Vec<B::Embedding>, String>,
    |
        {
            &&& #[trigger] st.derives(user_secret, st.secrets[name@], name, keys)
            &&& #[trigger] service::embeds(
                b,
                st.memory,
                service::texts_of(chunks),
                after.memory,
                vectors,
            )
            &&& match vectors {
                Err(e) => false,
                Ok(v) => {
                    &&& after == (State {
                        memory: after.memory,
                        indices: st.indices.insert(name@, after.indices[name@]),
                        ..st
                    })
                    &&& exists|start: B::Index, used: B::Cipher|
                        {
                            &&& st.starts_from(name@, start)
                            &&& #[trigger] service::stored(
                                b,
                                keys.0,
                                &keys.1,
                                chunks,
                                v@,
                                start,
                                after.indices[name@],
                                used,
                                Ok::<(), String>(()),
                            )
                        }
                },
            }
        };
    let v = vectors->Ok_0;
    let end = after.indices[name@];
    let (start, used) = choose|start: B::Index, used: B::Cipher|
        {
            &&& st.starts_from(name@, start)
            &&& #[trigger] service::stored(
                b,
                keys.0,
                &keys.1,
                chunks,
                v@,
                start,
                end,
                used,
                Ok::<(), String>(()),
            )
        };
    lemma_ingest_adds(
        b,
        mean,
        st.memory,
        after.memory,
        keys.0,
        &keys.1,
        chunks,
        v,
        start,
        end,
        used,
    );
    assert(after.indices.contains_key(name@));
    assert((mean.held)(start) =~= held_of(st, mean, name@));
    keys
}

/// Every pair that is held is a chunk, sealed under this key, beside the vector of its own text.
pub open spec fn is_matched<B: RagBackend>(
    b: &B,
    mean: Meaning<B>,
    key: &B::ChunkKey,
    held: Seq<(B::SealedChunk, B::SealedEmbedding)>,
) -> bool {
    forall|j: int|
        0 <= j < held.len() ==> holds_own_vector(b, mean, key, #[trigger] held[j])
}

/// A pair is a chunk, sealed under this key, beside the vector of its own text.
pub open spec fn holds_own_vector<B: RagBackend>(
    b: &B,
    mean: Meaning<B>,
    key: &B::ChunkKey,
    pair: (B::SealedChunk, B::SealedEmbedding),
) -> bool {
    exists|chunk: &DocumentChunk|
        {
            &&& #[trigger] call_ensures(
                B::encrypt_chunk,
                (b, key, chunk),
                Ok::<B::SealedChunk, String>(pair.0),
            )
            &&& (mean.stored)(pair.1) == (mean.model)(chunk.text@)
        }
}

/// Taking chunks in keeps every pair matched.
pub proof fn law_ingest_keeps_pairs_matched<B: RagBackend>(
    b: &B,
    mean: Meaning<B>,
    key: &B::ChunkKey,
    before: Seq<(B::SealedChunk, B::SealedEmbedding)>,
    after: Seq<(B::SealedChunk, B::SealedEmbedding)>,
    chunks: Seq<DocumentChunk>,
)
    requires
        is_matched(b, mean, key, before),
        adds_chunks(b, mean, key, before, after, chunks),
    ensures
        is_matched(b, mean, key, after),
{
    assert forall|j: int| 0 <= j < after.len() implies holds_own_vector(
        b,
        mean,
        key,
        #[trigger] after[j],
    ) by {
        if j < before.len() {
            assert(after[j] == before[j]);
        } else {
            let i = j - before.len();
            let chunk = &chunks[i];
            assert(call_ensures(
                B::encrypt_chunk,
                (b, key, chunk),
                Ok::<B::SealedChunk, String>(after[j].0),
            ));
        }
    }
}

/// What a hit says: its score is that of its vector for the query, and its vector is that of its
/// own text.
pub open spec fn is_honest_hit<B: RagBackend>(
    mean: Meaning<B>,
    text: Seq<char>,
    hit: RetrievalHit<B::Score, B::SealedEmbedding>,
) -> bool {
    &&& hit.score == (mean.fit)((mean.model)(text), (mean.model)(hit.text@))
    &&& (mean.stored)(hit.embedding) == (mean.model)(hit.text@)
}

/// A query finds at most as many chunks as were asked for, best first. The score of each hit is
/// that of the vector of its own text for the vector of the query's text.
pub proof fn law_hits_are_ranked_for_the_query<B: RagBackend>(
    b: &B,
    mean: Meaning<B>,
    memory: B::Memory,
    cipher: B::Cipher,
    key: &B::ChunkKey,
    ix: B::Index,
    text: Seq<char>,
    top_k: usize,
    memory_after: B::Memory,
    cipher_after: B::Cipher,
    hits: Vec<RetrievalHit<B::Score, B::SealedEmbedding>>,
)
    requires
        retrieval::keeps(b, mean.held),
        retrieval::opens(b, key),
        models(b, mean),
        seals_vectors(b, mean),
        ranks(b, mean),
        is_matched(b, mean, key, (mean.held)(ix)),
        service::answered(
            b,
            memory,
            cipher,
            key,
            Some(ix),
            text,
            top_k,
            memory_after,
            cipher_after,
            Ok::<Vec<RetrievalHit<B::Score, B::SealedEmbedding>>, String>(hits),
        ),
    ensures
        hits@.len() <= top_k,
        forall|i: int| 0 <= i < hits@.len() ==> is_honest_hit(mean, text, #[trigger] hits@[i]),
        forall|i: int, j: int|
            0 <= i <= j < hits@.len() ==> (mean.no_worse)(
                (#[trigger] hits@[i]).score,
                (#[trigger] hits@[j]).score,
            ),
{
    let r = Ok::<Vec<RetrievalHit<B::Score, B::SealedEmbedding>>, String>(hits);
    let vectors = choose|vectors: Result<Vec<B::Embedding>, String>|
        {
            &&& #[trigger] service::embeds(b, memory, seq![text], memory_after, vectors)
            &&& match vectors {
                Err(e) => false,
                Ok(v) => v@.len() > 0 && service::searched(
                    b,
                    cipher,
                    key,
                    Some(ix),
                    v@[0],
                    top_k,
                    cipher_after,
                    r,
                ),
            }
        };
    let v = vectors->Ok_0;
    let t = choose|t: &Vec<String>|
        {
            &&& #[trigger] call_ensures(B::embed, (b, &memory, t), (memory_after, vectors))
            &&& t@.len() == 1
            &&& forall|i: int| 0 <= i < 1 ==> (#[trigger] t@[i])@ == seq![text][i]
        };
    assert(t@[0]@ == text);
    assert(v@[0] == (mean.model)(text));
    let query = choose|query: Result<B::SealedEmbedding, String>|
        {
            &&& #[trigger] call_ensures(
                B::encrypt_query,
                (b, &cipher, &v@[0]),
                (cipher_after, query),
            )
            &&& match query {
                Err(e) => false,
                Ok(q) => exists|found: Vec<(B::SealedChunk, B::SealedEmbedding, B::Score)>|
                    {
                        &&& #[trigger] call_ensures(B::search, (b, &ix, &q, top_k), found)
                        &&& service::opened(b, key, found@, r)
                    },
            }
        };
    let q = query->Ok_0;
    let found = choose|found: Vec<(B::SealedChunk, B::SealedEmbedding, B::Score)>|
        {
            &&& #[trigger] call_ensures(B::search, (b, &ix, &q, top_k), found)
            &&& service::opened(b, key, found@, r)
        };
    assert((mean.asked)(q) == (mean.model)(text));
    assert(is_ranking(mean, (mean.model)(text), top_k, found@));
    let held = (mean.held)(ix);
    assert(retrieval::all_held::<B>(held, found@));
    assert forall|i: int| 0 <= i < hits@.len() implies is_honest_hit(
        mean,
        text,
        #[trigger] hits@[i],
    ) by {
        let hit = hits@[i];
        let pair = (found@[i].0, found@[i].1);
        assert(held.contains(pair));
        let j = choose|j: int| 0 <= j < held.len() && held[j] == pair;
        assert(holds_own_vector(b, mean, key, held[j]));
        let chunk = choose|chunk: &DocumentChunk|
            {
                &&& #[trigger] call_ensures(
                    B::encrypt_chunk,
                    (b, key, chunk),
                    Ok::<B::SealedChunk, String>(pair.0),
                )
                &&& (mean.stored)(pair.1) == (mean.model)(chunk.text@)
            };
        let c = DocumentChunk { id: hit.id, text: hit.text };
        assert(retrieval::opened_as(b, key, chunk, &found@[i].0, Ok::<DocumentChunk, String>(c)));
    }
    assert forall|i: int, j: int| 0 <= i <= j < hits@.len() implies (mean.no_worse)(
        (#[trigger] hits@[i]).score,
        (#[trigger] hits@[j]).score,
    ) by {
        assert((mean.no_worse)(found@[i].2, found@[j].2));
    }
}

/// The same of a tenant's query, on the tenant's own index, with keys that were derived from the
/// tenant's secret and the service's secret for that tenant.
pub proof fn law_tenant_hits_are_ranked<B: RagBackend>(
    st: State<B>,
    mean: Meaning<B>,
    name: String,
    user_secret: Secret,
    text: Seq<char>,
    top_k: usize,
    after: State<B>,
    hits: Vec<RetrievalHit<B::Score, B::SealedEmbedding>>,
) -> (keys: (B::Cipher, B::ChunkKey))
    requires
        retrieval::keeps(&st.backend, mean.held),
        models(&st.backend, mean),
        seals_vectors(&st.backend, mean),
        ranks(&st.backend, mean),
        forall|k: (B::Cipher, B::ChunkKey)|
            #[trigger] call_ensures(
                B::derive_keys,
                (
                    &st.backend,
                    st.policy,
                    st.params,
                    &user_secret,
                    &st.secrets[name@],
                    &name,
                ),
                k,
            ) ==> {
                &&& retrieval::opens(&st.backend, &k.1)
                &&& is_matched(&st.backend, mean, &k.1, held_of(st, mean, name@))
            },
        st.queried(
            name,
            user_secret,
            text,
            top_k,
            after,
            Ok::<Vec<RetrievalHit<B::Score, B::SealedEmbedding>>, TwoPartyError>(hits),
        ),
    ensures
        hits@.len() <= top_k,
        !st.indices.contains_key(name@) ==> hits@.len() == 0,
        forall|i: int| 0 <= i < hits@.len() ==> is_honest_hit(mean, text, #[trigger] hits@[i]),
        forall|i: int, j: int|
            0 <= i <= j < hits@.len() ==> (mean.no_worse)(
                (#[trigger] hits@[i]).score,
                (#[trigger] hits@[j]).score,
            ),
        forall|i: int|
            0 <= i < hits@.len() ==> is_opened_pair(
                &st.backend,
                &keys.1,
                held_of(st, mean, name@),
                #[trigger] hits@[i],
            ),
        call_ensures(
            B::derive_keys,
            (
                &st.backend,
                st.policy,
                st.params,
                &user_secret,
                &st.secrets[name@],
                &name,
            ),
            keys,
        ),
{
    let b = &st.backend;
    let r = Ok::<Vec<RetrievalHit<B::Score, B::SealedEmbedding>>, String>(hits);
    let (keys, used) = choose|keys: (B::Cipher, B::ChunkKey), used: B::Cipher|
        {
            &&& #[trigger] st.derives(user_secret, st.secrets[name@], name, keys)
            &&& after == (State { memory: after.memory, ..st })
            &&& #[trigger] service::answered(
                b,
                st.memory,
                keys.0,
                &keys.1,
                st.index_of(name@),
                text,
                top_k,
                after.memory,
                used,
                r,
            )
        };
    if st.indices.contains_key(name@) {
        let ix = st.indices[name@];
        law_hits_are_ranked_for_the_query(
            b,
            mean,
            st.memory,
            keys.0,
            &keys.1,
            ix,
            text,
            top_k,
            after.memory,
            used,
            hits,
        );
        lemma_hits_open(
            b,
            mean.held,
            st.memory,
            keys.0,
            &keys.1,
            ix,
            text,
            top_k,
            after.memory,
            used,
            hits,
        );
    }
    keys
}

/// A hit is one of the pairs held: the chunk opened under the key, the vector as it is stored.
pub open spec fn is_opened_pair<B: RagBackend>(
    b: &B,
    key: &B::ChunkKey,
    held: Seq<(B::SealedChunk, B::SealedEmbedding)>,
    hit: RetrievalHit<B::Score, B::SealedEmbedding>,
) -> bool {
    exists|j: int|
        {
            &&& 0 <= j < held.len()
            &&& (#[trigger] held[j]).1 == hit.embedding
            &&& call_ensures(
                B::decrypt_chunk,
                (b, key, &held[j].0),
                Ok::<DocumentChunk, String>(DocumentChunk { id: hit.id, text: hit.text }),
            )
        }
}

proof fn lemma_hits_open<B: RagBackend>(
    b: &B,
    held: spec_fn(B::Index) -> Seq<(B::SealedChunk, B::SealedEmbedding)>,
    memory: B::Memory,
    cipher: B::Cipher,
    key: &B::ChunkKey,
    ix: B::Index,
    text: Seq<char>,
    top_k: usize,
    memory_after: B::Memory,
    cipher_after: B::Cipher,
    hits: Vec<RetrievalHit<B::Score, B::SealedEmbedding>>,
)
    requires
        retrieval::keeps(b, held),
        service::answered(
            b,
            memory,
            cipher,
            key,
            Some(ix),
            text,
            top_k,
            memory_after,
            cipher_after,
            Ok::<Vec<RetrievalHit<B::Score, B::SealedEmbedding>>, String>(hits),
        ),
    ensures
        forall|i: int|
            0 <= i < hits@.len() ==> is_opened_pair(b, key, held(ix), #[trigger] hits@[i]),
{
    let r = Ok::<Vec<RetrievalHit<B::Score, B::SealedEmbedding>>, String>(hits);
    let found = choose|found: Vec<(B::SealedChunk, B::SealedEmbedding, B::Score)>|
        retrieval::all_held::<B>(held(ix), found@) && #[trigger] service::opened(
            b,
            key,
            found@,
            r,
        );
    assert forall|i: int| 0 <= i < hits@.len() implies is_opened_pair(
        b,
        key,
        held(ix),
        #[trigger] hits@[i],
    ) by {
        let pair = (found@[i].0, found@[i].1);
        assert(held(ix).contains(pair));
        let all = held(ix);
        let j = choose|j: int| 0 <= j < all.len() && all[j] == pair;
        assert(held(ix)[j].1 == hits@[i].embedding);
    }
}

/// An owner's query finds at most as many chunks as were asked for, best first, each with the
/// score and the vector of its own text; it changes nothing that is stored.
pub proof fn law_owner_hits_are_ranked<B: RagBackend>(
    start: Holdings<B>,
    mean: Meaning<B>,
    text: Seq<char>,
    top_k: usize,
    end: Holdings<B>,
    hits: Vec<RetrievalHit<B::Score, B::SealedEmbedding>>,
)
    requires
        retrieval::keeps(&start.backend, mean.held),
        retrieval::opens(&start.backend, &start.key),
        models(&start.backend, mean),
        seals_vectors(&start.backend, mean),
        ranks(&start.backend, mean),
        is_matched(&start.backend, mean, &start.key, (mean.held)(start.index)),
        start.queried(
            text,
            top_k,
            end,
            Ok::<Vec<RetrievalHit<B::Score, B::SealedEmbedding>>, String>(hits),
        ),
    ensures
        hits@.len() <= top_k,
        forall|i: int| 0 <= i < hits@.len() ==> is_honest_hit(mean, text, #[trigger] hits@[i]),
        forall|i: int, j: int|
            0 <= i <= j < hits@.len() ==> (mean.no_worse)(
                (#[trigger] hits@[i]).score,
                (#[trigger] hits@[j]).score,
            ),
        forall|i: int|
            0 <= i < hits@.len() ==> is_opened_pair(
                &start.backend,
                &start.key,
                (mean.held)(start.index),
                #[trigger] hits@[i],
            ),
        end.index == start.index,
        end.key == start.key,
{
    law_hits_are_ranked_for_the_query(
        &start.backend,
        mean,
        start.memory,
        start.cipher,
        &start.key,
        start.index,
        text,
        top_k,
        end.memory,
        end.cipher,
        hits,
    );
    lemma_hits_open(
        &start.backend,
        mean.held,
        start.memory,
        start.cipher,
        &start.key,
        start.index,
        text,
        top_k,
        end.memory,
        end.cipher,
        hits,
    );
}

/// The model fails on every list of texts.
pub open spec fn never_models<B: RagBackend>(b: &B) -> bool {
    forall|memory: &B::Memory, t: &Vec<String>, after: B::Memory, v: Vec<B::Embedding>|
        !(#[trigger] call_ensures(
            B::embed,
            (b, memory, t),
            (after, Ok::<Vec<B::Embedding>, String>(v)),
        ))
}

/// Where the model fails, taking chunks in fails and stores nothing, for an owner and for a
/// tenant, and so does every query.
pub proof fn law_failing_model_stores_nothing<B: RagBackend>(
    start: Holdings<B>,
    end: Holdings<B>,
    st: State<B>,
    after: State<B>,
    name: String,
    user_secret: Secret,
    chunks: Seq<DocumentChunk>,
    text: Seq<char>,
    top_k: usize,
    r: Result<(), String>,
    tr: Result<(), TwoPartyError>,
    hits: Result<Vec<RetrievalHit<B::Score, B::SealedEmbedding>>, String>,
)
    ensures
        never_models(&start.backend) && start.ingested(chunks, end, r) ==> r is Err && end.index
            == start.index && end.cipher == start.cipher,
        never_models(&st.backend) && st.ingested(name, user_secret, chunks, after, tr) ==> tr is Err
            && after.indices == st.indices,
        never_models(&start.backend) && start.queried(text, top_k, end, hits) ==> hits is Err,
{
}

/// The backend refuses nothing: the model answers every list of texts, and everything can be
/// sealed.
pub open spec fn never_refuses<B: RagBackend>(b: &B) -> bool {
    &&& forall|memory: &B::Memory, t: &Vec<String>, after: B::Memory, e: String|
        !(#[trigger] call_ensures(
            B::embed,
            (b, memory, t),
            (after, Err::<Vec<B::Embedding>, String>(e)),
        ))
    &&& forall|c: &B::Cipher, x: &B::Embedding, next: B::Cipher, e: String|
        !(#[trigger] call_ensures(
            B::encrypt_document,
            (b, c, x),
            (next, Err::<B::SealedEmbedding, String>(e)),
        ))
    &&& forall|c: &B::Cipher, x: &B::Embedding, next: B::Cipher, e: String|
        !(#[trigger] call_ensures(
            B::encrypt_query,
            (b, c, x),
            (next, Err::<B::SealedEmbedding, String>(e)),
        ))
    &&& forall|key: &B::ChunkKey, chunk: &DocumentChunk, e: String|
        !(#[trigger] call_ensures(
            B::encrypt_chunk,
            (b, key, chunk),
            Err::<B::SealedChunk, String>(e),
        ))
}

proof fn lemma_storing_succeeds<B: RagBackend>(
    b: &B,
    cipher: B::Cipher,
    key: &B::ChunkKey,
    held: spec_fn(B::Index) -> Seq<(B::SealedChunk, B::SealedEmbedding)>,
    chunks: Seq<DocumentChunk>,
    embeddings: Seq<B::Embedding>,
    start: B::Index,
    end: B::Index,
    after: B::Cipher,
    r: Result<(), String>,
)
    requires
        retrieval::keeps(b, held),
        never_refuses(b),
        service::stored(b, cipher, key, chunks, embeddings, start, end, after, r),
    ensures
        r is Ok,
{
    let m = law_chunks_are_stored_with_their_vectors(
        b,
        cipher,
        key,
        held,
        chunks,
        embeddings,
        start,
        end,
        after,
        r,
    );
    if let Err(e) = r {
        let (x, c) = (embeddings[m as int], chunks[m as int]);
        assert(is_refusal(b, key, c, x, e));
        assert(!call_ensures(B::encrypt_chunk, (b, key, &c), Err::<B::SealedChunk, String>(e)));
    }
}

/// With a backend that refuses nothing, taking chunks in succeeds, for an owner and for a tenant.
pub proof fn law_ingest_succeeds<B: RagBackend>(
    start: Holdings<B>,
    end: Holdings<B>,
    st: State<B>,
    after: State<B>,
    held: spec_fn(B::Index) -> Seq<(B::SealedChunk, B::SealedEmbedding)>,
    name: String,
    user_secret: Secret,
    chunks: Seq<DocumentChunk>,
    r: Result<(), String>,
    tr: Result<(), TwoPartyError>,
)
    requires
        start.backend == st.backend,
        retrieval::keeps(&st.backend, held),
        never_refuses(&st.backend),
    ensures
        start.ingested(chunks, end, r) ==> r is Ok,
        st.ingested(name, user_secret, chunks, after, tr) ==> tr is Ok,
{
    let b = &st.backend;
    if start.ingested(chunks, end, r) {
        let v = choose|v: Vec<B::Embedding>| #[trigger]
            service::stored(
                b,
                start.cipher,
                &start.key,
                chunks,
                v@,
                start.index,
                end.index,
                end.cipher,
                r,
            );
        lemma_storing_succeeds(
            b,
            start.cipher,
            &start.key,
            held,
            chunks,
            v@,
            start.index,
            end.index,
            end.cipher,
            r,
        );
    }
    if st.ingested(name, user_secret, chunks, after, tr) {
        let end = after.indices[name@];
        let (keys, v, from, used) = choose|
            keys: (B::Cipher, B::ChunkKey),
            v: Vec<B::Embedding>,
            from: B::Index,
            used: B::Cipher,
        |
            #[trigger] service::stored(
                b,
                keys.0,
                &keys.1,
                chunks,
                v@,
                from,
                end,
                used,
                two_party_service::inner_of(tr),
            );
        lemma_storing_succeeds(
            b,
            keys.0,
            &keys.1,
            held,
            chunks,
            v@,
            from,
            end,
            used,
            two_party_service::inner_of(tr),
        );
    }
}

/// With a backend that refuses nothing, and a key that opens what is held, a query succeeds;
/// without an index it finds nothing.
pub proof fn law_query_succeeds<B: RagBackend>(
    b: &B,
    mean: Meaning<B>,
    memory: B::Memory,
    cipher: B::Cipher,
    key: &B::ChunkKey,
    index: Option<B::Index>,
    text: Seq<char>,
    top_k: usize,
    memory_after: B::Memory,
    cipher_after: B::Cipher,
    r: Result<Vec<RetrievalHit<B::Score, B::SealedEmbedding>>, String>,
)
    requires
        retrieval::keeps(b, mean.held),
        retrieval::opens(b, key),
        models(b, mean),
        never_refuses(b),
        index matches Some(ix) ==> is_matched(b, mean, key, (mean.held)(ix)),
        service::answered(
            b,
            memory,
            cipher,
            key,
            index,
            text,
            top_k,
            memory_after,
            cipher_after,
            r,
        ),
    ensures
        r is Ok,
        index is None ==> r->Ok_0@.len() == 0,
{
    let vectors = choose|vectors: Result<Vec<B::Embedding>, String>|
        {
            &&& #[trigger] service::embeds(b, memory, seq![text], memory_after, vectors)
            &&& match vectors {
                Err(e) => r == Err::<Vec<RetrievalHit<B::Score, B::SealedEmbedding>>, String>(e),
                Ok(v) => v@.len() == 0 || service::searched(
                    b,
                    cipher,
                    key,
                    index,
                    v@[0],
                    top_k,
                    cipher_after,
                    r,
                ),
            }
        };
    let t = choose|t: &Vec<String>|
        {
            &&& #[trigger] call_ensures(B::embed, (b, &memory, t), (memory_after, vectors))
            &&& t@.len() == 1
        };
    assert(vectors is Ok);
    let v = vectors->Ok_0;
    assert(v@.len() == 1);
    let query = choose|query: Result<B::SealedEmbedding, String>|
        {
            &&& #[trigger] call_ensures(
                B::encrypt_query,
                (b, &cipher, &v@[0]),
                (cipher_after, query),
            )
            &&& match query {
                Err(e) => r == Err::<Vec<RetrievalHit<B::Score, B::SealedEmbedding>>, String>(e),
                Ok(q) => match index {
                    None => r matches Ok(hits) && hits@.len() == 0,
                    Some(ix) => exists|found: Vec<(B::SealedChunk, B::SealedEmbedding, B::Score)>|
                        {
                            &&& #[trigger] call_ensures(B::search, (b, &ix, &q, top_k), found)
                            &&& service::opened(b, key, found@, r)
                        },
                },
            }
        };
    assert(query is Ok);
    if let Some(ix) = index {
        let q = query->Ok_0;
        let found = choose|found: Vec<(B::SealedChunk, B::SealedEmbedding, B::Score)>|
            {
                &&& #[trigger] call_ensures(B::search, (b, &ix, &q, top_k), found)
                &&& service::opened(b, key, found@, r)
            };
        let held = (mean.held)(ix);
        assert(retrieval::all_held::<B>(held, found@));
        if let Err(e) = r {
            let first = choose|first: Seq<DocumentChunk>|
                {
                    &&& #[trigger] first.len() < found@.len()
                    &&& call_ensures(
                        B::decrypt_chunk,
                        (b, key, &found@[first.len() as int].0),
                        Err::<DocumentChunk, String>(e),
                    )
                };
            let i = first.len() as int;
            let pair = (found@[i].0, found@[i].1);
            assert(held.contains(pair));
            let j = choose|j: int| 0 <= j < held.len() && held[j] == pair;
            assert(holds_own_vector(b, mean, key, held[j]));
            let chunk = choose|chunk: &DocumentChunk|
                #[trigger] call_ensures(
                    B::encrypt_chunk,
                    (b, key, chunk),
                    Ok::<B::SealedChunk, String>(pair.0),
                );
            assert(retrieval::opened_as(
                b,
                key,
                chunk,
                &found@[i].0,
                Err::<DocumentChunk, String>(e),
            ));
        }
    }
}

/// The first vector of a list is sealed by the cipher as it was, and the cipher that is left is
/// what the last sealing left.
pub open spec fn seals_in_turn<B: RagBackend>(
    b: &B,
    cipher: B::Cipher,
    vectors: Seq<B::Embedding>,
    m: nat,
    after: B::Cipher,
) -> bool {
    &&& exists|next: B::Cipher, sealed: B::SealedEmbedding|
        #[trigger] call_ensures(
            B::encrypt_document,
            (b, &cipher, &vectors[0]),
            (next, Ok::<B::SealedEmbedding, String>(sealed)),
        )
    &&& exists|c: &B::Cipher, sealed: B::SealedEmbedding|
        #[trigger] call_ensures(
            B::encrypt_document,
            (b, c, &vectors[m - 1]),
            (after, Ok::<B::SealedEmbedding, String>(sealed)),
        )
}

/// Storing uses the vector cipher from where it stands, and leaves it where the last sealing did;
/// with nothing to seal it stays as it was.
pub proof fn law_storing_moves_the_cipher_on<B: RagBackend>(
    b: &B,
    cipher: B::Cipher,
    key: &B::ChunkKey,
    chunks: Seq<DocumentChunk>,
    embeddings: Seq<B::Embedding>,
    start: B::Index,
    end: B::Index,
    after: B::Cipher,
)
    requires
        service::stored(
            b,
            cipher,
            key,
            chunks,
            embeddings,
            start,
            end,
            after,
            Ok::<(), String>(()),
        ),
    ensures
        chunks.len() == 0 || embeddings.len() == 0 ==> after == cipher && end == start,
        0 < chunks.len() <= embeddings.len() ==> seals_in_turn(
            b,
            cipher,
            embeddings,
            chunks.len(),
            after,
        ),
        0 < embeddings.len() <= chunks.len() ==> seals_in_turn(
            b,
            cipher,
            embeddings,
            embeddings.len(),
            after,
        ),
{
    let m = service::paired(chunks.len(), embeddings.len());
    let (vectors, sealed, states, ciphers) = choose|
        vectors: Seq<B::SealedEmbedding>,
        sealed: Seq<B::SealedChunk>,
        states: Seq<B::Index>,
        ciphers: Seq<B::Cipher>,
    |
        {
            &&& #[trigger] vectors.len() == m
            &&& #[trigger] sealed.len() == m
            &&& #[trigger] states.len() == m + 1
            &&& #[trigger] ciphers.len() == m + 1
            &&& states[0] == start
            &&& states.last() == end
            &&& ciphers[0] == cipher
            &&& ciphers.last() == after
            &&& forall|i: int|
                #![trigger vectors[i]]
                0 <= i < m ==> call_ensures(
                    B::encrypt_document,
                    (b, &ciphers[i], &embeddings[i]),
                    (ciphers[i + 1], Ok::<B::SealedEmbedding, String>(vectors[i])),
                )
        };
    if m > 0 {
        let last = vectors[m - 1];
        let c = &ciphers[m - 1];
        assert(call_ensures(
            B::encrypt_document,
            (b, &cipher, &embeddings[0]),
            (ciphers[1], Ok::<B::SealedEmbedding, String>(vectors[0])),
        ));
        assert(ciphers[m - 1 + 1] == after);
        assert(call_ensures(
            B::encrypt_document,
            (b, c, &embeddings[m - 1]),
            (after, Ok::<B::SealedEmbedding, String>(last)),
        ));
    }
}

/// A query is sealed by the cipher as it was, and leaves the cipher where that sealing did; the
/// model is left where its answer left it.
pub proof fn law_query_moves_the_cipher_on<B: RagBackend>(
    start: Holdings<B>,
    text: Seq<char>,
    top_k: usize,
    end: Holdings<B>,
    hits: Vec<RetrievalHit<B::Score, B::SealedEmbedding>>,
)
    requires
        start.queried(
            text,
            top_k,
            end,
            Ok::<Vec<RetrievalHit<B::Score, B::SealedEmbedding>>, String>(hits),
        ),
    ensures
        exists|t: &Vec<String>, v: Vec<B::Embedding>, q: B::SealedEmbedding|
            {
                &&& #[trigger] call_ensures(
                    B::embed,
                    (&start.backend, &start.memory, t),
                    (end.memory, Ok::<Vec<B::Embedding>, String>(v)),
                )
                &&& t@.len() == 1
                &&& t@[0]@ == text
                &&& v@.len() > 0
                &&& #[trigger] call_ensures(
                    B::encrypt_query,
                    (&start.backend, &start.cipher, &v@[0]),
                    (end.cipher, Ok::<B::SealedEmbedding, String>(q)),
                )
            },
{
    let b = &start.backend;
    let r = Ok::<Vec<RetrievalHit<B::Score, B::SealedEmbedding>>, String>(hits);
    let vectors = choose|vectors: Result<Vec<B::Embedding>, String>|
        {
            &&& #[trigger] service::embeds(b, start.memory, seq![text], end.memory, vectors)
            &&& match vectors {
                Err(e) => false,
                Ok(v) => v@.len() > 0 && service::searched(
                    b,
                    start.cipher,
                    &start.key,
                    Some(start.index),
                    v@[0],
                    top_k,
                    end.cipher,
                    r,
                ),
            }
        };
    let v = vectors->Ok_0;
    let t = choose|t: &Vec<String>|
        {
            &&& #[trigger] call_ensures(B::embed, (b, &start.memory, t), (end.memory, vectors))
            &&& t@.len() == 1
            &&& forall|i: int| 0 <= i < 1 ==> (#[trigger] t@[i])@ == seq![text][i]
        };
    assert(t@[0]@ == text);
    let q = choose|q: B::SealedEmbedding|
        #[trigger] call_ensures(
            B::encrypt_query,
            (b, &start.cipher, &v@[0]),
            (end.cipher, Ok::<B::SealedEmbedding, String>(q)),
        );
    assert(call_ensures(
        B::embed,
        (&start.backend, &start.memory, t),
        (end.memory, Ok::<Vec<B::Embedding>, String>(v)),
    ));
    assert(call_ensures(
        B::encrypt_query,
        (&start.backend, &start.cipher, &v@[0]),
        (end.cipher, Ok::<B::SealedEmbedding, String>(q)),
    ));
}

} // verus!
