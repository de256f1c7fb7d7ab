//! What queries give back of what was stored, with a backend whose index keeps what it takes
//! and whose chunk cipher opens what it sealed.

use vstd::prelude::*;

use crate::service;
use crate::service::{DocumentChunk, RagBackend, RetrievalHit};
use crate::tenant::Secret;
use crate::two_party_service::{State, TwoPartyError};

verus! {

/// Every item that was found is one of those held.
pub open spec fn all_held<B: RagBackend>(
    held: Seq<(B::SealedChunk, B::SealedEmbedding)>,
    found: Seq<(B::SealedChunk, B::SealedEmbedding, B::Score)>,
) -> bool {
    forall|i: int|
        #![trigger found[i]]
        0 <= i < found.len() ==> held.contains((found[i].0, found[i].1))
}

/// An index keeps what it takes and counts it, and a search finds nothing else. `held` says
/// what an index holds, in the order in which it was taken.
pub open spec fn keeps<B: RagBackend>(
    b: &B,
    held: spec_fn(B::Index) -> Seq<(B::SealedChunk, B::SealedEmbedding)>,
) -> bool {
    &&& forall|ix: B::Index|
        #[trigger] call_ensures(B::empty_index, (b,), ix) ==> held(ix).len() == 0
    &&& forall|ix: B::Index, chunk: B::SealedChunk, vector: B::SealedEmbedding, after: B::Index|
        #[trigger] call_ensures(B::inserted, (b, ix, chunk, vector), after) ==> held(after)
            == held(ix).push((chunk, vector))
    &&& forall|
        ix: &B::Index,
        query: &B::SealedEmbedding,
        top_k: usize,
        found: Vec<(B::SealedChunk, B::SealedEmbedding, B::Score)>,
    |
        #[trigger] call_ensures(B::search, (b, ix, query, top_k), found) ==> all_held::<B>(
            held(*ix),
            found@,
        )
    &&& forall|ix: &B::Index, n: usize|
        #[trigger] call_ensures(B::index_len, (b, ix), n) ==> n == held(*ix).len()
}

/// Under this key, a chunk that was sealed opens to itself.
pub open spec fn opens<B: RagBackend>(b: &B, key: &B::ChunkKey) -> bool {
    forall|chunk: &DocumentChunk, sealed: &B::SealedChunk, r: Result<DocumentChunk, String>|
        call_ensures(B::encrypt_chunk, (b, key, chunk), Ok::<B::SealedChunk, String>(*sealed))
            && call_ensures(B::decrypt_chunk, (b, key, sealed), r) ==> #[trigger] opened_as(
            b,
            key,
            chunk,
            sealed,
            r,
        )
}

/// `r` is the chunk.
pub open spec fn opened_as<B: RagBackend>(
    b: &B,
    key: &B::ChunkKey,
    chunk: &DocumentChunk,
    sealed: &B::SealedChunk,
    r: Result<DocumentChunk, String>,
) -> bool {
    r matches Ok(c) && c.id@ == chunk.id@ && c.text@ == chunk.text@
}

/// What an index holds are these chunks, sealed under this key.
pub open spec fn seals<B: RagBackend>(
    b: &B,
    key: &B::ChunkKey,
    held: Seq<(B::SealedChunk, B::SealedEmbedding)>,
    docs: Seq<DocumentChunk>,
) -> bool {
    &&& held.len() == docs.len()
    &&& forall|j: int|
        #![trigger held[j]]
        0 <= j < held.len() ==> call_ensures(
            B::encrypt_chunk,
            (b, key, &docs[j]),
            Ok::<B::SealedChunk, String>(held[j].0),
        )
}

proof fn lemma_first_are_held<B: RagBackend>(
    b: &B,
    cipher: B::Cipher,
    key: &B::ChunkKey,
    held: spec_fn(B::Index) -> Seq<(B::SealedChunk, B::SealedEmbedding)>,
    docs: Seq<DocumentChunk>,
    chunks: Seq<DocumentChunk>,
    embeddings: Seq<B::Embedding>,
    m: nat,
    start: B::Index,
    end: B::Index,
    after: B::Cipher,
)
    requires
        keeps(b, held),
        seals(b, key, held(start), docs),
        m <= chunks.len(),
        service::stored_first(b, cipher, key, chunks, embeddings, m, start, end, after),
    ensures
        seals(b, key, held(end), docs + chunks.take(m as int)),
{
    let (vectors, sealed, states, ciphers) = choose|
        vectors: Seq<B::SealedEmbedding>,
        sealed: Seq<B::SealedChunk>,
        states: Seq<B::Index>,
        ciphers: Seq<B::Cipher>,
    |
        {
            &&& #[trigger] vectors.len() == m
            &&& #[trigger] sealed.len() == m
            &&& #[trigger] states.len() == m + 1
            &&& #[trigger] ciphers.len() == m + 1
            &&& states[0] == start
            &&& states.last() == end
            &&& ciphers[0] == cipher
            &&& ciphers.last() == after
            &&& forall|i: int|
                #![trigger vectors[i]]
                0 <= i < m ==> {
                    &&& call_ensures(
                        B::encrypt_document,
                        (b, &ciphers[i], &embeddings[i]),
                        (ciphers[i + 1], Ok::<B::SealedEmbedding, String>(vectors[i])),
                    )
                    &&& call_ensures(
                        B::encrypt_chunk,
                        (b, key, &chunks[i]),
                        Ok::<B::SealedChunk, String>(sealed[i]),
                    )
                    &&& call_ensures(
                        B::inserted,
                        (b, states[i], sealed[i], vectors[i]),
                        states[i + 1],
                    )
                }
        };
    lemma_states_grow(b, key, held, docs, chunks, vectors, sealed, states, m);
}

proof fn lemma_states_grow<B: RagBackend>(
    b: &B,
    key: &B::ChunkKey,
    held: spec_fn(B::Index) -> Seq<(B::SealedChunk, B::SealedEmbedding)>,
    docs: Seq<DocumentChunk>,
    chunks: Seq<DocumentChunk>,
    vectors: Seq<B::SealedEmbedding>,
    sealed: Seq<B::SealedChunk>,
    states: Seq<B::Index>,
    m: nat,
)
    requires
        keeps(b, held),
        m <= chunks.len(),
        vectors.len() >= m,
        sealed.len() >= m,
        states.len() > m,
        seals(b, key, held(states[0]), docs),
        forall|i: int|
            #![trigger vectors[i]]
            0 <= i < m ==> {
                &&& call_ensures(
                    B::encrypt_chunk,
                    (b, key, &chunks[i]),
                    Ok::<B::SealedChunk, String>(sealed[i]),
                )
                &&& call_ensures(B::inserted, (b, states[i], sealed[i], vectors[i]), states[i + 1])
            },
    ensures
        seals(b, key, held(states[m as int]), docs + chunks.take(m as int)),
    decreases m,
{
    if m == 0 {
        assert(docs + chunks.take(0) =~= docs);
    } else {
        let k = m - 1;
        lemma_states_grow(b, key, held, docs, chunks, vectors, sealed, states, k as nat);
        let before = held(states[k]);
        let after = held(states[k + 1]);
        assert(vectors[k] == vectors[k]);
        assert(after == before.push((sealed[k], vectors[k])));
        let shorter = docs + chunks.take(k);
        let longer = docs + chunks.take(m as int);
        assert forall|j: int| #![trigger after[j]] 0 <= j < after.len() implies call_ensures(
            B::encrypt_chunk,
            (b, key, &longer[j]),
            Ok::<B::SealedChunk, String>(after[j].0),
        ) by {
            if j < before.len() {
                assert(after[j] == before[j]);
                assert(longer[j] == shorter[j]);
            } else {
                assert(longer[j] == chunks[k]);
            }
        }
    }
}

/// Storing chunks adds them, sealed, to what the index holds: all of them on success, those
/// before the failing one otherwise.
pub proof fn law_stored_chunks_are_held<B: RagBackend>(
    b: &B,
    cipher: B::Cipher,
    key: &B::ChunkKey,
    held: spec_fn(B::Index) -> Seq<(B::SealedChunk, B::SealedEmbedding)>,
    docs: Seq<DocumentChunk>,
    chunks: Seq<DocumentChunk>,
    embeddings: Seq<B::Embedding>,
    start: B::Index,
    end: B::Index,
    after: B::Cipher,
    r: Result<(), String>,
)
    requires
        keeps(b, held),
        seals(b, key, held(start), docs),
        service::stored(b, cipher, key, chunks, embeddings, start, end, after, r),
    ensures
        exists|m: nat|
            {
                &&& m <= service::paired(chunks.len(), embeddings.len())
                &&& r is Ok ==> m == service::paired(chunks.len(), embeddings.len())
                &&& #[trigger] seals(b, key, held(end), docs + chunks.take(m as int))
            },
{
    let n = service::paired(chunks.len(), embeddings.len());
    match r {
        Ok(_) => {
            lemma_first_are_held(b, cipher, key, held, docs, chunks, embeddings, n, start, end, after);
        },
        Err(e) => {
            let (m, at) = choose|m: nat, at: B::Cipher|
                {
                    &&& m < n
                    &&& #[trigger] service::stored_first(
                        b,
                        cipher,
                        key,
                        chunks,
                        embeddings,
                        m,
                        start,
                        end,
                        at,
                    )
                    &&& service::sealing_fails(
                        b,
                        at,
                        key,
                        chunks[m as int],
                        embeddings[m as int],
                        after,
                        e,
                    )
                };
            lemma_first_are_held(b, cipher, key, held, docs, chunks, embeddings, m, start, end, at);
        },
    }
}

/// The model has one vector for each text.
pub open spec fn embeds_each<B: RagBackend>(b: &B) -> bool {
    forall|
        memory: B::Memory,
        texts: Seq<Seq<char>>,
        after: B::Memory,
        vectors: Vec<B::Embedding>,
    |
        #[trigger] service::embeds(
            b,
            memory,
            texts,
            after,
            Ok::<Vec<B::Embedding>, String>(vectors),
        ) ==> vectors@.len() == texts.len()
}

proof fn lemma_first_are_counted<B: RagBackend>(
    b: &B,
    cipher: B::Cipher,
    key: &B::ChunkKey,
    held: spec_fn(B::Index) -> Seq<(B::SealedChunk, B::SealedEmbedding)>,
    chunks: Seq<DocumentChunk>,
    embeddings: Seq<B::Embedding>,
    m: nat,
    start: B::Index,
    end: B::Index,
    after: B::Cipher,
)
    requires
        keeps(b, held),
        service::stored_first(b, cipher, key, chunks, embeddings, m, start, end, after),
    ensures
        held(end).len() == held(start).len() + m,
{
    let (vectors, sealed, states, ciphers) = choose|
        vectors: Seq<B::SealedEmbedding>,
        sealed: Seq<B::SealedChunk>,
        states: Seq<B::Index>,
        ciphers: Seq<B::Cipher>,
    |
        {
            &&& #[trigger] vectors.len() == m
            &&& #[trigger] sealed.len() == m
            &&& #[trigger] states.len() == m + 1
            &&& #[trigger] ciphers.len() == m + 1
            &&& states[0] == start
            &&& states.last() == end
            &&& forall|i: int|
                #![trigger vectors[i]]
                0 <= i < m ==> call_ensures(
                    B::inserted,
                    (b, states[i], sealed[i], vectors[i]),
                    states[i + 1],
                )
        };
    lemma_states_count(b, held, vectors, sealed, states, m);
}

/// Every insertion makes an index longer by one.
proof fn lemma_states_count<B: RagBackend>(
    b: &B,
    held: spec_fn(B::Index) -> Seq<(B::SealedChunk, B::SealedEmbedding)>,
    vectors: Seq<B::SealedEmbedding>,
    sealed: Seq<B::SealedChunk>,
    states: Seq<B::Index>,
    m: nat,
)
    requires
        keeps(b, held),
        forall|i: int|
            #![trigger vectors[i]]
            0 <= i < m ==> call_ensures(
                B::inserted,
                (b, states[i], sealed[i], vectors[i]),
                states[i + 1],
            ),
    ensures
        held(states[m as int]).len() == held(states[0]).len() + m,
    decreases m,
{
    if m > 0 {
        let k = m - 1;
        lemma_states_count(b, held, vectors, sealed, states, k as nat);
        assert(call_ensures(
            B::inserted,
            (b, states[k], sealed[k], vectors[k]),
            states[k + 1],
        ));
    }
}

/// Storing chunks makes an index longer by as many as came with a vector.
pub proof fn law_stored_chunks_are_counted<B: RagBackend>(
    b: &B,
    cipher: B::Cipher,
    key: &B::ChunkKey,
    held: spec_fn(B::Index) -> Seq<(B::SealedChunk, B::SealedEmbedding)>,
    chunks: Seq<DocumentChunk>,
    embeddings: Seq<B::Embedding>,
    start: B::Index,
    end: B::Index,
    after: B::Cipher,
    len_before: usize,
    len_after: usize,
)
    requires
        keeps(b, held),
        service::stored(
            b,
            cipher,
            key,
            chunks,
            embeddings,
            start,
            end,
            after,
            Ok::<(), String>(()),
        ),
        call_ensures(B::index_len, (b, &start), len_before),
        call_ensures(B::index_len, (b, &end), len_after),
    ensures
        len_after == len_before + service::paired(chunks.len(), embeddings.len()),
{
    let n = service::paired(chunks.len(), embeddings.len());
    lemma_first_are_counted(b, cipher, key, held, chunks, embeddings, n, start, end, after);
}

/// Storing chunks for a tenant makes the tenant's index longer by their number.
pub proof fn law_ingest_grows_the_index<B: RagBackend>(
    st: State<B>,
    held: spec_fn(B::Index) -> Seq<(B::SealedChunk, B::SealedEmbedding)>,
    name: String,
    user_secret: Secret,
    chunks: Seq<DocumentChunk>,
    after: State<B>,
    len_before: usize,
    len_after: usize,
)
    requires
        keeps(&st.backend, held),
        embeds_each(&st.backend),
        st.ingested(name, user_secret, chunks, after, Ok::<(), TwoPartyError>(())),
        st.counts(name@, len_before),
        after.counts(name@, len_after),
    ensures
        len_after == len_before + chunks.len(),
{
    let b = &st.backend;
    let (keys, vectors) = choose|
        keys: (B::Cipher, B::ChunkKey),
        vectors: Result<Vec<B::Embedding>, String>,
    |
        {
            &&& #[trigger] st.derives(user_secret, st.secrets[name@], name, keys)
            &&& #[trigger] service::embeds(
                b,
                st.memory,
                service::texts_of(chunks),
                after.memory,
                vectors,
            )
            &&& match vectors {
                Err(e) => false,
                Ok(v) => {
                    &&& after == (State {
                        memory: after.memory,
                        indices: st.indices.insert(name@, after.indices[name@]),
                        ..st
                    })
                    &&& exists|start: B::Index, used: B::Cipher|
                        {
                            &&& st.starts_from(name@, start)
                            &&& #[trigger] service::stored(
                                b,
                                keys.0,
                                &keys.1,
                                chunks,
                                v@,
                                start,
                                after.indices[name@],
                                used,
                                Ok::<(), String>(()),
                            )
                        }
                },
            }
        };
    let v = vectors->Ok_0;
    let end = after.indices[name@];
    let (start, used) = choose|start: B::Index, used: B::Cipher|
        {
            &&& st.starts_from(name@, start)
            &&& #[trigger] service::stored(
                b,
                keys.0,
                &keys.1,
                chunks,
                v@,
                start,
                end,
                used,
                Ok::<(), String>(()),
            )
        };
    lemma_first_are_counted(
        b,
        keys.0,
        &keys.1,
        held,
        chunks,
        v@,
        chunks.len(),
        start,
        end,
        used,
    );
}

/// A hit is one of these chunks.
pub open spec fn is_hit_of<S, M>(hit: RetrievalHit<S, M>, docs: Seq<DocumentChunk>) -> bool {
    exists|j: int|
        0 <= j < docs.len() && (#[trigger] docs[j]).id@ == hit.id@ && docs[j].text@ == hit.text@
}

proof fn lemma_found_opens<B: RagBackend>(
    b: &B,
    key: &B::ChunkKey,
    held: Seq<(B::SealedChunk, B::SealedEmbedding)>,
    docs: Seq<DocumentChunk>,
    found: Seq<(B::SealedChunk, B::SealedEmbedding, B::Score)>,
    i: int,
    r: Result<DocumentChunk, String>,
) -> (j: int)
    requires
        opens(b, key),
        seals(b, key, held, docs),
        all_held::<B>(held, found),
        0 <= i < found.len(),
        call_ensures(B::decrypt_chunk, (b, key, &found[i].0), r),
    ensures
        0 <= j < docs.len(),
        r matches Ok(c) && c.id@ == docs[j].id@ && c.text@ == docs[j].text@,
{
    let pair = (found[i].0, found[i].1);
    assert(held.contains(pair));
    let j = choose|j: int| 0 <= j < held.len() && held[j] == pair;
    assert(held[j].0 == found[i].0);
    assert(opened_as(b, key, &docs[j], &found[i].0, r));
    j
}

/// Every hit of a query is a chunk that the index holds, opened; no hit fails to open, so that
/// a query fails only where the query itself cannot be embedded or sealed.
pub proof fn law_hits_are_stored_chunks<B: RagBackend>(
    b: &B,
    cipher: B::Cipher,
    key: &B::ChunkKey,
    held: spec_fn(B::Index) -> Seq<(B::SealedChunk, B::SealedEmbedding)>,
    docs: Seq<DocumentChunk>,
    ix: B::Index,
    vector: B::Embedding,
    top_k: usize,
    after: B::Cipher,
    r: Result<Vec<RetrievalHit<B::Score, B::SealedEmbedding>>, String>,
)
    requires
        keeps(b, held),
        opens(b, key),
        seals(b, key, held(ix), docs),
        service::searched(b, cipher, key, Some(ix), vector, top_k, after, r),
    ensures
        match r {
            Ok(hits) => forall|i: int|
                0 <= i < hits@.len() ==> is_hit_of(#[trigger] hits@[i], docs),
            Err(e) => call_ensures(
                B::encrypt_query,
                (b, &cipher, &vector),
                (after, Err::<B::SealedEmbedding, String>(e)),
            ),
        },
{
    let query = choose|query: Result<B::SealedEmbedding, String>|
        {
            &&& #[trigger] call_ensures(B::encrypt_query, (b, &cipher, &vector), (after, query))
            &&& match query {
                Err(e) => r == Err::<Vec<RetrievalHit<B::Score, B::SealedEmbedding>>, String>(e),
                Ok(q) => exists|found: Vec<(B::SealedChunk, B::SealedEmbedding, B::Score)>|
                    {
                        &&& #[trigger] call_ensures(B::search, (b, &ix, &q, top_k), found)
                        &&& service::opened(b, key, found@, r)
                    },
            }
        };
    if query is Ok {
        let q = query->Ok_0;
        let found = choose|found: Vec<(B::SealedChunk, B::SealedEmbedding, B::Score)>|
            {
                &&& #[trigger] call_ensures(B::search, (b, &ix, &q, top_k), found)
                &&& service::opened(b, key, found@, r)
            };
        assert(all_held::<B>(held(ix), found@));
        match r {
            Ok(hits) => {
                assert forall|i: int| 0 <= i < hits@.len() implies is_hit_of(
                    #[trigger] hits@[i],
                    docs,
                ) by {
                    let c = DocumentChunk { id: hits@[i].id, text: hits@[i].text };
                    let j = lemma_found_opens(b, key, held(ix), docs, found@, i, Ok(c));
                    assert(docs[j].id@ == hits@[i].id@);
                }
            },
            Err(e) => {
                let first = choose|first: Seq<DocumentChunk>|
                    {
                        &&& #[trigger] first.len() < found@.len()
                        &&& call_ensures(
                            B::decrypt_chunk,
                            (b, key, &found@[first.len() as int].0),
                            Err::<DocumentChunk, String>(e),
                        )
                    };
                let i = first.len() as int;
                let j = lemma_found_opens(b, key, held(ix), docs, found@, i, Err(e));
            },
        }
    }
}

/// The chunk key is a function of the two secrets, the tenant and the settings.
pub open spec fn derives_one_key<B: RagBackend>(b: &B) -> bool {
    forall|
        policy: B::Policy,
        params: B::Params,
        user: &Secret,
        tee: &Secret,
        name: &String,
        k1: (B::Cipher, B::ChunkKey),
        k2: (B::Cipher, B::ChunkKey),
    |
        #[trigger] call_ensures(B::derive_keys, (b, policy, params, user, tee, name), k1)
            && #[trigger] call_ensures(B::derive_keys, (b, policy, params, user, tee, name), k2)
            ==> k1.1 == k2.1
}

/// A tenant who stores chunks and later comes back with the same secret finds nothing but what
/// the tenant has stored, opened: the service's secret has stayed, the same key is derived, and
/// it opens every hit.
pub proof fn law_query_gives_back_what_was_stored<B: RagBackend>(
    st: State<B>,
    held: spec_fn(B::Index) -> Seq<(B::SealedChunk, B::SealedEmbedding)>,
    name: String,
    user_secret: Secret,
    keys: (B::Cipher, B::ChunkKey),
    docs: Seq<DocumentChunk>,
    chunks: Seq<DocumentChunk>,
    after: State<B>,
    text: Seq<char>,
    top_k: usize,
    later: State<B>,
    hits: Vec<RetrievalHit<B::Score, B::SealedEmbedding>>,
)
    requires
        keeps(&st.backend, held),
        derives_one_key(&st.backend),
        st.derives(user_secret, st.secrets[name@], name, keys),
        opens(&st.backend, &keys.1),
        match st.index_of(name@) {
            Some(ix) => seals(&st.backend, &keys.1, held(ix), docs),
            None => docs.len() == 0,
        },
        st.ingested(name, user_secret, chunks, after, Ok::<(), TwoPartyError>(())),
        after.queried(
            name,
            user_secret,
            text,
            top_k,
            later,
            Ok::<Vec<RetrievalHit<B::Score, B::SealedEmbedding>>, TwoPartyError>(hits),
        ),
    ensures
        forall|i: int| 0 <= i < hits@.len() ==> is_hit_of(#[trigger] hits@[i], docs + chunks),
{
    let b = &st.backend;
    let key = keys.1;
    let (k1, vectors) = choose|
        k1: (B::Cipher, B::ChunkKey),
        vectors: Result<Vec<B::Embedding>, String>,
    |
        {
            &&& #[trigger] st.derives(user_secret, st.secrets[name@], name, k1)
            &&& #[trigger] service::embeds(
                b,
                st.memory,
                service::texts_of(chunks),
                after.memory,
                vectors,
            )
            &&& match vectors {
                Err(e) => false,
                Ok(v) => {
                    &&& after == (State {
                        memory: after.memory,
                        indices: st.indices.insert(name@, after.indices[name@]),
                        ..st
                    })
                    &&& exists|start: B::Index, used: B::Cipher|
                        {
                            &&& st.starts_from(name@, start)
                            &&& #[trigger] service::stored(
                                b,
                                k1.0,
                                &k1.1,
                                chunks,
                                v@,
                                start,
                                after.indices[name@],
                                used,
                                Ok::<(), String>(()),
                            )
                        }
                },
            }
        };
    assert(k1.1 == key);
    let v = vectors->Ok_0;
    let end = after.indices[name@];
    let (start, used) = choose|start: B::Index, used: B::Cipher|
        {
            &&& st.starts_from(name@, start)
            &&& #[trigger] service::stored(
                b,
                k1.0,
                &key,
                chunks,
                v@,
                start,
                end,
                used,
                Ok::<(), String>(()),
            )
        };
    assert(seals(b, &key, held(start), docs));
    law_stored_chunks_are_held(
        b,
        k1.0,
        &key,
        held,
        docs,
        chunks,
        v@,
        start,
        end,
        used,
        Ok(()),
    );
    let n = service::paired(chunks.len(), v@.len());
    let stored = docs + chunks.take(n as int);
    assert(seals(b, &key, held(end), stored));
    let r = Ok::<Vec<RetrievalHit<B::Score, B::SealedEmbedding>>, String>(hits);
    let (k2, spent) = choose|k2: (B::Cipher, B::ChunkKey), spent: B::Cipher|
        {
            &&& #[trigger] after.derives(user_secret, after.secrets[name@], name, k2)
            &&& #[trigger] service::answered(
                b,
                after.memory,
                k2.0,
                &k2.1,
                Some(end),
                text,
                top_k,
                later.memory,
                spent,
                r,
            )
        };
    assert(k2.1 == key);
    let asked = choose|asked: Result<Vec<B::Embedding>, String>|
        {
            &&& #[trigger] service::embeds(b, after.memory, seq![text], later.memory, asked)
            &&& match asked {
                Err(e) => false,
                Ok(w) => w@.len() > 0 && service::searched(
                    b,
                    k2.0,
                    &key,
                    Some(end),
                    w@[0],
                    top_k,
                    spent,
                    r,
                ),
            }
        };
    law_hits_are_stored_chunks(
        b,
        k2.0,
        &key,
        held,
        stored,
        end,
        asked->Ok_0@[0],
        top_k,
        spent,
        r,
    );
    assert forall|i: int| 0 <= i < hits@.len() implies is_hit_of(
        #[trigger] hits@[i],
        docs + chunks,
    ) by {
        assert(is_hit_of(hits@[i], stored));
        let j = choose|j: int|
            0 <= j < stored.len() && (#[trigger] stored[j]).id@ == hits@[i].id@ && stored[j].text@
                == hits@[i].text@;
        assert((docs + chunks)[j] == stored[j]);
    }
}

} // verus!
