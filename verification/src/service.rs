//! A retrieval service over an encrypted index, for a single owner.

use vstd::prelude::*;

use crate::attestation::{AttestationEvidence, AttestationVerifier};
use crate::tenant::Secret;

verus! {

/// A piece of text and its name.
pub struct DocumentChunk {
    pub id: String,
    pub text: String,
}

/// A chunk that a query found.
pub struct RetrievalHit<S, M> {
    pub id: String,
    pub score: S,
    pub text: String,
    pub embedding: M,
}

/// What a deployment brings: a model that embeds text, ciphers for vectors and chunks, and an
/// index over ciphertexts. Nothing is asked of their results. The model and the vector cipher
/// may change from call to call: each call is handed what they were, and gives what they are.
pub trait RagBackend: Sized {
    type Embedding;

    type SealedEmbedding;

    type SealedChunk;

    /// What the model carries from one call to the next.
    type Memory;

    /// A vector cipher: its key, and what it carries from one call to the next.
    type Cipher;

    /// Key of the chunk cipher.
    type ChunkKey;

    type Index;

    type Score;

    /// Constants of the vector cipher.
    type Params: Copy;

    /// How keys are derived.
    type Policy: Copy;

    /// What the model starts from.
    fn fresh_memory(&self) -> Self::Memory;

    fn embed(&self, memory: &Self::Memory, texts: &Vec<String>) -> (
        Self::Memory,
        Result<Vec<Self::Embedding>, String>,
    );

    fn default_params(&self) -> Self::Params;

    fn default_policy(&self) -> Self::Policy;

    /// The vector cipher of a single owner.
    fn owner_cipher(&self) -> Self::Cipher;

    /// A chunk key drawn at random.
    fn generate_chunk_key(&self) -> Self::ChunkKey;

    /// The ciphers of a tenant, from the tenant's secret and the service's.
    fn derive_keys(
        &self,
        policy: Self::Policy,
        params: Self::Params,
        user_secret: &Secret,
        tee_secret: &Secret,
        tenant: &String,
    ) -> (Self::Cipher, Self::ChunkKey);

    /// Digest of the policy and the constants.
    fn scheme_identity(&self, policy: Self::Policy, params: Self::Params) -> [u8; 32];

    fn encrypt_document(&self, cipher: &Self::Cipher, embedding: &Self::Embedding) -> (
        Self::Cipher,
        Result<Self::SealedEmbedding, String>,
    );

    fn encrypt_query(&self, cipher: &Self::Cipher, embedding: &Self::Embedding) -> (
        Self::Cipher,
        Result<Self::SealedEmbedding, String>,
    );

    fn encrypt_chunk(&self, key: &Self::ChunkKey, chunk: &DocumentChunk) -> Result<
        Self::SealedChunk,
        String,
    >;

    fn decrypt_chunk(&self, key: &Self::ChunkKey, sealed: &Self::SealedChunk) -> Result<
        DocumentChunk,
        String,
    >;

    fn empty_index(&self) -> Self::Index;

    /// The index with one more chunk and its vector.
    fn inserted(
        &self,
        index: Self::Index,
        chunk: Self::SealedChunk,
        embedding: Self::SealedEmbedding,
    ) -> Self::Index;

    /// The best chunks for a query, best first, each with its vector and score.
    fn search(&self, index: &Self::Index, query: &Self::SealedEmbedding, top_k: usize) -> Vec<
        (Self::SealedChunk, Self::SealedEmbedding, Self::Score),
    >;

    fn index_len(&self, index: &Self::Index) -> usize;
}

/// `r` is what the model may answer to these texts, and `after` what it then carries on.
pub open spec fn embeds<B: RagBackend>(
    b: &B,
    memory: B::Memory,
    texts: Seq<Seq<char>>,
    after: B::Memory,
    r: Result<Vec<B::Embedding>, String>,
) -> bool {
    exists|t: &Vec<String>|
        {
            &&& #[trigger] call_ensures(B::embed, (b, &memory, t), (after, r))
            &&& t@.len() == texts.len()
            &&& forall|i: int| 0 <= i < texts.len() ==> (#[trigger] t@[i])@ == texts[i]
        }
}

/// The texts of some chunks.
pub open spec fn texts_of(chunks: Seq<DocumentChunk>) -> Seq<Seq<char>> {
    Seq::new(chunks.len(), |i: int| chunks[i].text@)
}

/// The first `m` chunks, each sealed together with its vector, take the index from `start` to
/// `end`, and the vector cipher from `cipher` to `after`.
pub open spec fn stored_first<B: RagBackend>(
    b: &B,
    cipher: B::Cipher,
    key: &B::ChunkKey,
    chunks: Seq<DocumentChunk>,
    embeddings: Seq<B::Embedding>,
    m: nat,
    start: B::Index,
    end: B::Index,
    after: B::Cipher,
) -> bool {
    exists|
        vectors: Seq<B::SealedEmbedding>,
        sealed: Seq<B::SealedChunk>,
        states: Seq<B::Index>,
        ciphers: Seq<B::Cipher>,
    |
        {
            &&& #[trigger] vectors.len() == m
            &&& #[trigger] sealed.len() == m
            &&& #[trigger] states.len() == m + 1
            &&& #[trigger] ciphers.len() == m + 1
            &&& states[0] == start
            &&& states.last() == end
            &&& ciphers[0] == cipher
            &&& ciphers.last() == after
            &&& forall|i: int|
                #![trigger vectors[i]]
                0 <= i < m ==> {
                    &&& call_ensures(
                        B::encrypt_document,
                        (b, &ciphers[i], &embeddings[i]),
                        (ciphers[i + 1], Ok::<B::SealedEmbedding, String>(vectors[i])),
                    )
                    &&& call_ensures(
                        B::encrypt_chunk,
                        (b, key, &chunks[i]),
                        Ok::<B::SealedChunk, String>(sealed[i]),
                    )
                    &&& call_ensures(
                        B::inserted,
                        (b, states[i], sealed[i], vectors[i]),
                        states[i + 1],
                    )
                }
        }
}

/// A vector cannot be sealed; or it can, but its chunk cannot.
pub open spec fn sealing_fails<B: RagBackend>(
    b: &B,
    cipher: B::Cipher,
    key: &B::ChunkKey,
    chunk: DocumentChunk,
    embedding: B::Embedding,
    after: B::Cipher,
    e: String,
) -> bool {
    exists|vector: Result<B::SealedEmbedding, String>|
        {
            &&& #[trigger] call_ensures(
                B::encrypt_document,
                (b, &cipher, &embedding),
                (after, vector),
            )
            &&& match vector {
                Err(f) => e == f,
                Ok(_) => call_ensures(
                    B::encrypt_chunk,
                    (b, key, &chunk),
                    Err::<B::SealedChunk, String>(e),
                ),
            }
        }
}

/// How many chunks come with a vector.
pub open spec fn paired(chunks: nat, embeddings: nat) -> nat {
    if chunks <= embeddings {
        chunks
    } else {
        embeddings
    }
}

/// Chunks are stored in order, up to the first that cannot be sealed; what was stored before
/// it stays.
pub open spec fn stored<B: RagBackend>(
    b: &B,
    cipher: B::Cipher,
    key: &B::ChunkKey,
    chunks: Seq<DocumentChunk>,
    embeddings: Seq<B::Embedding>,
    start: B::Index,
    end: B::Index,
    after: B::Cipher,
    r: Result<(), String>,
) -> bool {
    let n = paired(chunks.len(), embeddings.len());
    match r {
        Ok(_) => stored_first(b, cipher, key, chunks, embeddings, n, start, end, after),
        Err(e) => exists|m: nat, at: B::Cipher|
            {
                &&& m < n
                &&& #[trigger] stored_first(b, cipher, key, chunks, embeddings, m, start, end, at)
                &&& sealing_fails(b, at, key, chunks[m as int], embeddings[m as int], after, e)
            },
    }
}

/// The cipher that comes after another: a new one, or still that one.
pub open spec fn next_cipher<C>(cipher: C, next: Option<C>) -> C {
    match next {
        Some(c) => c,
        None => cipher,
    }
}

/// Seals chunks with their vectors into an index.
pub(crate) fn store_chunks<B: RagBackend>(
    b: &B,
    cipher: &B::Cipher,
    key: &B::ChunkKey,
    chunks: &Vec<DocumentChunk>,
    embeddings: &Vec<B::Embedding>,
    index: B::Index,
) -> (r: (B::Index, Option<B::Cipher>, Result<(), String>))
    ensures
        stored(
            b,
            *cipher,
            key,
            chunks@,
            embeddings@,
            index,
            r.0,
            next_cipher(*cipher, r.1),
            r.2,
        ),
{
    let n: usize = if chunks.len() <= embeddings.len() {
        chunks.len()
    } else {
        embeddings.len()
    };
    let ghost mut vectors: Seq<B::SealedEmbedding> = seq![];
    let ghost mut sealed: Seq<B::SealedChunk> = seq![];
    let ghost mut states: Seq<B::Index> = seq![index];
    let ghost mut ciphers: Seq<B::Cipher> = seq![*cipher];
    let mut current: B::Index = index;
    let mut at: Option<B::Cipher> = None;
    for i in 0..n
        invariant
            n == paired(chunks@.len(), embeddings@.len()),
            vectors.len() == i,
            sealed.len() == i,
            states.len() == i + 1,
            states[0] == index,
            states.last() == current,
            ciphers.len() == i + 1,
            ciphers[0] == *cipher,
            ciphers.last() == next_cipher(*cipher, at),
            forall|j: int|
                #![trigger vectors[j]]
                0 <= j < i ==> {
                    &&& call_ensures(
                        B::encrypt_document,
                        (b, &ciphers[j], &embeddings@[j]),
                        (ciphers[j + 1], Ok::<B::SealedEmbedding, String>(vectors[j])),
                    )
                    &&& call_ensures(
                        B::encrypt_chunk,
                        (b, key, &chunks@[j]),
                        Ok::<B::SealedChunk, String>(sealed[j]),
                    )
                    &&& call_ensures(
                        B::inserted,
                        (b, states[j], sealed[j], vectors[j]),
                        states[j + 1],
                    )
                },
    {
        assert(ciphers.len() == i + 1);
        let here: &B::Cipher = match &at {
            Some(c) => c,
            None => cipher,
        };
        assert(stored_first(
            b,
            *cipher,
            key,
            chunks@,
            embeddings@,
            i as nat,
            index,
            current,
            *here,
        ));
        let (next, vector) = b.encrypt_document(here, &embeddings[i]);
        assert(call_ensures(B::encrypt_document, (b, here, &embeddings@[i as int]), (next, vector)));
        let vector: B::SealedEmbedding = match vector {
            Ok(v) => v,
            Err(e) => {
                return (current, Some(next), Err(e));
            },
        };
        let chunk: B::SealedChunk = match b.encrypt_chunk(key, &chunks[i]) {
            Ok(c) => c,
            Err(e) => {
                return (current, Some(next), Err(e));
            },
        };
        proof {
            ciphers = ciphers.push(next);
            vectors = vectors.push(vector);
            sealed = sealed.push(chunk);
        }
        at = Some(next);
        current = b.inserted(current, chunk, vector);
        proof {
            states = states.push(current);
        }
    }
    assert(ciphers.len() == n + 1);
    (current, at, Ok(()))
}

/// Every chunk that was found is opened, in order, up to the first that cannot be.
pub open spec fn opened<B: RagBackend>(
    b: &B,
    key: &B::ChunkKey,
    found: Seq<(B::SealedChunk, B::SealedEmbedding, B::Score)>,
    r: Result<Vec<RetrievalHit<B::Score, B::SealedEmbedding>>, String>,
) -> bool {
    match r {
        Ok(hits) => {
            &&& hits@.len() == found.len()
            &&& forall|i: int|
                0 <= i < found.len() ==> {
                    &&& call_ensures(
                        B::decrypt_chunk,
                        (b, key, &found[i].0),
                        Ok::<DocumentChunk, String>(
                            DocumentChunk { id: (#[trigger] hits@[i]).id, text: hits@[i].text },
                        ),
                    )
                    &&& hits@[i].embedding == found[i].1
                    &&& hits@[i].score == found[i].2
                }
        },
        Err(e) => exists|first: Seq<DocumentChunk>|
            {
                &&& #[trigger] first.len() < found.len()
                &&& forall|j: int|
                    0 <= j < first.len() ==> call_ensures(
                        B::decrypt_chunk,
                        (b, key, &found[j].0),
                        Ok::<DocumentChunk, String>(#[trigger] first[j]),
                    )
                &&& call_ensures(
                    B::decrypt_chunk,
                    (b, key, &found[first.len() as int].0),
                    Err::<DocumentChunk, String>(e),
                )
            },
    }
}

/// Opens the chunks that were found.
pub(crate) fn open_hits<B: RagBackend>(
    b: &B,
    key: &B::ChunkKey,
    found: Vec<(B::SealedChunk, B::SealedEmbedding, B::Score)>,
) -> (r: Result<Vec<RetrievalHit<B::Score, B::SealedEmbedding>>, String>)
    ensures
        opened(b, key, found@, r),
{
    let ghost all = found@;
    let mut rest: Vec<(B::SealedChunk, B::SealedEmbedding, B::Score)> = found;
    let mut hits: Vec<RetrievalHit<B::Score, B::SealedEmbedding>> = Vec::new();
    while rest.len() > 0
        invariant
            all == found@,
            hits@.len() + rest@.len() == all.len(),
            rest@ == all.skip(hits@.len() as int),
            forall|i: int|
                0 <= i < hits@.len() ==> {
                    &&& call_ensures(
                        B::decrypt_chunk,
                        (b, key, &all[i].0),
                        Ok::<DocumentChunk, String>(
                            DocumentChunk { id: (#[trigger] hits@[i]).id, text: hits@[i].text },
                        ),
                    )
                    &&& hits@[i].embedding == all[i].1
                    &&& hits@[i].score == all[i].2
                },
        decreases rest@.len(),
    {
        let ghost at = hits@.len() as int;
        let (sealed, embedding, score) = rest.remove(0);
        assert(sealed == all[at].0 && embedding == all[at].1 && score == all[at].2);
        match b.decrypt_chunk(key, &sealed) {
            Ok(chunk) => {
                hits.push(RetrievalHit { id: chunk.id, score, text: chunk.text, embedding });
            },
            Err(e) => {
                let ghost first = Seq::new(
                    hits@.len(),
                    |i: int| DocumentChunk { id: hits@[i].id, text: hits@[i].text },
                );
                assert(first.len() < found@.len());
                assert forall|j: int| 0 <= j < first.len() implies call_ensures(
                    B::decrypt_chunk,
                    (b, key, &found@[j].0),
                    Ok::<DocumentChunk, String>(#[trigger] first[j]),
                ) by {
                    assert(hits@[j].id == first[j].id);
                }
                return Err(e);
            },
        }
        assert(rest@ =~= all.skip(at + 1));
    }
    Ok(hits)
}

/// What is said where a model has no vector for a query.
pub open spec fn no_embedding_text() -> Seq<char> {
    "embedder returned no embedding for the query"@
}

/// A query is embedded and sealed, the index searched, and what was found opened; the first
/// step that fails ends it.
pub open spec fn answered<B: RagBackend>(
    b: &B,
    memory: B::Memory,
    cipher: B::Cipher,
    key: &B::ChunkKey,
    index: Option<B::Index>,
    text: Seq<char>,
    top_k: usize,
    memory_after: B::Memory,
    cipher_after: B::Cipher,
    r: Result<Vec<RetrievalHit<B::Score, B::SealedEmbedding>>, String>,
) -> bool {
    exists|vectors: Result<Vec<B::Embedding>, String>|
        {
            &&& #[trigger] embeds(b, memory, seq![text], memory_after, vectors)
            &&& match vectors {
                Err(e) => {
                    &&& r == Err::<Vec<RetrievalHit<B::Score, B::SealedEmbedding>>, String>(e)
                    &&& cipher_after == cipher
                },
                Ok(v) => if v@.len() == 0 {
                    r matches Err(e) && e@ == no_embedding_text() && cipher_after == cipher
                } else {
                    searched(b, cipher, key, index, v@[0], top_k, cipher_after, r)
                },
            }
        }
}

/// The part of [`answered`] that follows the embedding.
pub open spec fn searched<B: RagBackend>(
    b: &B,
    cipher: B::Cipher,
    key: &B::ChunkKey,
    index: Option<B::Index>,
    vector: B::Embedding,
    top_k: usize,
    cipher_after: B::Cipher,
    r: Result<Vec<RetrievalHit<B::Score, B::SealedEmbedding>>, String>,
) -> bool {
    exists|query: Result<B::SealedEmbedding, String>|
        {
            &&& #[trigger] call_ensures(
                B::encrypt_query,
                (b, &cipher, &vector),
                (cipher_after, query),
            )
            &&& match query {
                Err(e) => r == Err::<Vec<RetrievalHit<B::Score, B::SealedEmbedding>>, String>(e),
                Ok(q) => match index {
                    None => r matches Ok(hits) && hits@.len() == 0,
                    Some(ix) => exists|found: Vec<(B::SealedChunk, B::SealedEmbedding, B::Score)>|
                        {
                            &&& #[trigger] call_ensures(B::search, (b, &ix, &q, top_k), found)
                            &&& opened(b, key, found@, r)
                        },
                },
            }
        }
}

/// Embeds some texts.
pub(crate) fn embed_texts<B: RagBackend>(b: &B, memory: &B::Memory, texts: &Vec<String>) -> (r: (
    B::Memory,
    Result<Vec<B::Embedding>, String>,
))
    ensures
        embeds(b, *memory, Seq::new(texts@.len(), |i: int| texts@[i]@), r.0, r.1),
{
    let (after, vectors) = b.embed(memory, texts);
    assert(call_ensures(B::embed, (b, memory, texts), (after, vectors)));
    (after, vectors)
}

/// The texts of some chunks.
pub(crate) fn chunk_texts(chunks: &Vec<DocumentChunk>) -> (r: Vec<String>)
    ensures
        Seq::new(r@.len(), |i: int| r@[i]@) == texts_of(chunks@),
{
    let mut texts: Vec<String> = Vec::new();
    for i in 0..chunks.len()
        invariant
            texts@.len() == i,
            forall|j: int| 0 <= j < i ==> (#[trigger] texts@[j])@ == chunks@[j].text@,
    {
        texts.push(chunks[i].text.clone());
    }
    assert(Seq::new(texts@.len(), |i: int| texts@[i]@) =~= texts_of(chunks@));
    texts
}

/// Runs a query; without an index nothing is found.
pub(crate) fn run_query<B: RagBackend>(
    b: &B,
    memory: &B::Memory,
    cipher: &B::Cipher,
    key: &B::ChunkKey,
    index: Option<&B::Index>,
    text: &String,
    top_k: usize,
) -> (r: (
    B::Memory,
    Option<B::Cipher>,
    Result<Vec<RetrievalHit<B::Score, B::SealedEmbedding>>, String>,
))
    ensures
        answered(
            b,
            *memory,
            *cipher,
            key,
            match index {
                Some(ix) => Some(*ix),
                None => None,
            },
            text@,
            top_k,
            r.0,
            next_cipher(*cipher, r.1),
            r.2,
        ),
{
    let mut texts: Vec<String> = Vec::new();
    texts.push(text.clone());
    let (remembered, vectors) = embed_texts(b, memory, &texts);
    assert(Seq::new(texts@.len(), |i: int| texts@[i]@) =~= seq![text@]);
    assert(embeds(b, *memory, seq![text@], remembered, vectors));
    let vectors: Vec<B::Embedding> = match vectors {
        Ok(v) => v,
        Err(e) => {
            return (remembered, None, Err(e));
        },
    };
    if vectors.len() == 0 {
        let mut message: String = String::new();
        message.append("embedder returned no embedding for the query");
        return (remembered, None, Err(message));
    }
    let (next, query) = b.encrypt_query(cipher, &vectors[0]);
    assert(call_ensures(B::encrypt_query, (b, cipher, &vectors@[0]), (next, query)));
    let query: B::SealedEmbedding = match query {
        Ok(q) => q,
        Err(e) => {
            return (remembered, Some(next), Err(e));
        },
    };
    match index {
        None => (remembered, Some(next), Ok(Vec::new())),
        Some(ix) => {
            let found = b.search(ix, &query, top_k);
            assert(call_ensures(B::search, (b, ix, &query, top_k), found));
            (remembered, Some(next), open_hits(b, key, found))
        },
    }
}

/// What the service of a single owner holds.
#[verifier::reject_recursive_types(B)]
pub struct Holdings<B: RagBackend> {
    pub backend: B,
    pub memory: B::Memory,
    pub cipher: B::Cipher,
    pub key: B::ChunkKey,
    pub index: B::Index,
}

impl<B: RagBackend> Holdings<B> {
    /// Chunks are embedded and stored sealed, in order. Where the model fails nothing is stored;
    /// where a chunk cannot be sealed, those before it stay.
    pub open spec fn ingested(
        self,
        chunks: Seq<DocumentChunk>,
        after: Holdings<B>,
        r: Result<(), String>,
    ) -> bool {
        &&& after == (Holdings {
            memory: after.memory,
            cipher: after.cipher,
            index: after.index,
            ..self
        })
        &&& exists|vectors: Result<Vec<B::Embedding>, String>|
            {
                &&& #[trigger] embeds(
                    &self.backend,
                    self.memory,
                    texts_of(chunks),
                    after.memory,
                    vectors,
                )
                &&& match vectors {
                    Err(e) => {
                        &&& r == Err::<(), String>(e)
                        &&& after.cipher == self.cipher
                        &&& after.index == self.index
                    },
                    Ok(v) => stored(
                        &self.backend,
                        self.cipher,
                        &self.key,
                        chunks,
                        v@,
                        self.index,
                        after.index,
                        after.cipher,
                        r,
                    ),
                }
            }
    }

    /// A query is answered from the index, which stays as it is.
    pub open spec fn queried(
        self,
        text: Seq<char>,
        top_k: usize,
        after: Holdings<B>,
        r: Result<Vec<RetrievalHit<B::Score, B::SealedEmbedding>>, String>,
    ) -> bool {
        &&& after == (Holdings { memory: after.memory, cipher: after.cipher, ..self })
        &&& answered(
            &self.backend,
            self.memory,
            self.cipher,
            &self.key,
            Some(self.index),
            text,
            top_k,
            after.memory,
            after.cipher,
            r,
        )
    }
}

/// The service of a single owner: one pair of ciphers, one index.
pub struct GeloRagInMemoryService<B: RagBackend, V> {
    backend: B,
    verifier: V,
    memory: B::Memory,
    cipher: B::Cipher,
    key: B::ChunkKey,
    index: B::Index,
}

impl<B: RagBackend, V> GeloRagInMemoryService<B, V> {
    pub closed spec fn holdings(&self) -> Holdings<B> {
        Holdings {
            backend: self.backend,
            memory: self.memory,
            cipher: self.cipher,
            key: self.key,
            index: self.index,
        }
    }

    pub closed spec fn judge(&self) -> V {
        self.verifier
    }
}

impl<B: RagBackend, V: AttestationVerifier> GeloRagInMemoryService<B, V> {
    /// A service with a chunk key of its own and an empty index.
    pub fn new(backend: B, verifier: V) -> (r: GeloRagInMemoryService<B, V>)
        ensures
            r.holdings().backend == backend,
            call_ensures(B::fresh_memory, (&backend,), r.holdings().memory),
            call_ensures(B::owner_cipher, (&backend,), r.holdings().cipher),
            call_ensures(B::generate_chunk_key, (&backend,), r.holdings().key),
            call_ensures(B::empty_index, (&backend,), r.holdings().index),
            r.judge() == verifier,
    {
        let memory: B::Memory = backend.fresh_memory();
        let cipher: B::Cipher = backend.owner_cipher();
        let key: B::ChunkKey = backend.generate_chunk_key();
        let index: B::Index = backend.empty_index();
        GeloRagInMemoryService { backend, verifier, memory, cipher, key, index }
    }

    /// Leaves the judgement on evidence to the verifier.
    pub fn attest(&self, evidence: &AttestationEvidence) -> (r: Result<(), String>)
        ensures
            call_ensures(V::verify, (&self.judge(), evidence), r),
    {
        self.verifier.verify(evidence)
    }

    /// Embeds chunks and stores them sealed, in order. Where the model fails nothing is
    /// stored; where a chunk cannot be sealed, those before it stay.
    pub fn ingest_chunks(&mut self, chunks: Vec<DocumentChunk>) -> (r: Result<(), String>)
        ensures
            final(self).judge() == old(self).judge(),
            old(self).holdings().ingested(chunks@, final(self).holdings(), r),
    {
        let texts: Vec<String> = chunk_texts(&chunks);
        let (remembered, vectors) = embed_texts(&self.backend, &self.memory, &texts);
        assert(embeds(
            &old(self).holdings().backend,
            old(self).holdings().memory,
            texts_of(chunks@),
            remembered,
            vectors,
        ));
        self.memory = remembered;
        let vectors: Vec<B::Embedding> = match vectors {
            Ok(v) => v,
            Err(e) => {
                return Err(e);
            },
        };
        let mut index: B::Index = self.backend.empty_index();
        std::mem::swap(&mut index, &mut self.index);
        let (index, next, r) = store_chunks(
            &self.backend,
            &self.cipher,
            &self.key,
            &chunks,
            &vectors,
            index,
        );
        self.index = index;
        if let Some(cipher) = next {
            self.cipher = cipher;
        }
        r
    }

    /// The chunks that fit a query best, opened.
    pub fn query(&mut self, text: &String, top_k: usize) -> (r: Result<
        Vec<RetrievalHit<B::Score, B::SealedEmbedding>>,
        String,
    >)
        ensures
            final(self).judge() == old(self).judge(),
            old(self).holdings().queried(text@, top_k, final(self).holdings(), r),
    {
        let (remembered, next, r) = run_query(
            &self.backend,
            &self.memory,
            &self.cipher,
            &self.key,
            Some(&self.index),
            text,
            top_k,
        );
        self.memory = remembered;
        if let Some(cipher) = next {
            self.cipher = cipher;
        }
        r
    }

    /// Number of chunks in the index.
    pub fn index_len(&self) -> (r: usize)
        ensures
            call_ensures(
                B::index_len,
                (&self.holdings().backend, &self.holdings().index),
                r,
            ),
    {
        self.backend.index_len(&self.index)
    }
}

} // verus!
