//! A retrieval service for many tenants, none of whose keys it can make alone.
//!
//! A tenant's keys are derived anew for every request from the tenant's secret, which comes
//! with the request and is wiped before it ends, and from a secret of the service's own for
//! that tenant, which lives in memory only.

use vstd::prelude::*;

use crate::attestation::{AttestationEvidence, AttestationVerifier};
use crate::service;
use crate::service::{DocumentChunk, RagBackend, RetrievalHit};
use crate::tenant;
use crate::tenant::{Secret, TenantTable};

verus! {

/// Why a request failed.
#[derive(Debug)]
pub enum TwoPartyError {
    /// The service has no secret for this tenant: it was never set up, or was lost.
    UnknownTenant(String),
    /// Anything else.
    Inner(String),
}

/// What is said to a request to change a tenant's secret.
pub open spec fn rotation_text() -> Seq<char> {
    "tenant rotation not implemented (deferred to milestone M8)"@
}

impl TwoPartyError {
    /// What the error says.
    pub open spec fn text(self) -> Seq<char> {
        match self {
            TwoPartyError::UnknownTenant(name) => "tenant "@ + name@
                + " unknown \u{2014} re-bootstrap the tenant (CVM may have restarted)"@,
            TwoPartyError::Inner(message) => message@,
        }
    }

    pub fn message(&self) -> (r: String)
        ensures
            r@ == self.text(),
    {
        let mut out: String = String::new();
        match self {
            TwoPartyError::UnknownTenant(name) => {
                out.append("tenant ");
                out.append(name.as_str());
                out.append(" unknown \u{2014} re-bootstrap the tenant (CVM may have restarted)");
            },
            TwoPartyError::Inner(message) => {
                out.append(message.as_str());
            },
        }
        assert(out@ =~= self.text());
        out
    }
}

/// What the service holds.
#[verifier::reject_recursive_types(B)]
#[verifier::ext_equal]
pub struct State<B: RagBackend> {
    pub backend: B,
    /// What the model carries on.
    pub memory: B::Memory,
    /// The service's own secret for each tenant.
    pub secrets: Map<Seq<char>, Secret>,
    /// The index of each tenant that has stored something.
    pub indices: Map<Seq<char>, B::Index>,
    pub params: B::Params,
    pub policy: B::Policy,
}

impl<B: RagBackend> State<B> {
    /// These ciphers may be derived for a tenant from these two secrets.
    pub open spec fn derives(
        self,
        user_secret: Secret,
        tee_secret: Secret,
        name: String,
        keys: (B::Cipher, B::ChunkKey),
    ) -> bool {
        call_ensures(
            B::derive_keys,
            (&self.backend, self.policy, self.params, &user_secret, &tee_secret, &name),
            keys,
        )
    }

    /// The index of a tenant, if there is one.
    pub open spec fn index_of(self, name: Seq<char>) -> Option<B::Index> {
        if self.indices.contains_key(name) {
            Some(self.indices[name])
        } else {
            None
        }
    }

    /// Everything of a tenant is gone.
    pub open spec fn without(self, name: Seq<char>) -> State<B> {
        State {
            secrets: self.secrets.remove(name),
            indices: self.indices.remove(name),
            ..self
        }
    }

    /// With a secret for a tenant that had none.
    pub open spec fn introduced(self, name: Seq<char>, fresh: Secret) -> State<B> {
        if self.secrets.contains_key(name) {
            self
        } else {
            State { secrets: self.secrets.insert(name, fresh), ..self }
        }
    }

    /// Storing chunks for a tenant whose secret is known. Where the model fails nothing is
    /// stored; where a chunk cannot be sealed, those before it stay. The ciphers are derived
    /// anew each time, and what they carry is not kept.
    pub open spec fn ingested(
        self,
        name: String,
        user_secret: Secret,
        chunks: Seq<DocumentChunk>,
        after: State<B>,
        r: Result<(), TwoPartyError>,
    ) -> bool {
        exists|keys: (B::Cipher, B::ChunkKey), vectors: Result<Vec<B::Embedding>, String>|
            {
                &&& #[trigger] self.derives(user_secret, self.secrets[name@], name, keys)
                &&& #[trigger] service::embeds(
                    &self.backend,
                    self.memory,
                    service::texts_of(chunks),
                    after.memory,
                    vectors,
                )
                &&& match vectors {
                    Err(e) => {
                        &&& r == Err::<(), TwoPartyError>(TwoPartyError::Inner(e))
                        &&& after == (State { memory: after.memory, ..self })
                    },
                    Ok(v) => {
                        &&& after == (State {
                            memory: after.memory,
                            indices: self.indices.insert(name@, after.indices[name@]),
                            ..self
                        })
                        &&& exists|start: B::Index, used: B::Cipher|
                            {
                                &&& self.starts_from(name@, start)
                                &&& #[trigger] service::stored(
                                    &self.backend,
                                    keys.0,
                                    &keys.1,
                                    chunks,
                                    v@,
                                    start,
                                    after.indices[name@],
                                    used,
                                    inner_of(r),
                                )
                            }
                        &&& r matches Err(e) ==> e is Inner
                    },
                }
            }
    }

    /// `start` is the tenant's index, or an empty one where there is none.
    pub open spec fn starts_from(self, name: Seq<char>, start: B::Index) -> bool {
        match self.index_of(name) {
            Some(ix) => start == ix,
            None => call_ensures(B::empty_index, (&self.backend,), start),
        }
    }

    /// `n` is the backend's count of what a tenant has stored; none where there is no index.
    pub open spec fn counts(self, name: Seq<char>, n: usize) -> bool {
        match self.index_of(name) {
            Some(ix) => call_ensures(B::index_len, (&self.backend, &ix), n),
            None => n == 0,
        }
    }

    /// A query of a tenant whose secret is known.
    pub open spec fn queried(
        self,
        name: String,
        user_secret: Secret,
        text: Seq<char>,
        top_k: usize,
        after: State<B>,
        r: Result<Vec<RetrievalHit<B::Score, B::SealedEmbedding>>, TwoPartyError>,
    ) -> bool {
        exists|keys: (B::Cipher, B::ChunkKey), used: B::Cipher|
            {
                &&& #[trigger] self.derives(user_secret, self.secrets[name@], name, keys)
                &&& after == (State { memory: after.memory, ..self })
                &&& #[trigger] service::answered(
                    &self.backend,
                    self.memory,
                    keys.0,
                    &keys.1,
                    self.index_of(name@),
                    text,
                    top_k,
                    after.memory,
                    used,
                    inner_of(r),
                )
                &&& r matches Err(e) ==> e is Inner
            }
    }
}

/// The result with the inner error alone.
pub open spec fn inner_of<X>(r: Result<X, TwoPartyError>) -> Result<X, String> {
    match r {
        Ok(x) => Ok(x),
        Err(TwoPartyError::Inner(e)) => Err(e),
        Err(TwoPartyError::UnknownTenant(e)) => Err(e),
    }
}

/// A tenant that was forgotten is unknown and has no index; every other tenant keeps both.
pub proof fn law_forgotten_tenant_is_unknown<B: RagBackend>(
    st: State<B>,
    name: Seq<char>,
    other: Seq<char>,
)
    ensures
        !st.without(name).secrets.contains_key(name),
        st.without(name).index_of(name) is None,
        other != name ==> {
            &&& st.without(name).secrets.contains_key(other) == st.secrets.contains_key(other)
            &&& st.secrets.contains_key(other) ==> st.without(name).secrets[other]
                == st.secrets[other]
            &&& st.without(name).index_of(other) == st.index_of(other)
        },
{
}

/// First contact fixes the service's secret for a tenant: a second one changes nothing.
pub proof fn law_first_secret_stays<B: RagBackend>(
    st: State<B>,
    name: Seq<char>,
    fresh: Secret,
    later: Secret,
)
    ensures
        st.introduced(name, fresh).introduced(name, later) == st.introduced(name, fresh),
        st.introduced(name, fresh).secrets.contains_key(name),
        st.secrets.contains_key(name) ==> st.introduced(name, fresh) == st,
{
}

/// Storing chunks touches the tenant's index alone: all secrets, and the indices of all other
/// tenants, stay as they are.
pub proof fn law_ingest_touches_one_index<B: RagBackend>(
    st: State<B>,
    name: String,
    user_secret: Secret,
    chunks: Seq<DocumentChunk>,
    after: State<B>,
    r: Result<(), TwoPartyError>,
    other: Seq<char>,
)
    requires
        st.ingested(name, user_secret, chunks, after, r),
    ensures
        after.secrets == st.secrets,
        after.backend == st.backend,
        after.params == st.params,
        after.policy == st.policy,
        other != name@ ==> after.index_of(other) == st.index_of(other),
{
}

/// The service for many tenants.
pub struct GeloRagTwoPartyService<B: RagBackend, V> {
    backend: B,
    memory: B::Memory,
    verifier: V,
    tee_secrets: TenantTable<Secret>,
    indices: TenantTable<B::Index>,
    scheme_params: B::Params,
    hkdf_policy: B::Policy,
}

impl<B: RagBackend, V> View for GeloRagTwoPartyService<B, V> {
    type V = State<B>;

    closed spec fn view(&self) -> State<B> {
        State {
            backend: self.backend,
            memory: self.memory,
            secrets: self.tee_secrets@,
            indices: self.indices@,
            params: self.scheme_params,
            policy: self.hkdf_policy,
        }
    }
}

impl<B: RagBackend, V> GeloRagTwoPartyService<B, V> {
    pub closed spec fn judge(&self) -> V {
        self.verifier
    }
}

impl<B: RagBackend, V: AttestationVerifier> GeloRagTwoPartyService<B, V> {
    /// A service without tenants, with the backend's usual constants and policy.
    pub fn new(backend: B, verifier: V) -> (r: GeloRagTwoPartyService<B, V>)
        ensures
            r@.backend == backend,
            call_ensures(B::fresh_memory, (&backend,), r@.memory),
            r@.secrets == Map::<Seq<char>, Secret>::empty(),
            r@.indices == Map::<Seq<char>, B::Index>::empty(),
            call_ensures(B::default_params, (&backend,), r@.params),
            call_ensures(B::default_policy, (&backend,), r@.policy),
            r.judge() == verifier,
    {
        let params: B::Params = backend.default_params();
        let policy: B::Policy = backend.default_policy();
        GeloRagTwoPartyService::with_params(backend, verifier, params, policy)
    }

    /// A service without tenants.
    pub fn with_params(
        backend: B,
        verifier: V,
        scheme_params: B::Params,
        hkdf_policy: B::Policy,
    ) -> (r: GeloRagTwoPartyService<B, V>)
        ensures
            r@ == (State {
                backend,
                memory: r@.memory,
                secrets: Map::empty(),
                indices: Map::empty(),
                params: scheme_params,
                policy: hkdf_policy,
            }),
            call_ensures(B::fresh_memory, (&backend,), r@.memory),
            r.judge() == verifier,
    {
        let memory: B::Memory = backend.fresh_memory();
        GeloRagTwoPartyService {
            backend,
            memory,
            verifier,
            tee_secrets: TenantTable::new(),
            indices: TenantTable::new(),
            scheme_params,
            hkdf_policy,
        }
    }

    /// Leaves the judgement on evidence to the verifier.
    pub fn attest(&self, evidence: &AttestationEvidence) -> (r: Result<(), String>)
        ensures
            call_ensures(V::verify, (&self.judge(), evidence), r),
    {
        self.verifier.verify(evidence)
    }

    /// Digest of how keys are derived and used.
    pub fn scheme_identity(&self) -> (r: [u8; 32])
        ensures
            call_ensures(
                B::scheme_identity,
                (&self@.backend, self@.policy, self@.params),
                r,
            ),
    {
        self.backend.scheme_identity(self.hkdf_policy, self.scheme_params)
    }

    pub fn scheme_params(&self) -> (r: B::Params)
        ensures
            r == self@.params,
    {
        self.scheme_params
    }

    pub fn hkdf_policy(&self) -> (r: B::Policy)
        ensures
            r == self@.policy,
    {
        self.hkdf_policy
    }

    pub fn tenant_known(&self, tenant_id: &String) -> (r: bool)
        ensures
            r == self@.secrets.contains_key(tenant_id@),
    {
        self.tee_secrets.contains(tenant_id)
    }

    /// The tenants that have a secret, each once.
    pub fn known_tenants(&self) -> (r: Vec<String>)
        ensures
            forall|name: Seq<char>|
                self@.secrets.contains_key(name) <==> exists|i: int|
                    0 <= i < r@.len() && #[trigger] r@[i]@ == name,
            forall|i: int, j: int| 0 <= i < j < r@.len() ==> r@[i]@ != r@[j]@,
    {
        self.tee_secrets.names()
    }

    /// Number of chunks that a tenant has stored.
    pub fn index_len_for(&self, tenant_id: &String) -> (r: usize)
        ensures
            self@.counts(tenant_id@, r),
    {
        match self.indices.get(tenant_id) {
            Some(ix) => self.backend.index_len(ix),
            None => 0,
        }
    }

    /// Wipes a tenant's secret and drops everything of the tenant.
    pub fn forget_tenant(&mut self, tenant_id: &String)
        ensures
            final(self)@ == old(self)@.without(tenant_id@),
            final(self).judge() == old(self).judge(),
    {
        let _ = self.take_wiped_secret(tenant_id);
        let _ = self.indices.remove(tenant_id);
    }

    /// Takes the service's secret for a tenant out, wiped.
    fn take_wiped_secret(&mut self, tenant_id: &String) -> (r: Option<Secret>)
        ensures
            r is Some <==> old(self)@.secrets.contains_key(tenant_id@),
            r matches Some(s) ==> s@ == tenant::wiped(),
            final(self)@ == (State {
                secrets: old(self)@.secrets.remove(tenant_id@),
                ..old(self)@
            }),
            final(self).judge() == old(self).judge(),
    {
        match self.tee_secrets.remove(tenant_id) {
            Some(mut secret) => {
                secret.wipe();
                Some(secret)
            },
            None => None,
        }
    }

    /// The secret for a tenant; `fresh` becomes it where there is none.
    fn or_create_tee_secret(&mut self, tenant_id: &String, fresh: Secret) -> (r: Secret)
        ensures
            final(self)@ == old(self)@.introduced(tenant_id@, fresh),
            final(self).judge() == old(self).judge(),
            r == final(self)@.secrets[tenant_id@],
            final(self)@.secrets.contains_key(tenant_id@),
    {
        let copy: Option<Secret> = match self.tee_secrets.get(tenant_id) {
            Some(secret) => Some(secret.copied()),
            None => None,
        };
        match copy {
            Some(secret) => secret,
            None => {
                let secret: Secret = fresh.copied();
                self.tee_secrets.insert(tenant_id, fresh);
                secret
            },
        }
    }

    /// Stores chunks for a tenant. A tenant without a secret gets `fresh` for one, and keeps
    /// it whatever happens next. The tenant's own secret is wiped in the end.
    pub fn ingest_chunks_with(
        &mut self,
        tenant_id: &String,
        user_x_sk: &mut Secret,
        chunks: Vec<DocumentChunk>,
        fresh: Secret,
    ) -> (r: Result<(), TwoPartyError>)
        ensures
            old(self)@.introduced(tenant_id@, fresh).ingested(
                *tenant_id,
                *old(user_x_sk),
                chunks@,
                final(self)@,
                r,
            ),
            final(self).judge() == old(self).judge(),
            final(user_x_sk)@ == tenant::wiped(),
    {
        let mut tee_sk: Secret = self.or_create_tee_secret(tenant_id, fresh);
        let ghost begun = self@;
        let keys: (B::Cipher, B::ChunkKey) = self.backend.derive_keys(
            self.hkdf_policy,
            self.scheme_params,
            user_x_sk,
            &tee_sk,
            tenant_id,
        );
        assert(begun.derives(*old(user_x_sk), begun.secrets[tenant_id@], *tenant_id, keys));
        user_x_sk.wipe();
        tee_sk.wipe();
        let texts: Vec<String> = service::chunk_texts(&chunks);
        let (remembered, vectors) = service::embed_texts(&self.backend, &self.memory, &texts);
        assert(service::embeds(
            &begun.backend,
            begun.memory,
            service::texts_of(chunks@),
            remembered,
            vectors,
        ));
        self.memory = remembered;
        let vectors: Vec<B::Embedding> = match vectors {
            Ok(v) => v,
            Err(e) => {
                return Err(TwoPartyError::Inner(e));
            },
        };
        let index: B::Index = match self.indices.remove(tenant_id) {
            Some(ix) => ix,
            None => self.backend.empty_index(),
        };
        assert(begun.starts_from(tenant_id@, index));
        let ghost start = index;
        let (index, next, r) = service::store_chunks(
            &self.backend,
            &keys.0,
            &keys.1,
            &chunks,
            &vectors,
            index,
        );
        self.indices.insert(tenant_id, index);
        assert(self@ =~= (State {
            memory: remembered,
            indices: begun.indices.insert(tenant_id@, self@.indices[tenant_id@]),
            ..begun
        }));
        let out: Result<(), TwoPartyError> = match r {
            Ok(_) => Ok(()),
            Err(e) => Err(TwoPartyError::Inner(e)),
        };
        assert(service::stored(
            &begun.backend,
            keys.0,
            &keys.1,
            chunks@,
            vectors@,
            start,
            self@.indices[tenant_id@],
            service::next_cipher(keys.0, next),
            inner_of(out),
        ));
        out
    }

    /// Stores chunks for a tenant; one without a secret gets a fresh one, drawn at
    /// random.
    pub fn ingest_chunks_for(
        &mut self,
        tenant_id: &String,
        user_x_sk: &mut Secret,
        chunks: Vec<DocumentChunk>,
    ) -> (r: Result<(), TwoPartyError>)
        ensures
            exists|fresh: Secret|
                {
                    &&& fresh.is_drawn()
                    &&& #[trigger] old(self)@.introduced(tenant_id@, fresh).ingested(
                        *tenant_id,
                        *old(user_x_sk),
                        chunks@,
                        final(self)@,
                        r,
                    )
                },
            final(self).judge() == old(self).judge(),
            final(user_x_sk)@ == tenant::wiped(),
    {
        let fresh: Secret = Secret::fresh();
        self.ingest_chunks_with(tenant_id, user_x_sk, chunks, fresh)
    }

    /// The chunks of a tenant that fit a query best, opened. The tenant's own secret is wiped
    /// in the end.
    pub fn query_for(
        &mut self,
        tenant_id: &String,
        user_x_sk: &mut Secret,
        text: &String,
        top_k: usize,
    ) -> (r: Result<Vec<RetrievalHit<B::Score, B::SealedEmbedding>>, TwoPartyError>)
        ensures
            final(self).judge() == old(self).judge(),
            final(user_x_sk)@ == tenant::wiped(),
            if !old(self)@.secrets.contains_key(tenant_id@) {
                &&& r matches Err(TwoPartyError::UnknownTenant(name)) && name@ == tenant_id@
                &&& *final(self) == *old(self)
            } else {
                old(self)@.queried(*tenant_id, *old(user_x_sk), text@, top_k, final(self)@, r)
            },
    {
        let mut tee_sk: Secret = match self.tee_secrets.get(tenant_id) {
            Some(secret) => secret.copied(),
            None => {
                user_x_sk.wipe();
                return Err(TwoPartyError::UnknownTenant(tenant_id.clone()));
            },
        };
        let keys: (B::Cipher, B::ChunkKey) = self.backend.derive_keys(
            self.hkdf_policy,
            self.scheme_params,
            user_x_sk,
            &tee_sk,
            tenant_id,
        );
        assert(self@.derives(*old(user_x_sk), self@.secrets[tenant_id@], *tenant_id, keys));
        user_x_sk.wipe();
        tee_sk.wipe();
        let (remembered, next, found) = service::run_query(
            &self.backend,
            &self.memory,
            &keys.0,
            &keys.1,
            self.indices.get(tenant_id),
            text,
            top_k,
        );
        self.memory = remembered;
        let r: Result<Vec<RetrievalHit<B::Score, B::SealedEmbedding>>, TwoPartyError> = match found {
            Ok(hits) => Ok(hits),
            Err(e) => Err(TwoPartyError::Inner(e)),
        };
        assert(service::answered(
            &old(self)@.backend,
            old(self)@.memory,
            keys.0,
            &keys.1,
            old(self)@.index_of(tenant_id@),
            text@,
            top_k,
            self@.memory,
            service::next_cipher(keys.0, next),
            inner_of(r),
        ));
        r
    }

    /// Changing a tenant's secret: refused, for an unknown tenant as such.
    pub fn rotate_tenant(
        &mut self,
        tenant_id: &String,
        old_user_x_sk: &mut Secret,
        new_user_x_sk: &mut Secret,
    ) -> (r: Result<(), TwoPartyError>)
        ensures
            *final(self) == *old(self),
            final(old_user_x_sk)@ == tenant::wiped(),
            final(new_user_x_sk)@ == tenant::wiped(),
            if !old(self)@.secrets.contains_key(tenant_id@) {
                r matches Err(TwoPartyError::UnknownTenant(name)) && name@ == tenant_id@
            } else {
                r matches Err(TwoPartyError::Inner(e)) && e@ == rotation_text()
            },
    {
        old_user_x_sk.wipe();
        new_user_x_sk.wipe();
        if !self.tenant_known(tenant_id) {
            return Err(TwoPartyError::UnknownTenant(tenant_id.clone()));
        }
        let mut message: String = String::new();
        message.append("tenant rotation not implemented (deferred to milestone M8)");
        Err(TwoPartyError::Inner(message))
    }
}

} // verus!
