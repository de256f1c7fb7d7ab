//! The retrieval services, over a small backend whose vector cipher scales by a secret factor.

use std::collections::HashSet;

use gelo::attestation::{AttestationEvidence, AttestationVerifier, NoopAttestationVerifier};
use gelo::service::{DocumentChunk, GeloRagInMemoryService, RagBackend, RetrievalHit};
use gelo::tenant::{Secret, TenantTable};
use gelo::two_party_service::{GeloRagTwoPartyService, TwoPartyError};

#[derive(Clone, Copy)]
struct Params {
    scale: f32,
    beta: f32,
}

#[derive(Clone, Copy)]
enum Policy {
    V1,
}

/// Same text, same vector; the named fruits have orthogonal ones.
struct Stub;

fn vector_of(text: &str) -> Vec<f32> {
    if text.contains("apple") {
        vec![1.0, 0.0, 0.0]
    } else if text.contains("banana") {
        vec![0.0, 1.0, 0.0]
    } else if text.contains("cherry") {
        vec![0.0, 0.0, 1.0]
    } else {
        vec![0.33, 0.33, 0.33]
    }
}

fn digest(parts: &[&[u8]]) -> u64 {
    let mut h: u64 = 0xcbf2_9ce4_8422_2325;
    for part in parts {
        for b in part.iter() {
            h = (h ^ u64::from(*b)).wrapping_mul(0x0100_0000_01b3);
        }
        h = h.rotate_left(17);
    }
    h
}

impl RagBackend for Stub {
    type Embedding = Vec<f32>;
    type SealedEmbedding = Vec<f32>;
    type SealedChunk = (Vec<u8>, Vec<u8>);
    type Memory = u32;
    type Cipher = (u64, u32);
    type ChunkKey = u64;
    type Index = Vec<((Vec<u8>, Vec<u8>), Vec<f32>)>;
    type Score = f32;
    type Params = Params;
    type Policy = Policy;

    fn fresh_memory(&self) -> u32 {
        0
    }

    fn embed(&self, memory: &u32, texts: &Vec<String>) -> (u32, Result<Vec<Vec<f32>>, String>) {
        let after = memory + 1;
        if texts.iter().any(|t| t.contains("unreadable")) {
            return (after, Err("no embedding".to_string()));
        }
        if texts.iter().any(|t| t.contains("wordless")) {
            return (after, Ok(vec![]));
        }
        if texts.iter().any(|t| t.contains("how often")) {
            return (after, Err(format!("{after} calls")));
        }
        (after, Ok(texts.iter().map(|t| vector_of(t)).collect()))
    }

    fn default_params(&self) -> Params {
        Params { scale: 1.0, beta: 0.05 }
    }

    fn default_policy(&self) -> Policy {
        Policy::V1
    }

    fn owner_cipher(&self) -> (u64, u32) {
        (7, 0)
    }

    fn generate_chunk_key(&self) -> u64 {
        7
    }

    fn derive_keys(
        &self,
        policy: Policy,
        params: Params,
        user_secret: &Secret,
        tee_secret: &Secret,
        tenant: &String,
    ) -> ((u64, u32), u64) {
        let identity = self.scheme_identity(policy, params);
        let key = digest(&[user_secret.bytes(), tee_secret.bytes(), tenant.as_bytes(), &identity]);
        ((key, 0), key)
    }

    fn scheme_identity(&self, policy: Policy, params: Params) -> [u8; 32] {
        let Policy::V1 = policy;
        let mut out = [1u8; 32];
        out[..4].copy_from_slice(&params.scale.to_le_bytes());
        out[4..8].copy_from_slice(&params.beta.to_le_bytes());
        out
    }

    fn encrypt_document(
        &self,
        cipher: &(u64, u32),
        embedding: &Vec<f32>,
    ) -> ((u64, u32), Result<Vec<f32>, String>) {
        let (key, used) = *cipher;
        let factor = 1.0 + (key % 1_000_003) as f32 / 1_000_003.0;
        let mut sealed: Vec<f32> = embedding.iter().map(|x| x * factor).collect();
        // A coordinate that no query looks at tells how often the cipher was used.
        sealed.push(used as f32);
        ((key, used + 1), Ok(sealed))
    }

    fn encrypt_query(
        &self,
        cipher: &(u64, u32),
        embedding: &Vec<f32>,
    ) -> ((u64, u32), Result<Vec<f32>, String>) {
        let (after, sealed) = self.encrypt_document(cipher, embedding);
        (after, sealed.map(|mut v| { v.pop(); v }))
    }

    fn encrypt_chunk(&self, key: &u64, chunk: &DocumentChunk) -> Result<(Vec<u8>, Vec<u8>), String> {
        if chunk.text.contains("unsealable") {
            return Err("cannot seal".to_string());
        }
        let pad = *key as u8;
        let seal = |s: &str| s.bytes().map(|b| b ^ pad).collect::<Vec<u8>>();
        Ok((seal(&chunk.id), seal(&chunk.text)))
    }

    fn decrypt_chunk(&self, key: &u64, sealed: &(Vec<u8>, Vec<u8>)) -> Result<DocumentChunk, String> {
        let pad = *key as u8;
        let open = |s: &Vec<u8>| {
            String::from_utf8(s.iter().map(|b| b ^ pad).collect()).map_err(|e| format!("{e}"))
        };
        Ok(DocumentChunk { id: open(&sealed.0)?, text: open(&sealed.1)? })
    }

    fn empty_index(&self) -> Self::Index {
        vec![]
    }

    fn inserted(
        &self,
        mut index: Self::Index,
        chunk: (Vec<u8>, Vec<u8>),
        embedding: Vec<f32>,
    ) -> Self::Index {
        index.push((chunk, embedding));
        index
    }

    fn search(
        &self,
        index: &Self::Index,
        query: &Vec<f32>,
        top_k: usize,
    ) -> Vec<((Vec<u8>, Vec<u8>), Vec<f32>, f32)> {
        let mut found: Vec<_> = index
            .iter()
            .map(|(c, v)| {
                let score: f32 = v.iter().zip(query).map(|(a, b)| a * b).sum();
                (c.clone(), v.clone(), score)
            })
            .collect();
        found.sort_by(|a, b| b.2.partial_cmp(&a.2).unwrap());
        found.truncate(top_k);
        found
    }

    fn index_len(&self, index: &Self::Index) -> usize {
        index.len()
    }
}

fn sk(byte: u8) -> Secret {
    Secret::new([byte; 32])
}

fn tenant(name: &str) -> String {
    name.to_string()
}

fn doc(id: &str, text: &str) -> DocumentChunk {
    DocumentChunk { id: id.to_string(), text: text.to_string() }
}

type TwoParty = GeloRagTwoPartyService<Stub, NoopAttestationVerifier>;

fn fresh_service() -> TwoParty {
    GeloRagTwoPartyService::new(Stub, NoopAttestationVerifier)
}

fn ingest(service: &mut TwoParty, name: &str, byte: u8, chunks: Vec<DocumentChunk>) {
    assert!(service.ingest_chunks_for(&tenant(name), &mut sk(byte), chunks).is_ok());
}

fn query(
    service: &mut TwoParty,
    name: &str,
    byte: u8,
    text: &str,
    top_k: usize,
) -> Result<Vec<RetrievalHit<f32, Vec<f32>>>, TwoPartyError> {
    service.query_for(&tenant(name), &mut sk(byte), &text.to_string(), top_k)
}

fn hits(
    service: &mut TwoParty,
    name: &str,
    byte: u8,
    text: &str,
    top_k: usize,
) -> Vec<RetrievalHit<f32, Vec<f32>>> {
    match query(service, name, byte, text, top_k) {
        Ok(found) => found,
        Err(e) => panic!("{}", e.message()),
    }
}

fn refusal(
    service: &mut TwoParty,
    name: &str,
    byte: u8,
    text: &str,
    top_k: usize,
) -> TwoPartyError {
    match query(service, name, byte, text, top_k) {
        Ok(_) => panic!("the query was answered"),
        Err(e) => e,
    }
}

#[test]
fn gelo_rag_service_retrieves_expected_chunk() {
    let mut service = GeloRagInMemoryService::new(Stub, NoopAttestationVerifier);
    service
        .ingest_chunks(vec![doc("apple-doc", "apple orchard"), doc("banana-doc", "banana bread")])
        .unwrap();
    let hits = service.query(&"apple pie".to_string(), 1).unwrap_or_default();
    assert_eq!(hits[0].id, "apple-doc");
    assert_eq!(service.index_len(), 2);
}

#[test]
fn ingest_then_query_recovers_chunk() {
    let mut service = fresh_service();
    ingest(
        &mut service,
        "tenant-A",
        0x11,
        vec![doc("apple-doc", "apple orchard"), doc("banana-doc", "banana bread")],
    );
    let found = hits(&mut service, "tenant-A", 0x11, "apple pie", 1);
    assert_eq!(found[0].id, "apple-doc");
}

#[test]
fn unknown_tenant_returns_dedicated_error() {
    let mut service = fresh_service();
    let err = refusal(&mut service, "never-seen", 0x22, "apple", 1);
    assert!(matches!(err, TwoPartyError::UnknownTenant(_)));
}

#[test]
fn happy_path_ingest_then_query() {
    let mut service = fresh_service();
    ingest(
        &mut service,
        "acme-legal",
        0x11,
        vec![
            doc("apple-doc", "apple orchard notes"),
            doc("banana-doc", "banana bread recipe"),
            doc("cherry-doc", "cherry harvest report"),
        ],
    );
    let found = hits(&mut service, "acme-legal", 0x11, "apple pie filling", 1);
    assert_eq!(found.len(), 1);
    assert_eq!(found[0].id, "apple-doc");
    assert_eq!(found[0].text, "apple orchard notes");
}

#[test]
fn query_re_derives_same_keys_across_sessions() {
    let mut service = fresh_service();
    ingest(&mut service, "acme-legal", 0x22, vec![doc("apple-1", "apple")]);
    ingest(&mut service, "acme-legal", 0x22, vec![doc("apple-2", "apple")]);
    let found = hits(&mut service, "acme-legal", 0x22, "apple", 2);
    let ids: HashSet<_> = found.iter().map(|h| h.id.as_str()).collect();
    assert!(ids.contains("apple-1"));
    assert!(ids.contains("apple-2"));
}

#[test]
fn cvm_restart_drops_tenant_loud_failure() {
    let mut session1 = fresh_service();
    ingest(&mut session1, "acme-legal", 0x33, vec![doc("apple-doc", "apple")]);
    assert_eq!(session1.index_len_for(&tenant("acme-legal")), 1);
    drop(session1);

    let mut session2 = fresh_service();
    let err = refusal(&mut session2, "acme-legal", 0x33, "apple", 1);
    assert!(
        matches!(err, TwoPartyError::UnknownTenant(ref t) if *t == "acme-legal"),
        "expected UnknownTenant, got {err:?}"
    );
}

#[test]
fn fresh_tee_secret_under_same_user_sk_yields_unrecoverable_index() {
    let mut session1 = fresh_service();
    ingest(&mut session1, "acme-legal", 0x44, vec![doc("apple-doc", "apple orchard")]);
    let session1_hit = hits(&mut session1, "acme-legal", 0x44, "apple", 1).remove(0);
    drop(session1);

    let mut session2 = fresh_service();
    ingest(&mut session2, "acme-legal", 0x44, vec![doc("apple-doc", "apple orchard")]);
    let session2_hit = hits(&mut session2, "acme-legal", 0x44, "apple", 1).remove(0);

    assert_ne!(session1_hit.embedding, session2_hit.embedding);
}

#[test]
fn cross_tenant_isolation() {
    let mut service = fresh_service();
    ingest(&mut service, "tenant-A", 0x55, vec![doc("apple-doc-A", "apple orchard")]);
    ingest(&mut service, "tenant-B", 0x55, vec![doc("apple-doc-B", "apple orchard")]);
    let hits_a = hits(&mut service, "tenant-A", 0x55, "apple", 1);
    let hits_b = hits(&mut service, "tenant-B", 0x55, "apple", 1);
    assert_eq!(hits_a[0].id, "apple-doc-A");
    assert_eq!(hits_b[0].id, "apple-doc-B");
    assert_ne!(hits_a[0].embedding, hits_b[0].embedding);
}

#[test]
fn unknown_tenant_is_observable() {
    let service = fresh_service();
    assert!(!service.tenant_known(&tenant("never-seen")));
    assert_eq!(service.index_len_for(&tenant("never-seen")), 0);
}

#[test]
fn forget_tenant_zeroes_state() {
    let mut service = fresh_service();
    let t = tenant("acme-legal");
    ingest(&mut service, "acme-legal", 0x66, vec![doc("a", "apple")]);
    assert!(service.tenant_known(&t));
    service.forget_tenant(&t);
    assert!(!service.tenant_known(&t));
    let err = refusal(&mut service, "acme-legal", 0x66, "apple", 1);
    assert!(matches!(err, TwoPartyError::UnknownTenant(_)));
}

#[test]
fn scheme_identity_is_stable_and_param_sensitive() {
    let s_default = fresh_service();
    let s_default2 = fresh_service();
    assert_eq!(s_default.scheme_identity(), s_default2.scheme_identity());

    let s_alt = GeloRagTwoPartyService::with_params(
        Stub,
        NoopAttestationVerifier,
        Params { scale: 16.0, beta: 0.15 },
        Policy::V1,
    );
    assert_ne!(s_default.scheme_identity(), s_alt.scheme_identity());
    assert_eq!(s_alt.scheme_params().scale, 16.0);
    assert!(matches!(s_alt.hkdf_policy(), Policy::V1));
}

#[test]
fn rotate_is_stubbed_but_distinguishes_unknown_tenant() {
    let mut service = fresh_service();
    let t = tenant("acme-legal");

    let err = service.rotate_tenant(&t, &mut sk(0xAA), &mut sk(0xBB)).unwrap_err();
    assert!(matches!(err, TwoPartyError::UnknownTenant(_)));

    ingest(&mut service, "acme-legal", 0x77, vec![doc("a", "apple")]);
    let err = service.rotate_tenant(&t, &mut sk(0xAA), &mut sk(0xBB)).unwrap_err();
    assert!(matches!(err, TwoPartyError::Inner(_)));
    assert_eq!(err.message(), "tenant rotation not implemented (deferred to milestone M8)");
}

#[test]
fn unknown_tenant_is_named_in_the_message() {
    let mut service = fresh_service();
    let err = refusal(&mut service, "nobody", 1, "apple", 1);
    assert_eq!(
        err.message(),
        "tenant nobody unknown \u{2014} re-bootstrap the tenant (CVM may have restarted)"
    );
}

#[test]
fn user_secrets_are_wiped() {
    let mut service = fresh_service();
    let t = tenant("t");
    let mut first = sk(0x31);
    assert!(service.ingest_chunks_for(&t, &mut first, vec![doc("a", "apple")]).is_ok());
    assert_eq!(first.bytes(), &[0u8; 32]);

    let mut second = sk(0x31);
    assert!(service.query_for(&t, &mut second, &"apple".to_string(), 1).is_ok());
    assert_eq!(second.bytes(), &[0u8; 32]);

    let mut third = sk(0x31);
    assert!(service.query_for(&tenant("u"), &mut third, &"apple".to_string(), 1).is_err());
    assert_eq!(third.bytes(), &[0u8; 32]);
}

#[test]
fn known_tenants_are_listed_once() {
    let mut service = fresh_service();
    ingest(&mut service, "a", 1, vec![doc("x", "apple")]);
    ingest(&mut service, "b", 2, vec![doc("y", "banana")]);
    ingest(&mut service, "a", 1, vec![doc("z", "cherry")]);
    let mut names = service.known_tenants();
    names.sort();
    assert_eq!(names, vec!["a", "b"]);
    assert_eq!(service.index_len_for(&tenant("a")), 2);
    assert_eq!(service.index_len_for(&tenant("b")), 1);
    service.forget_tenant(&tenant("a"));
    assert_eq!(service.index_len_for(&tenant("a")), 0);
    assert_eq!(service.index_len_for(&tenant("b")), 1);
}

#[test]
fn failed_ingest_keeps_the_secret_and_what_came_before() {
    let mut service = fresh_service();
    let t = tenant("t");
    let fixed = || sk(0x99);
    let chunks = vec![doc("a", "apple"), doc("b", "unsealable"), doc("c", "cherry")];
    let err = service.ingest_chunks_with(&t, &mut sk(1), chunks, fixed()).unwrap_err();
    assert_eq!(err.message(), "cannot seal");
    assert!(service.tenant_known(&t));
    assert_eq!(service.index_len_for(&t), 1);

    let err =
        service.ingest_chunks_with(&t, &mut sk(1), vec![doc("d", "unreadable")], sk(5)).unwrap_err();
    assert_eq!(err.message(), "no embedding");
    assert_eq!(service.index_len_for(&t), 1);
    // The first secret still opens what was stored.
    assert_eq!(hits(&mut service, "t", 1, "apple", 3)[0].text, "apple");
}

#[test]
fn query_without_an_embedding_is_refused() {
    let mut service = fresh_service();
    ingest(&mut service, "t", 1, vec![doc("a", "apple")]);
    let err = refusal(&mut service, "t", 1, "unreadable", 1);
    assert_eq!(err.message(), "no embedding");
    let err = refusal(&mut service, "t", 1, "wordless", 1);
    assert!(matches!(err, TwoPartyError::Inner(_)));
}

#[test]
fn known_tenant_without_an_index_finds_nothing() {
    let mut service = fresh_service();
    let t = tenant("t");
    assert!(service.ingest_chunks_for(&t, &mut sk(1), vec![doc("a", "unreadable")]).is_err());
    assert!(service.tenant_known(&t));
    assert!(hits(&mut service, "t", 1, "apple", 4).is_empty());
}

#[test]
fn in_memory_service_stops_at_the_first_failure() {
    let mut service = GeloRagInMemoryService::new(Stub, NoopAttestationVerifier);
    let chunks = vec![doc("a", "apple"), doc("b", "unsealable"), doc("c", "cherry")];
    assert_eq!(service.ingest_chunks(chunks).unwrap_err(), "cannot seal");
    assert_eq!(service.index_len(), 1);
    assert!(service.query(&"unreadable".to_string(), 1).is_err());
    assert!(service.query(&"wordless".to_string(), 1).is_err());
    assert_eq!(service.index_len(), 1);
}

#[test]
fn model_and_cipher_carry_on_from_call_to_call() {
    let mut single = GeloRagInMemoryService::new(Stub, NoopAttestationVerifier);
    single.ingest_chunks(vec![doc("a", "apple"), doc("b", "banana")]).unwrap();
    assert_eq!(single.query(&"banana".to_string(), 1).unwrap_or_default()[0].embedding[3], 1.0);
    // Two documents and one query have gone through the cipher.
    single.ingest_chunks(vec![doc("c", "cherry")]).unwrap();
    assert_eq!(single.query(&"cherry".to_string(), 1).unwrap_or_default()[0].embedding[3], 3.0);
    assert!(matches!(single.query(&"how often".to_string(), 1), Err(e) if e == "5 calls"));

    // A tenant's ciphers are derived anew for each request; the model is shared by all.
    let mut shared = fresh_service();
    ingest(&mut shared, "t", 1, vec![doc("a", "apple"), doc("b", "banana")]);
    ingest(&mut shared, "u", 2, vec![doc("c", "cherry")]);
    assert_eq!(hits(&mut shared, "t", 1, "banana", 1)[0].embedding[3], 1.0);
    assert_eq!(hits(&mut shared, "u", 2, "cherry", 1)[0].embedding[3], 0.0);
    assert_eq!(refusal(&mut shared, "t", 1, "how often", 1).message(), "5 calls");
}

/// Accepts one measurement only.
struct Pinned(&'static str);

impl AttestationVerifier for Pinned {
    fn verify(&self, evidence: &AttestationEvidence) -> Result<(), String> {
        if evidence.tee_measurement == self.0 {
            Ok(())
        } else {
            Err(format!("measurement {}", evidence.tee_measurement))
        }
    }
}

#[test]
fn evidence_goes_to_the_verifier() {
    let mut evidence = AttestationEvidence::default();
    evidence.tee_measurement = "good".to_string();
    assert!(NoopAttestationVerifier.verify(&evidence).is_ok());
    let single = GeloRagInMemoryService::new(Stub, Pinned("good"));
    let shared = GeloRagTwoPartyService::new(Stub, Pinned("good"));
    assert!(single.attest(&evidence).is_ok());
    assert!(shared.attest(&evidence).is_ok());
    evidence.tee_measurement = "bad".to_string();
    assert_eq!(single.attest(&evidence).unwrap_err(), "measurement bad");
    assert_eq!(shared.attest(&evidence).unwrap_err(), "measurement bad");
}

#[test]
fn fresh_secrets_differ() {
    assert_ne!(Secret::fresh().bytes(), Secret::fresh().bytes());
    let mut s = sk(9);
    let kept = s.copied();
    s.wipe();
    assert_eq!(s.bytes(), &[0u8; 32]);
    assert_eq!(kept.bytes(), &[9u8; 32]);
}

#[test]
fn tenant_table_maps_names_to_values() {
    let mut table = TenantTable::new();
    table.insert(&tenant("a"), 1);
    table.insert(&tenant("b"), 2);
    table.insert(&tenant("a"), 3);
    assert_eq!(table.get(&tenant("a")), Some(&3));
    assert_eq!(table.get(&tenant("c")), None);
    assert_eq!(table.remove(&tenant("a")), Some(3));
    assert_eq!(table.remove(&tenant("a")), None);
    assert!(!table.contains(&tenant("a")) && table.contains(&tenant("b")));
    assert_eq!(table.names(), vec!["b"]);
}
