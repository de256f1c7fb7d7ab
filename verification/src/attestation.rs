//! Evidence that a service runs inside a trusted environment, and who judges it.

use vstd::prelude::*;

verus! {

/// What a trusted environment says of itself.
#[derive(Debug, Clone, Default)]
pub struct AttestationEvidence {
    pub tee_measurement: String,
    pub model_identity: String,
    pub scheme_identity: String,
    /// Raw hardware report, where the backend has one.
    pub report: Option<Vec<u8>>,
    /// Certificate that signed the report.
    pub vcek_cert: Option<Vec<u8>>,
}

/// Judges evidence; an error says why it was refused.
pub trait AttestationVerifier {
    fn verify(&self, evidence: &AttestationEvidence) -> Result<(), String>;
}

/// Accepts everything.
#[derive(Debug, Default, Clone, Copy)]
pub struct NoopAttestationVerifier;

impl AttestationVerifier for NoopAttestationVerifier {
    fn verify(&self, _evidence: &AttestationEvidence) -> (r: Result<(), String>)
        ensures
            r == Ok::<(), String>(()),
    {
        Ok(())
    }
}

} // verus!
