//! Component artifacts and guest-originated events.
//!
//! An artifact retains its bytes and a claimed SHA-256 digest; admission
//! rejects an artifact whose bytes do not hash to the digest before any
//! lifecycle work.

use vstd::prelude::*;
use sha2::Digest;
use crate::service::EffectRegistrationError;

verus! {

/// The SHA-256 digest of `data`, as the `sha2` crate computes it.
pub uninterp spec fn sha256(data: Seq<u8>) -> Seq<u8>;

/// `sha2::Sha256::digest`: the 32-byte SHA-256 digest of `data`. The contract
/// names the result `sha256(data)`; that it is SHA-256 is not stated.
#[verifier::external_body]
fn sha256_digest(data: &[u8]) -> (r: [u8; 32])
    ensures
        r@ == sha256(data@),
{
    let out = sha2::Sha256::digest(data);
    out.into()
}

/// An opaque event emitted by a guest Component.
#[derive(Debug, Clone, PartialEq, Eq)]
pub struct ComponentEvent {
    name: String,
    payload: Vec<u8>,
}

impl ComponentEvent {
    pub closed spec fn spec_name(&self) -> Seq<char> {
        self.name@
    }

    pub closed spec fn spec_payload(&self) -> Seq<u8> {
        self.payload@
    }

    /// Construct one event for delivery to guest-event observers.
    pub fn new(name: String, payload: Vec<u8>) -> (e: ComponentEvent)
        ensures
            e.spec_name() == name@,
            e.spec_payload() == payload@,
    {
        ComponentEvent { name, payload }
    }

    /// The guest-defined event name.
    pub fn name(&self) -> (n: &str)
        ensures
            n@ == self.spec_name(),
    {
        self.name.as_str()
    }

    /// The guest-defined opaque payload.
    pub fn payload(&self) -> (p: &[u8])
        ensures
            p@ == self.spec_payload(),
    {
        self.payload.as_slice()
    }
}

/// Failure while admitting a Component artifact.
#[derive(Debug, Clone, Copy, PartialEq, Eq, Structural)]
pub enum ComponentPrepareError {
    /// The artifact bytes do not match their claimed digest.
    DigestMismatch,
}

/// Source bytes and the claimed SHA-256 digest of one guest artifact.
pub struct ComponentArtifact {
    bytes: Vec<u8>,
    digest: [u8; 32],
}

impl ComponentArtifact {
    pub closed spec fn spec_bytes(&self) -> Seq<u8> {
        self.bytes@
    }

    pub closed spec fn spec_digest(&self) -> Seq<u8> {
        self.digest@
    }

    /// Retain an artifact and derive its SHA-256 content digest.
    pub fn from_bytes(bytes: Vec<u8>) -> (a: ComponentArtifact)
        ensures
            a.spec_bytes() == bytes@,
            a.spec_digest() == sha256(bytes@),
    {
        let digest = sha256_digest(bytes.as_slice());
        ComponentArtifact { bytes, digest }
    }

    /// Retain an artifact with an externally supplied digest for admission checks.
    pub fn with_digest(bytes: Vec<u8>, digest: [u8; 32]) -> (a: ComponentArtifact)
        ensures
            a.spec_bytes() == bytes@,
            a.spec_digest() == digest@,
    {
        ComponentArtifact { bytes, digest }
    }

    /// The artifact bytes.
    pub fn bytes(&self) -> (b: &[u8])
        ensures
            b@ == self.spec_bytes(),
    {
        self.bytes.as_slice()
    }

    /// Admission: the bytes must hash to the claimed digest.
    pub fn check_digest(&self) -> (r: Result<(), ComponentPrepareError>)
        ensures
            r is Ok <==> sha256(self.spec_bytes()) == self.spec_digest(),
            r is Err ==> r == Err::<(), ComponentPrepareError>(ComponentPrepareError::DigestMismatch),
    {
        let actual = sha256_digest(self.bytes.as_slice());
        if digest_matches(&actual, &self.digest) {
            Ok(())
        } else {
            Err(ComponentPrepareError::DigestMismatch)
        }
    }
}

/// Whether a computed digest equals the claimed one, byte for byte.
pub fn digest_matches(actual: &[u8; 32], claimed: &[u8; 32]) -> (b: bool)
    ensures
        b == (actual@ == claimed@),
{
    let mut i: usize = 0;
    while i < 32
        invariant
            i <= 32,
            actual@.len() == 32,
            claimed@.len() == 32,
            forall|k: int| 0 <= k < i ==> actual@[k] == claimed@[k],
        decreases 32 - i,
    {
        if actual[i] != claimed[i] {
            proof {
                assert(actual@[i as int] != claimed@[i as int]);
            }
            return false;
        }
        i = i + 1;
    }
    proof {
        assert(actual@ =~= claimed@);
    }
    true
}


/// Failure while applying one guest component generation.
#[derive(Debug, PartialEq, Eq)]
pub enum ComponentApplyError<I, G> {
    /// The component could not be instantiated.
    Instantiate(I),
    /// The guest failed while activation was in progress.
    Activate(G),
    /// The generation no longer admitted the cleanup obligation.
    CleanupRegistration(EffectRegistrationError),
}

/// Where the application of one guest generation stands.
#[derive(Debug, Clone, Copy, PartialEq, Eq, Structural)]
pub enum ApplyPhase {
    /// Waiting for the instance.
    Instantiating,
    /// Waiting for the generation to take the disposal cleanup.
    Registering,
    /// The cleanup was refused; waiting for the guest to be disposed once.
    DisposingAfterRefusal { error: EffectRegistrationError },
    /// The cleanup is registered; waiting for activation.
    Activating,
    /// The application has finished.
    Finished,
}

/// What the outside work of one step reported.
#[derive(Debug, PartialEq, Eq)]
pub enum ApplyEvent<I, G> {
    Instantiated,
    InstantiateFailed(I),
    CleanupRegistered,
    CleanupRefused(EffectRegistrationError),
    /// The guest was disposed (its own outcome is not reported on this path).
    Disposed,
    Activated,
    ActivateFailed(G),
}

/// What to do next.
#[derive(Debug, PartialEq, Eq)]
pub enum ApplyAction<I, G> {
    /// Register the guest's disposal as a cleanup of the generation.
    RegisterCleanup,
    /// Dispose the guest now.
    Dispose,
    /// Run the guest's activation.
    Activate,
    /// Return this result from the application.
    Finish(Result<(), ComponentApplyError<I, G>>),
    /// The event does not belong to this phase: nothing to do.
    Wait,
}

/// The decisions of applying one guest generation: once instantiated,
/// register the disposal cleanup; a refused cleanup disposes the guest once
/// and then reports the refusal; once registered, activate, and an activation
/// failure is reported with disposal left to the registered cleanup.
pub open spec fn spec_apply_step<I, G>(phase: ApplyPhase, event: ApplyEvent<I, G>) -> (ApplyPhase, ApplyAction<I, G>) {
    match (phase, event) {
        (ApplyPhase::Instantiating, ApplyEvent::Instantiated) => (ApplyPhase::Registering, ApplyAction::RegisterCleanup),
        (ApplyPhase::Instantiating, ApplyEvent::InstantiateFailed(e)) => (
            ApplyPhase::Finished,
            ApplyAction::Finish(Err(ComponentApplyError::Instantiate(e))),
        ),
        (ApplyPhase::Registering, ApplyEvent::CleanupRegistered) => (ApplyPhase::Activating, ApplyAction::Activate),
        (ApplyPhase::Registering, ApplyEvent::CleanupRefused(e)) => (
            ApplyPhase::DisposingAfterRefusal { error: e },
            ApplyAction::Dispose,
        ),
        (ApplyPhase::DisposingAfterRefusal { error }, ApplyEvent::Disposed) => (
            ApplyPhase::Finished,
            ApplyAction::Finish(Err(ComponentApplyError::CleanupRegistration(error))),
        ),
        (ApplyPhase::Activating, ApplyEvent::Activated) => (ApplyPhase::Finished, ApplyAction::Finish(Ok(()))),
        (ApplyPhase::Activating, ApplyEvent::ActivateFailed(g)) => (
            ApplyPhase::Finished,
            ApplyAction::Finish(Err(ComponentApplyError::Activate(g))),
        ),
        (p, _) => (p, ApplyAction::Wait),
    }
}

/// One decision of applying a guest generation.
pub fn apply_step<I, G>(phase: ApplyPhase, event: ApplyEvent<I, G>) -> (r: (ApplyPhase, ApplyAction<I, G>))
    ensures
        r == spec_apply_step(phase, event),
{
    match (phase, event) {
        (ApplyPhase::Instantiating, ApplyEvent::Instantiated) => (ApplyPhase::Registering, ApplyAction::RegisterCleanup),
        (ApplyPhase::Instantiating, ApplyEvent::InstantiateFailed(e)) => (
            ApplyPhase::Finished,
            ApplyAction::Finish(Err(ComponentApplyError::Instantiate(e))),
        ),
        (ApplyPhase::Registering, ApplyEvent::CleanupRegistered) => (ApplyPhase::Activating, ApplyAction::Activate),
        (ApplyPhase::Registering, ApplyEvent::CleanupRefused(e)) => (
            ApplyPhase::DisposingAfterRefusal { error: e },
            ApplyAction::Dispose,
        ),
        (ApplyPhase::DisposingAfterRefusal { error }, ApplyEvent::Disposed) => (
            ApplyPhase::Finished,
            ApplyAction::Finish(Err(ComponentApplyError::CleanupRegistration(error))),
        ),
        (ApplyPhase::Activating, ApplyEvent::Activated) => (ApplyPhase::Finished, ApplyAction::Finish(Ok(()))),
        (ApplyPhase::Activating, ApplyEvent::ActivateFailed(g)) => (
            ApplyPhase::Finished,
            ApplyAction::Finish(Err(ComponentApplyError::Activate(g))),
        ),
        (p, _) => (p, ApplyAction::Wait),
    }
}

} // verus!
