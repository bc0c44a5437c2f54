//! The error taxonomy of the pipeline.
//!
//! Every failure is fatal for the whole run: a silently dropped epoch would
//! corrupt the validator-set chain trusted by every subsequent epoch, so no
//! error here is ever downgraded to a partial result.

use vstd::prelude::*;

verus! {

/// Why a decode, fetch or verification step failed.
#[derive(Clone, Copy, Debug, PartialEq, Eq, Structural)]
pub enum PipelineError {
    /// Structural decode failure: wrong field count, wrong field type, or a
    /// byte buffer that does not follow the header-extra wire format.
    MalformedRecord,
    /// A public-key or signature byte-string failed to deserialize into a
    /// valid group element; distinguished from `MalformedRecord` because it
    /// indicates tampering or a version mismatch rather than a parsing bug.
    /// Raised by the caller on behalf of the cryptographic collaborator that
    /// deserializes group elements; the structural decoders here cannot
    /// judge group membership and never produce it themselves.
    CorruptCryptoMaterial,
    /// The node collaborator could not return a requested block or validator
    /// list. Raised by the caller that performs the fetches.
    FetchFailure,
    /// An aggregate signature did not validate against the aggregated subset
    /// key of the previous epoch's validator set. Raised by the caller on
    /// behalf of the signature-verification collaborator.
    VerificationFailure,
}

} // verus!
