//! Protocol errors: every rejected input is reported with the specific
//! reason, and the caller's state is left unchanged.

use vstd::prelude::*;

verus! {

/// Why an input was rejected by the protocol logic.
#[derive(Clone, Copy, Debug, PartialEq, Eq, Structural)]
pub enum Error {
    /// Bytes could not be parsed as the expected message or value.
    FailedToParse,
    /// A signature did not verify under the expected key.
    InvalidSignature,
    /// A section authority carried a key generation counter that is not
    /// newer than one already held for an overlapping prefix.
    StaleGeneration,
    /// A prefix was malformed: more bits than the name space holds.
    MalformedPrefix,
    /// A name does not fall under the prefix it was checked against.
    PrefixMismatch,
    /// A value had the wrong length for its role.
    InvalidLength,
    /// A public key set could not be reconstructed from its bytes.
    InvalidKeySet,
}

} // verus!
