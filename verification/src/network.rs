//! What a node knows of sections other than its own: a signed authority
//! record, and — when the record was signed by a sibling section rather than
//! our own — a proof of the signing key itself under a key we already trust.

use vstd::prelude::*;
use crate::crypto::bls_verified;
use crate::section::SectionAuthorityProvider;
use crate::signed::{section_signed_valid, Payload, SectionSigned, Signed};

verus! {

/// A neighbouring section's signed authority record. When our own section
/// signed it, `key_signed` is empty; when a sibling section signed it,
/// `key_signed` carries the signing key endorsed by our section, so the
/// chain of custody still reaches a key we trust.
pub struct OtherSection {
    pub section_auth: SectionSigned<SectionAuthorityProvider>,
    pub key_signed: Option<Signed>,
}

impl OtherSection {
    /// Whether the record's own signature verifies, and, where a key
    /// endorsement is carried, whether it verifies over the signing key
    /// under the endorsing key.
    pub fn verify(&self) -> (r: bool)
        ensures
            r == (section_signed_valid(self.section_auth.value, self.section_auth.sig@) && match
                self.key_signed {
                Some(ks) => bls_verified(
                    ks@.public_key,
                    ks@.signature,
                    self.section_auth.sig@.public_key,
                ),
                None => true,
            }),
    {
        if !self.section_auth.verify() {
            return false;
        }
        match &self.key_signed {
            Some(ks) => ks.verify(&self.section_auth.sig.public_key),
            None => true,
        }
    }
}

} // verus!
