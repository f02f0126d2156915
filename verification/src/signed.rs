//! Section signatures: a payload is signed over its canonical byte encoding,
//! and a `SectionSigned` value carries the payload together with the key it
//! was signed under. It is accepted only where that key is one the receiver
//! trusts and the signature verifies.

use vstd::prelude::*;
use crate::crypto::{bls_verified, bls_verify};
use crate::name::copy_vec;

verus! {

/// The spec-level image of a [`Signed`]: the key bytes and signature bytes.
#[verifier::ext_equal]
pub struct SignedV {
    pub public_key: Seq<u8>,
    pub signature: Seq<u8>,
}

/// A signature together with the public key it was made under.
pub struct Signed {
    pub public_key: Vec<u8>,
    pub signature: Vec<u8>,
}

impl View for Signed {
    type V = SignedV;

    open spec fn view(&self) -> SignedV {
        SignedV { public_key: self.public_key@, signature: self.signature@ }
    }
}

impl Signed {
    /// Whether the signature verifies over `msg` under the carried key.
    pub fn verify(&self, msg: &Vec<u8>) -> (r: bool)
        ensures
            r == bls_verified(self@.public_key, self@.signature, msg@),
    {
        bls_verify(&self.public_key, &self.signature, msg)
    }
}

impl Clone for Signed {
    /// Cloning keeps key and signature.
    fn clone(&self) -> (r: Self)
        ensures
            r@ == self@,
    {
        Signed { public_key: copy_vec(&self.public_key), signature: copy_vec(&self.signature) }
    }
}

/// A value with a canonical byte encoding, the form in which sections sign
/// it.
pub trait Payload: Sized {
    /// The canonical bytes of the value.
    spec fn payload_bytes(&self) -> Seq<u8>;

    /// Computes the canonical bytes.
    fn encode_payload(&self) -> (r: Vec<u8>)
        ensures
            r@ == self.payload_bytes(),
    ;
}

/// Whether `sig` is a valid section signature over the canonical bytes of
/// `value`.
pub open spec fn section_signed_valid<T: Payload>(value: T, sig: SignedV) -> bool {
    bls_verified(sig.public_key, sig.signature, value.payload_bytes())
}

/// A payload paired with a section signature over its canonical bytes.
pub struct SectionSigned<T> {
    pub value: T,
    pub sig: Signed,
}

impl<T: Payload> SectionSigned<T> {
    /// Whether the carried signature verifies over the payload's canonical
    /// bytes under the carried key. The outcome is a function of the key,
    /// payload and signature bytes alone, so checking the same value twice
    /// cannot disagree.
    pub fn verify(&self) -> (r: bool)
        ensures
            r == section_signed_valid(self.value, self.sig@),
    {
        let bytes = self.value.encode_payload();
        self.sig.verify(&bytes)
    }
}

} // verus!
