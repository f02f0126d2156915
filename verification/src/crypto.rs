//! Trusted declarations over the outside threshold-signature scheme and the
//! outside digest. Keys, key sets, signatures and signature shares travel
//! through this crate as their canonical byte strings; the declarations here
//! say what the outside calls compute from those bytes, and everything else
//! about them is proved in the rest of the crate.

use vstd::prelude::*;
use sha3::Digest;

verus! {

/// Byte length of a public key.
pub const PK_SIZE: usize = 48;

/// Byte length of a signature or signature share.
pub const SIG_SIZE: usize = 96;

/// Byte length of a digest.
pub const DIGEST_SIZE: usize = 32;

/// Whether the signature bytes verify over the message under the public key
/// bytes: a function of those bytes alone.
pub uninterp spec fn bls_verified(pk: Seq<u8>, sig: Seq<u8>, msg: Seq<u8>) -> bool;

/// Whether the share bytes verify over the message under key share `index`
/// of the public key set bytes: a function of those values alone.
pub uninterp spec fn bls_share_verified(pks: Seq<u8>, index: int, share: Seq<u8>, msg: Seq<u8>) -> bool;

/// Whether the bytes are the canonical form of some public key set.
pub uninterp spec fn bls_pks_wf(pks: Seq<u8>) -> bool;

/// The threshold of the public key set: any `threshold + 1` valid shares
/// combine into a full signature.
pub uninterp spec fn bls_pks_threshold(pks: Seq<u8>) -> int;

/// The canonical bytes of the master public key of the public key set.
pub uninterp spec fn bls_master_key(pks: Seq<u8>) -> Seq<u8>;

/// Whether the bytes are the canonical form of some signature share.
pub uninterp spec fn bls_share_wf(share: Seq<u8>) -> bool;

/// The compressed encoding of the identity group element: what a rogue key
/// set's master key serialises to. A signature can never verify under the
/// identity key — the scheme refuses a zero key — so key sets whose master
/// key reads back as these bytes are refused before any combination.
pub open spec fn identity_pk_bytes() -> Seq<u8> {
    Seq::new(48, |i: int| if i == 0 { 0xc0u8 } else { 0u8 })
}

/// The 32-byte digest of a byte string: a function of the bytes alone.
pub uninterp spec fn digest256(data: Seq<u8>) -> Seq<u8>;

/// Relies on blsttc::PublicKey::verify, reached through
/// blsttc::PublicKey::from_bytes and blsttc::Signature::from_bytes: the
/// outcome is a function of the key, signature and message bytes alone, and
/// bytes that encode no key or no signature verify nothing.
#[verifier::external_body]
pub(crate) fn bls_verify(pk: &Vec<u8>, sig: &Vec<u8>, msg: &Vec<u8>) -> (r: bool)
    ensures
        r == bls_verified(pk@, sig@, msg@),
{
    let pk_arr: [u8; 48] = match pk.as_slice().try_into() { Ok(a) => a, Err(_) => return false };
    let sig_arr: [u8; 96] = match sig.as_slice().try_into() { Ok(a) => a, Err(_) => return false };
    match (blsttc::PublicKey::from_bytes(pk_arr), blsttc::Signature::from_bytes(sig_arr)) {
        (Ok(p), Ok(s)) => p.verify(&s, msg.as_slice()),
        _ => false,
    }
}

/// Relies on blsttc::PublicKeyShare::verify, reached through
/// blsttc::PublicKeySet::from_bytes, blsttc::PublicKeySet::public_key_share
/// and blsttc::SignatureShare::from_bytes: the outcome is a function of the
/// key set bytes, the share index, the share bytes and the message alone; a
/// successful verification means both the key set bytes and the share bytes
/// parsed.
#[verifier::external_body]
pub(crate) fn bls_verify_share(pks: &Vec<u8>, index: usize, share: &Vec<u8>, msg: &Vec<u8>) -> (r:
    bool)
    ensures
        r == bls_share_verified(pks@, index as int, share@, msg@),
        r ==> bls_pks_wf(pks@),
        r ==> bls_share_wf(share@),
{
    let set = match blsttc::PublicKeySet::from_bytes(pks.clone()) { Ok(s) => s, Err(_) => return false };
    let arr: [u8; 96] = match share.as_slice().try_into() { Ok(a) => a, Err(_) => return false };
    match blsttc::SignatureShare::from_bytes(arr) {
        Ok(sig) => set.public_key_share(index).verify(&sig, msg.as_slice()),
        Err(_) => false,
    }
}

/// Relies on blsttc::PublicKeySet::threshold, reached through
/// blsttc::PublicKeySet::from_bytes: the threshold is the degree of the
/// commitment polynomial that the bytes encode. Bytes shorter than one
/// coefficient encode no key set; they are refused before the call, whose
/// source does not take an empty commitment.
#[verifier::external_body]
pub(crate) fn bls_threshold(pks: &Vec<u8>) -> (r: Option<usize>)
    ensures
        r is Some <==> bls_pks_wf(pks@),
        r matches Some(t) ==> t == bls_pks_threshold(pks@),
{
    if pks.len() < 48 {
        return None;
    }
    blsttc::PublicKeySet::from_bytes(pks.clone()).ok().map(|s| s.threshold())
}

/// Relies on blsttc::PublicKeySet::public_key, reached through
/// blsttc::PublicKeySet::from_bytes and blsttc::PublicKey::to_bytes: the
/// master key is the constant coefficient of the commitment polynomial, in
/// its canonical 48-byte form. A key set whose master key is the identity
/// element is refused: the group encoding accepts the identity point, but a
/// zero master key verifies nothing, so such a rogue key set must never
/// reach a combination.
#[verifier::external_body]
pub(crate) fn bls_public_key(pks: &Vec<u8>) -> (r: Option<Vec<u8>>)
    ensures
        (r is Some) <==> (bls_pks_wf(pks@) && bls_master_key(pks@) != identity_pk_bytes()),
        r matches Some(k) ==> k@ == bls_master_key(pks@) && k@.len() == 48,
{
    if pks.len() < 48 {
        return None;
    }
    let set = blsttc::PublicKeySet::from_bytes(pks.clone()).ok()?;
    let master = set.public_key().to_bytes();
    let mut zero = [0u8; 48];
    zero[0] = 0xc0;
    if master == zero {
        return None;
    }
    Some(master.to_vec())
}

/// Relies on blsttc::PublicKeySet::combine_signatures, reached through
/// blsttc::PublicKeySet::from_bytes and blsttc::SignatureShare::from_bytes.
/// Its source returns a signature whenever more shares than the threshold
/// are given with pairwise distinct indices, and its documentation promises
/// that a signature combined from shares that each verify over a message
/// verifies over that message under the master public key — which holds
/// only of a master key the scheme's zero-key guard would accept, so a
/// rogue key set whose master key is the identity element is refused here,
/// as it is in `bls_public_key`. The `msg` parameter only carries that
/// promise; the combination itself uses the key set and the shares alone.
#[verifier::external_body]
pub(crate) fn bls_combine(pks: &Vec<u8>, shares: &Vec<(usize, Vec<u8>)>, msg: &Vec<u8>) -> (r:
    Option<Vec<u8>>)
    ensures
        (bls_pks_wf(pks@) && bls_master_key(pks@) != identity_pk_bytes() && shares@.len()
            > bls_pks_threshold(pks@) && (forall|i: int, j: int|
            0 <= i < j < shares@.len() ==> (#[trigger] shares@[i]).0 != (#[trigger] shares@[j]).0)
            && (forall|i: int|
            0 <= i < shares@.len() ==> bls_share_wf((#[trigger] shares@[i]).1@))) ==> r is Some,
        r matches Some(sig) ==> sig@.len() == 96,
        (r matches Some(sig) && (forall|i: int|
            0 <= i < shares@.len() ==> bls_share_verified(
                pks@,
                (#[trigger] shares@[i]).0 as int,
                shares@[i].1@,
                msg@,
            ))) ==> bls_verified(bls_master_key(pks@), r.unwrap()@, msg@),
{
    if pks.len() < 48 {
        return None;
    }
    let set = blsttc::PublicKeySet::from_bytes(pks.clone()).ok()?;
    let mut zero = [0u8; 48];
    zero[0] = 0xc0;
    if set.public_key().to_bytes() == zero {
        return None;
    }
    let mut parsed: Vec<(usize, blsttc::SignatureShare)> = Vec::new();
    for (i, s) in shares.iter() {
        let arr: [u8; 96] = s.as_slice().try_into().ok()?;
        parsed.push((*i, blsttc::SignatureShare::from_bytes(arr).ok()?));
    }
    set.combine_signatures(parsed).ok().map(|sig| sig.to_bytes().to_vec())
}

/// Relies on sha3::Sha3_256::digest: a 32-byte digest that is a function of
/// the input bytes alone.
#[verifier::external_body]
pub(crate) fn digest(data: &Vec<u8>) -> (r: Vec<u8>)
    ensures
        r@ == digest256(data@),
        r@.len() == 32,
{
    sha3::Sha3_256::digest(data.as_slice()).to_vec()
}

} // verus!
