//! Serving chunk reads: a read request is honoured only when it arrives
//! under a verified section signature. The durable store that holds the
//! chunks is an outside collaborator; this module only decides whether a
//! request earns a fetch, and hands the caller the grant to perform it.

use vstd::prelude::*;
use crate::crypto::bls_verified;
use crate::messages::{SrcAuthority, SrcAuthorityV};
use crate::name::Name;
use crate::signed::SignedV;

verus! {

/// A read request for stored data.
pub enum BlobRead {
    /// Fetch the chunk stored under this name.
    Get(Name),
}

/// The spec-level image of a [`BlobRead`].
pub enum BlobReadV {
    Get(Seq<bool>),
}

impl View for BlobRead {
    type V = BlobReadV;

    open spec fn view(&self) -> BlobReadV {
        match self {
            BlobRead::Get(n) => BlobReadV::Get(n@),
        }
    }
}

/// A message as it reaches the chunk handler: the payload bytes and who
/// most recently sent them.
pub struct MsgEnvelope {
    pub id: u64,
    pub message: Vec<u8>,
    pub sender: SrcAuthority,
}

/// The fetch a granted read earns: which chunk to load from the store, and
/// under which message id to answer.
pub struct ReadGrant {
    pub address: Name,
    pub msg_id: u64,
}

/// Whether the envelope's sender is a section whose carried signature
/// verifies over the payload bytes. A single node's request earns no fetch
/// here.
pub open spec fn read_granted(sender: SrcAuthorityV, message: Seq<u8>) -> bool {
    match sender {
        SrcAuthorityV::Section { prefix, signed } => bls_verified(
            signed.public_key,
            signed.signature,
            message,
        ),
        SrcAuthorityV::Node { .. } => false,
    }
}

/// A pending read of one chunk, together with the message that asked.
pub struct Reading {
    read: BlobRead,
    msg: MsgEnvelope,
}

impl Reading {
    /// Wraps a read request with the message that carried it.
    pub fn new(read: BlobRead, msg: MsgEnvelope) -> (r: Reading)
        ensures
            r.read_view() == read@,
            r.msg_id() == msg.id,
            r.sender_view() == msg.sender@,
            r.message_view() == msg.message@,
    {
        Reading { read, msg }
    }

    /// The request carried.
    pub closed spec fn read_view(&self) -> BlobReadV {
        self.read@
    }

    /// The carrying message's id.
    pub closed spec fn msg_id(&self) -> u64 {
        self.msg.id
    }

    /// The carrying message's sender.
    pub closed spec fn sender_view(&self) -> SrcAuthorityV {
        self.msg.sender@
    }

    /// The carrying message's payload bytes.
    pub closed spec fn message_view(&self) -> Seq<u8> {
        self.msg.message@
    }

    /// Whether the accumulated section signature on the message verifies.
    fn verify(&self) -> (r: bool)
        ensures
            r == read_granted(self.sender_view(), self.message_view()),
    {
        match &self.msg.sender {
            SrcAuthority::Section { prefix, signed } => signed.verify(&self.msg.message),
            SrcAuthority::Node { .. } => false,
        }
    }

    /// Decides the read: a fetch grant for the addressed chunk exactly when
    /// the request came section-signed and the signature verifies; anything
    /// else earns nothing, and the store is never touched for it.
    pub fn get_result(&self) -> (r: Option<ReadGrant>)
        ensures
            r is Some <==> read_granted(self.sender_view(), self.message_view()),
            r matches Some(g) ==> {
                &&& self.read_view() matches BlobReadV::Get(a) && g.address@ == a
                &&& g.msg_id == self.msg_id()
            },
    {
        if self.verify() {
            let BlobRead::Get(address) = &self.read;
            Some(ReadGrant { address: address.clone(), msg_id: self.msg.id })
        } else {
            None
        }
    }
}

} // verus!
