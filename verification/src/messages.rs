//! The routing message envelope: a payload wrapped with its source
//! authority, destination and aggregation mode. The crate defines the wire
//! bytes of an envelope itself; a message is validated against the routing
//! table before it is delivered, and one that does not check out is
//! rejected, never silently passed on.

use vstd::prelude::*;
use crate::agreement::{enc_proposal, Proposal, ProposalV};
use crate::codec::{
    dec_bits, dec_bytes, dec_u64, enc_bits, enc_bytes, enc_u64, read_bits, read_bytes, read_u64,
    write_bits, write_bytes, write_u64,
};
use crate::crypto::{bls_master_key, bls_verified};
use crate::error::Error;
use crate::name::Name;
use crate::prefix::{prefix_matches, Prefix};
use crate::prefix_map::PrefixMap;
use crate::relocation::{enc_relocate_details, RelocateDetails, RelocateDetailsV};
use crate::signed::{Signed, SignedV, SectionSigned};

verus! {

/// The spec-level image of a [`SrcAuthority`].
#[verifier::ext_equal]
pub enum SrcAuthorityV {
    Node { name: Seq<bool>, public_key: Seq<u8>, signature: Seq<u8> },
    Section { prefix: Seq<bool>, signed: SignedV },
}

/// Who stands behind a message: a single node, with its own key and
/// signature, or a whole section, with an aggregated signature under the
/// section key.
pub enum SrcAuthority {
    /// One node: its name, its public key, and its signature over the
    /// payload bytes.
    Node { name: Name, public_key: Vec<u8>, signature: Vec<u8> },
    /// A section: its prefix and the section signature over the payload
    /// bytes.
    Section { prefix: Prefix, signed: Signed },
}

impl View for SrcAuthority {
    type V = SrcAuthorityV;

    open spec fn view(&self) -> SrcAuthorityV {
        match self {
            SrcAuthority::Node { name, public_key, signature } => SrcAuthorityV::Node {
                name: name@,
                public_key: public_key@,
                signature: signature@,
            },
            SrcAuthority::Section { prefix, signed } => SrcAuthorityV::Section {
                prefix: prefix@,
                signed: signed@,
            },
        }
    }
}

/// The spec-level image of a [`DstLocation`].
#[verifier::ext_equal]
pub enum DstLocationV {
    ToNode(Seq<bool>),
    ToSection(Seq<bool>),
}

/// Where a message is bound: one node, or the section responsible for a
/// name.
pub enum DstLocation {
    /// The single node with this name.
    ToNode(Name),
    /// The section whose prefix matches this name.
    ToSection(Name),
}

impl View for DstLocation {
    type V = DstLocationV;

    open spec fn view(&self) -> DstLocationV {
        match self {
            DstLocation::ToNode(n) => DstLocationV::ToNode(n@),
            DstLocation::ToSection(n) => DstLocationV::ToSection(n@),
        }
    }
}

/// How signatures over this message are to be gathered.
#[derive(Clone, Copy, Debug, PartialEq, Eq, Structural)]
pub enum Aggregation {
    /// The message travels as one node's word.
    NoAggregation,
    /// Shares are combined at the source before sending.
    AtSource,
    /// Shares travel separately and are combined at the destination.
    AtDestination,
}

/// The spec-level image of a [`Variant`].
#[verifier::ext_equal]
pub enum VariantV {
    UserMsg(Seq<u8>),
    Propose { index: u64, share: Seq<u8>, proposal: ProposalV },
    Relocate { details: RelocateDetailsV, signed: SignedV },
    DkgStart { key: crate::dkg::DkgKeyV },
}

/// The body of a routing message.
pub enum Variant {
    /// Opaque application bytes, passed through untouched.
    UserMsg(Vec<u8>),
    /// One elder's signature share over a proposal.
    Propose { index: u64, share: Vec<u8>, proposal: Proposal },
    /// A signed relocation instruction on its way to the node it moves.
    Relocate(SectionSigned<RelocateDetails>),
    /// The order to begin a key-generation round.
    DkgStart(crate::dkg::DkgKey),
}

impl View for Variant {
    type V = VariantV;

    open spec fn view(&self) -> VariantV {
        match self {
            Variant::UserMsg(b) => VariantV::UserMsg(b@),
            Variant::Propose { index, share, proposal } => VariantV::Propose {
                index: *index,
                share: share@,
                proposal: proposal@,
            },
            Variant::Relocate(ss) => VariantV::Relocate { details: ss.value@, signed: ss.sig@ },
            Variant::DkgStart(k) => VariantV::DkgStart { key: k@ },
        }
    }
}

/// The canonical bytes of a signature-with-key pair.
pub open spec fn enc_signed(s: SignedV) -> Seq<u8> {
    enc_bytes(s.public_key) + enc_bytes(s.signature)
}

/// The canonical bytes of a message body: a tag, then the arm's fields.
pub open spec fn enc_variant(v: VariantV) -> Seq<u8> {
    match v {
        VariantV::UserMsg(b) => seq![0u8] + enc_bytes(b),
        VariantV::Propose { index, share, proposal } => seq![1u8] + enc_u64(index) + enc_bytes(
            share,
        ) + enc_proposal(proposal),
        VariantV::Relocate { details, signed } => seq![2u8] + enc_relocate_details(details)
            + enc_signed(signed),
        VariantV::DkgStart { key } => seq![3u8] + crate::dkg::enc_dkg_key(key),
    }
}

/// The canonical bytes of a source authority.
pub open spec fn enc_src(s: SrcAuthorityV) -> Seq<u8> {
    match s {
        SrcAuthorityV::Node { name, public_key, signature } => seq![0u8] + enc_bits(name)
            + enc_bytes(public_key) + enc_bytes(signature),
        SrcAuthorityV::Section { prefix, signed } => seq![1u8] + enc_bits(prefix) + enc_signed(
            signed,
        ),
    }
}

/// The canonical bytes of a destination.
pub open spec fn enc_dst(d: DstLocationV) -> Seq<u8> {
    match d {
        DstLocationV::ToNode(n) => seq![0u8] + enc_bits(n),
        DstLocationV::ToSection(n) => seq![1u8] + enc_bits(n),
    }
}

/// The canonical byte of an aggregation mode.
pub open spec fn enc_aggregation(a: Aggregation) -> Seq<u8> {
    match a {
        Aggregation::NoAggregation => seq![0u8],
        Aggregation::AtSource => seq![1u8],
        Aggregation::AtDestination => seq![2u8],
    }
}

/// The spec-level image of a [`RoutingMsg`].
#[verifier::ext_equal]
pub struct RoutingMsgV {
    pub id: u64,
    pub src: SrcAuthorityV,
    pub dst: DstLocationV,
    pub aggregation: Aggregation,
    pub variant: VariantV,
    pub section_pk: Seq<u8>,
}

/// A routing message: an identifier, the source authority, the destination,
/// the aggregation mode, the body, and the sender's section key.
/// Constructed once and immutable; relays pass it on unchanged.
pub struct RoutingMsg {
    pub id: u64,
    pub src: SrcAuthority,
    pub dst: DstLocation,
    pub aggregation: Aggregation,
    pub variant: Variant,
    pub section_pk: Vec<u8>,
}

impl View for RoutingMsg {
    type V = RoutingMsgV;

    open spec fn view(&self) -> RoutingMsgV {
        RoutingMsgV {
            id: self.id,
            src: self.src@,
            dst: self.dst@,
            aggregation: self.aggregation,
            variant: self.variant@,
            section_pk: self.section_pk@,
        }
    }
}

/// The canonical bytes of a routing message.
pub open spec fn enc_msg(m: RoutingMsgV) -> Seq<u8> {
    enc_u64(m.id) + enc_src(m.src) + enc_dst(m.dst) + enc_aggregation(m.aggregation) + enc_variant(
        m.variant,
    ) + enc_bytes(m.section_pk)
}

/// The wire bytes of a routing message: the hop destination and its section
/// key, then the message.
pub open spec fn enc_wire(dest: Seq<bool>, dest_pk: Seq<u8>, m: RoutingMsgV) -> Seq<u8> {
    enc_bits(dest) + enc_bytes(dest_pk) + enc_msg(m)
}

impl Signed {
    /// Appends the canonical bytes of the pair to `out`.
    pub fn write(&self, out: &mut Vec<u8>)
        ensures
            final(out)@ == old(out)@ + enc_signed(self@),
    {
        let ghost pre = out@;
        write_bytes(out, &self.public_key);
        write_bytes(out, &self.signature);
        assert(pre + enc_bytes(self@.public_key) + enc_bytes(self@.signature) =~= pre + enc_signed(
            self@,
        ));
    }
}

impl Variant {
    /// Appends the canonical bytes of the body to `out`.
    pub fn write(&self, out: &mut Vec<u8>)
        ensures
            final(out)@ == old(out)@ + enc_variant(self@),
    {
        let ghost pre = out@;
        match self {
            Variant::UserMsg(b) => {
                out.push(0u8);
                write_bytes(out, b);
                assert(pre + seq![0u8] + enc_bytes(b@) =~= pre + enc_variant(self@));
            },
            Variant::Propose { index, share, proposal } => {
                out.push(1u8);
                write_u64(out, *index);
                write_bytes(out, share);
                proposal.write(out);
                assert(pre + seq![1u8] + enc_u64(*index) + enc_bytes(share@) + enc_proposal(
                    proposal@,
                ) =~= pre + enc_variant(self@));
            },
            Variant::Relocate(ss) => {
                out.push(2u8);
                ss.value.write(out);
                ss.sig.write(out);
                assert(pre + seq![2u8] + enc_relocate_details(ss.value@) + enc_signed(ss.sig@) =~=
                    pre + enc_variant(self@));
            },
            Variant::DkgStart(k) => {
                out.push(3u8);
                k.write(out);
                assert(pre + seq![3u8] + crate::dkg::enc_dkg_key(k@) =~= pre + enc_variant(self@));
            },
        }
    }
}

impl SrcAuthority {
    /// Appends the canonical bytes of the authority to `out`.
    pub fn write(&self, out: &mut Vec<u8>)
        ensures
            final(out)@ == old(out)@ + enc_src(self@),
    {
        let ghost pre = out@;
        match self {
            SrcAuthority::Node { name, public_key, signature } => {
                out.push(0u8);
                let bits = name.to_bits();
                write_bits(out, &bits);
                write_bytes(out, public_key);
                write_bytes(out, signature);
                assert(pre + seq![0u8] + enc_bits(name@) + enc_bytes(public_key@) + enc_bytes(
                    signature@,
                ) =~= pre + enc_src(self@));
            },
            SrcAuthority::Section { prefix, signed } => {
                out.push(1u8);
                let bits = prefix.to_bits();
                write_bits(out, &bits);
                signed.write(out);
                assert(pre + seq![1u8] + enc_bits(prefix@) + enc_signed(signed@) =~= pre + enc_src(
                    self@,
                ));
            },
        }
    }
}

impl DstLocation {
    /// Appends the canonical bytes of the destination to `out`.
    pub fn write(&self, out: &mut Vec<u8>)
        ensures
            final(out)@ == old(out)@ + enc_dst(self@),
    {
        let ghost pre = out@;
        match self {
            DstLocation::ToNode(n) => {
                out.push(0u8);
                let bits = n.to_bits();
                write_bits(out, &bits);
                assert(pre + seq![0u8] + enc_bits(n@) =~= pre + enc_dst(self@));
            },
            DstLocation::ToSection(n) => {
                out.push(1u8);
                let bits = n.to_bits();
                write_bits(out, &bits);
                assert(pre + seq![1u8] + enc_bits(n@) =~= pre + enc_dst(self@));
            },
        }
    }
}

impl RoutingMsg {
    /// Serializes this message into the bytes sent over the wire toward the
    /// hop `dest`, which holds the section key `dest_section_pk`.
    pub fn serialize(&self, dest: &Name, dest_section_pk: &Vec<u8>) -> (r: Vec<u8>)
        ensures
            r@ == enc_wire(dest@, dest_section_pk@, self@),
    {
        let mut out: Vec<u8> = Vec::new();
        let bits = dest.to_bits();
        write_bits(&mut out, &bits);
        write_bytes(&mut out, dest_section_pk);
        write_u64(&mut out, self.id);
        self.src.write(&mut out);
        self.dst.write(&mut out);
        out.push(
            match self.aggregation {
                Aggregation::NoAggregation => 0u8,
                Aggregation::AtSource => 1u8,
                Aggregation::AtDestination => 2u8,
            },
        );
        self.variant.write(&mut out);
        write_bytes(&mut out, &self.section_pk);
        assert(out@ =~= enc_wire(dest@, dest_section_pk@, self@));
        assert(Seq::<u8>::empty() + enc_bits(dest@) =~= enc_bits(dest@));
        out
    }

    /// Reads a message back from wire bytes: the hop header is skipped, the
    /// message fields are decoded, and anything malformed — an unknown tag,
    /// a truncated field, trailing bytes — is a parse error. Parsing is an
    /// exact inverse of serialization: it succeeds precisely on the wire
    /// encoding of some message, and by `lemma_wire_binding` the accepted
    /// message is the only one those bytes encode.
    #[verifier::rlimit(100)]
    #[verifier::spinoff_prover]
    pub fn from(bytes: Vec<u8>) -> (r: Result<RoutingMsg, Error>)
        ensures
            (r is Ok) <==> wire_at(bytes@),
            r matches Ok(m) ==> msg_v_bounded(m@) && msg_wire_wf(m@) && exists|
                dest: Seq<bool>,
                dest_pk: Seq<u8>,
            |
                dest.len() == 256 && dest_pk.len() <= u64::MAX && bytes@ == enc_wire(
                    dest,
                    dest_pk,
                    #[trigger] m@,
                ),
            r matches Err(e) ==> e == Error::FailedToParse,
    {
        let buf = &bytes;
        let (dest, dest_pk, id, src, p1, p2, p3, p4) = match read_wire_head(buf) {
            Some(v) => v,
            None => {
                return Err(Error::FailedToParse);
            },
        };
        let (dst, aggregation, p5, p6) = match read_wire_mid(buf, p4) {
            Some(v) => v,
            None => {
                return Err(Error::FailedToParse);
            },
        };
        let (variant, p7) = match read_variant(buf, p6) {
            Some(v) => v,
            None => {
                proof {
                    if wire_at(bytes@) {
                        let (d, pk, m) = wire_witness(bytes@);
                        let lv = enc_variant(m.variant).len() as int;
                        assert(bytes@.subrange(p6 as int, p6 + lv) =~= wire_rest6(m).subrange(
                            0,
                            lv,
                        ));
                        assert(wire_rest6(m).subrange(0, lv) =~= enc_variant(m.variant));
                        assert(variant_at(bytes@, p6 as int));
                        assert(false);
                    }
                }
                return Err(Error::FailedToParse);
            },
        };
        proof {
            wire_chain_variant(bytes@, variant@, p6 as int, p7 as int);
        }
        let (section_pk, p8) = match read_bytes(buf, p7) {
            Some(v) => v,
            None => {
                proof {
                    if wire_at(bytes@) {
                        let (d, pk, m) = wire_witness(bytes@);
                        crate::codec::lemma_dec_bytes(bytes@, p7 as int, m.section_pk);
                        assert(false);
                    }
                }
                return Err(Error::FailedToParse);
            },
        };
        if p8 != buf.len() {
            proof {
                lemma_dec_bytes_prefix(buf@, p7 as int, section_pk@, p8 as int);
                wire_trailing_refute(bytes@, section_pk@, p7 as int, p8 as int);
            }
            return Err(Error::FailedToParse);
        }
        let ghost section_pk_v = section_pk@;
        let msg = RoutingMsg { id, src, dst, aggregation, variant, section_pk };
        proof {
            lemma_dec_bytes_prefix(buf@, p7 as int, section_pk_v, p8 as int);
            let tail = buf@.subrange(p2 as int, p8 as int);
            assert(tail =~= buf@.subrange(p2 as int, p4 as int) + buf@.subrange(
                p4 as int,
                p6 as int,
            ) + buf@.subrange(p6 as int, p7 as int) + buf@.subrange(p7 as int, p8 as int));
            assert(tail == enc_msg(msg@));
            assert(bytes@ =~= buf@.subrange(0, p1 as int) + buf@.subrange(p1 as int, p2 as int)
                + tail);
            assert(bytes@ == enc_wire(dest@, dest_pk@, msg@));
            assert(wire_at(bytes@));
        }
        Ok(msg)
    }
}

/// Reads the hop header, message identifier and source authority off the
/// front of wire bytes. A miss means the bytes are no wire encoding; a hit
/// pins, where the bytes are one, the encoded message's head fields.
#[verifier::rlimit(100)]
#[verifier::spinoff_prover]
fn read_wire_head(buf: &Vec<u8>) -> (r: Option<
    (Name, Vec<u8>, u64, SrcAuthority, usize, usize, usize, usize),
>)
    ensures
        r is None ==> !wire_at(buf@),
        r matches Some((dest, dest_pk, id, src, p1, p2, p3, p4)) ==> {
            &&& 0 <= p1 <= p2 <= p3 <= p4 <= buf@.len()
            &&& buf@.subrange(0, p1 as int) == enc_bits(dest@)
            &&& dest@.len() == 256
            &&& buf@.subrange(p1 as int, p2 as int) == crate::codec::enc_bytes(dest_pk@)
            &&& buf@.subrange(p2 as int, p4 as int) == enc_u64(id) + enc_src(src@)
            &&& src_v_bounded(src@)
            &&& src_wire_wf(src@)
            &&& (wire_at(buf@) ==> {
                let (d, pk, m) = wire_witness(buf@);
                &&& d == dest@
                &&& pk == dest_pk@
                &&& m.id == id
                &&& m.src == src@
                &&& p4 as int + wire_rest4(m).len() == buf@.len()
                &&& buf@.subrange(p4 as int, p4 as int + wire_rest4(m).len()) == wire_rest4(m)
            })
        },
{
    let (dest, p1) = match read_name(buf, 0) {
        Some(v) => v,
        None => {
            proof {
                if wire_at(buf@) {
                    let (d, pk, m) = wire_witness(buf@);
                    let e = enc_wire(d, pk, m);
                    let ld = enc_bits(d).len() as int;
                    assert(buf@.subrange(0, ld) =~= e.subrange(0, ld));
                    assert(e.subrange(0, ld) =~= enc_bits(d));
                    assert(name_at(buf@, 0));
                    assert(false);
                }
            }
            return None;
        },
    };
    proof {
        if wire_at(buf@) {
            let (d, pk, m) = wire_witness(buf@);
            let rest1 = wire_rest1(pk, m);
            assert(buf@.subrange(0, (enc_bits(d).len() + rest1.len()) as int) =~= enc_bits(d)
                + rest1);
            crate::codec::lemma_chain_bits(buf@, 0, dest@, p1 as int, d, rest1);
        }
    }
    let (dest_pk, p2) = match read_bytes(buf, p1) {
        Some(v) => v,
        None => {
            proof {
                if wire_at(buf@) {
                    let (d, pk, m) = wire_witness(buf@);
                    let rest1 = wire_rest1(pk, m);
                    let lk = crate::codec::enc_bytes(pk).len() as int;
                    assert(buf@.subrange(p1 as int, p1 + lk) =~= rest1.subrange(0, lk));
                    assert(rest1.subrange(0, lk) =~= crate::codec::enc_bytes(pk));
                    crate::codec::lemma_dec_bytes(buf@, p1 as int, pk);
                    assert(false);
                }
            }
            return None;
        },
    };
    proof {
        lemma_dec_bytes_prefix(buf@, p1 as int, dest_pk@, p2 as int);
        if wire_at(buf@) {
            let (d, pk, m) = wire_witness(buf@);
            assert(buf@.subrange(
                p1 as int,
                p1 as int + (crate::codec::enc_bytes(pk).len() + wire_rest2(m).len()) as int,
            ) =~= crate::codec::enc_bytes(pk) + wire_rest2(m));
            crate::codec::lemma_chain_bytes(buf@, p1 as int, dest_pk@, p2 as int, pk, wire_rest2(
                m,
            ));
        }
    }
    let (id, p3) = match read_u64(buf, p2) {
        Some(v) => v,
        None => {
            proof {
                if wire_at(buf@) {
                    let (d, pk, m) = wire_witness(buf@);
                    assert(buf@.subrange(p2 as int, p2 + 8) =~= wire_rest2(m).subrange(0, 8));
                    assert(wire_rest2(m).subrange(0, 8) =~= enc_u64(m.id));
                    crate::codec::lemma_dec_u64(buf@, p2 as int, m.id);
                    assert(false);
                }
            }
            return None;
        },
    };
    proof {
        lemma_dec_u64_prefix(buf@, p2 as int, id, p3 as int);
        if wire_at(buf@) {
            let (d, pk, m) = wire_witness(buf@);
            assert(buf@.subrange(p2 as int, p2 as int + (8 + wire_rest3(m).len()) as int) =~=
                enc_u64(m.id) + wire_rest3(m));
            crate::codec::lemma_chain_u64(buf@, p2 as int, id, p3 as int, m.id, wire_rest3(m));
        }
    }
    let (src, p4) = match read_src(buf, p3) {
        Some(v) => v,
        None => {
            proof {
                if wire_at(buf@) {
                    let (d, pk, m) = wire_witness(buf@);
                    let ls = enc_src(m.src).len() as int;
                    assert(buf@.subrange(p3 as int, p3 + ls) =~= wire_rest3(m).subrange(0, ls));
                    assert(wire_rest3(m).subrange(0, ls) =~= enc_src(m.src));
                    assert(src_at(buf@, p3 as int));
                    assert(false);
                }
            }
            return None;
        },
    };
    proof {
        if wire_at(buf@) {
            let (d, pk, m) = wire_witness(buf@);
            lemma_wire_wf_bounded(m);
            let tail1 = buf@.subrange(p4 as int, buf@.len() as int);
            let tail2 = buf@.subrange(p3 as int + enc_src(m.src).len() as int, buf@.len() as int);
            let ls = enc_src(m.src).len() as int;
            assert(buf@.subrange(p3 as int, buf@.len() as int) =~= enc_src(src@) + tail1);
            assert(buf@.subrange(p3 as int, p3 + ls) =~= wire_rest3(m).subrange(0, ls));
            assert(wire_rest3(m).subrange(0, ls) =~= enc_src(m.src));
            assert(buf@.subrange(p3 as int, buf@.len() as int) =~= enc_src(m.src) + tail2);
            lemma_enc_src_bind(src@, m.src, tail1, tail2);
            assert(p4 == p3 + ls);
            assert(buf@.subrange(p4 as int, p4 as int + wire_rest4(m).len() as int) =~=
                wire_rest3(m).subrange(ls, ls + wire_rest4(m).len() as int));
            assert(wire_rest3(m).subrange(ls, ls + wire_rest4(m).len() as int) =~= wire_rest4(m));
            let e = enc_wire(d, pk, m);
            assert(e =~= enc_bits(d) + wire_rest1(pk, m));
            assert(buf@.len() == e.len());
            assert(p4 as int + wire_rest4(m).len() == buf@.len());
        }
    }
    Some((dest, dest_pk, id, src, p1, p2, p3, p4))
}


/// Reads the destination and aggregation mode off wire bytes, after the
/// source authority. A miss means the bytes are no wire encoding; a hit
/// pins, where the bytes are one, the encoded message's middle fields.
#[verifier::rlimit(100)]
#[verifier::spinoff_prover]
fn read_wire_mid(buf: &Vec<u8>, p4: usize) -> (r: Option<(DstLocation, Aggregation, usize, usize)>)
    requires
        p4 <= buf@.len(),
        wire_at(buf@) ==> {
            let (d, pk, m) = wire_witness(buf@);
            &&& p4 as int + wire_rest4(m).len() == buf@.len()
            &&& buf@.subrange(p4 as int, p4 as int + wire_rest4(m).len()) == wire_rest4(m)
        },
    ensures
        r is None ==> !wire_at(buf@),
        r matches Some((dst, aggregation, p5, p6)) ==> {
            &&& p4 <= p5 <= p6 <= buf@.len()
            &&& buf@.subrange(p4 as int, p6 as int) == enc_dst(dst@) + enc_aggregation(
                aggregation,
            )
            &&& dst_v_bounded(dst@)
            &&& dst_name(dst@).len() == 256
            &&& (wire_at(buf@) ==> {
                let (d, pk, m) = wire_witness(buf@);
                &&& m.dst == dst@
                &&& m.aggregation == aggregation
                &&& p6 as int + wire_rest6(m).len() == buf@.len()
                &&& buf@.subrange(p6 as int, p6 as int + wire_rest6(m).len()) == wire_rest6(m)
            })
        },
{
    let (dst, p5) = match read_dst(buf, p4) {
        Some(v) => v,
        None => {
            proof {
                if wire_at(buf@) {
                    let (d, pk, m) = wire_witness(buf@);
                    let ld = enc_dst(m.dst).len() as int;
                    assert(buf@.subrange(p4 as int, p4 + ld) =~= wire_rest4(m).subrange(
                        0,
                        ld,
                    ));
                    assert(wire_rest4(m).subrange(0, ld) =~= enc_dst(m.dst));
                    assert(dst_at(buf@, p4 as int));
                    assert(false);
                }
            }
            return None;
        },
    };
    proof {
        if wire_at(buf@) {
            let (d, pk, m) = wire_witness(buf@);
            lemma_wire_wf_bounded(m);
            let tail1 = buf@.subrange(p5 as int, buf@.len() as int);
            let tail2 = buf@.subrange(p4 as int + enc_dst(m.dst).len() as int, buf@.len() as int);
            let ld = enc_dst(m.dst).len() as int;
            assert(buf@.subrange(p4 as int, buf@.len() as int) =~= enc_dst(dst@) + tail1);
            assert(buf@.subrange(p4 as int, p4 + ld) =~= wire_rest4(m).subrange(0, ld));
            assert(wire_rest4(m).subrange(0, ld) =~= enc_dst(m.dst));
            assert(buf@.subrange(p4 as int, buf@.len() as int) =~= enc_dst(m.dst) + tail2);
            lemma_enc_dst_bind(dst@, m.dst, tail1, tail2);
            assert(p5 == p4 + ld);
            assert(buf@.subrange(p5 as int, p5 as int + wire_rest5(m).len() as int) =~=
                wire_rest4(m).subrange(ld, ld + wire_rest5(m).len() as int));
            assert(wire_rest4(m).subrange(ld, ld + wire_rest5(m).len() as int) =~= wire_rest5(
                m,
            ));
        }
    }
    let (aggregation, p6) = match read_aggregation(buf, p5) {
        Some(v) => v,
        None => {
            proof {
                if wire_at(buf@) {
                    let (d, pk, m) = wire_witness(buf@);
                    assert(buf@.subrange(p5 as int, p5 + 1) =~= wire_rest5(m).subrange(
                        0,
                        1,
                    ));
                    assert(wire_rest5(m).subrange(0, 1) =~= enc_aggregation(m.aggregation));
                    assert(aggregation_at(buf@, p5 as int));
                    assert(false);
                }
            }
            return None;
        },
    };
    proof {
        if wire_at(buf@) {
            let (d, pk, m) = wire_witness(buf@);
            let tail1 = buf@.subrange(p6 as int, buf@.len() as int);
            let tail2 = buf@.subrange(p5 as int + 1, buf@.len() as int);
            assert(buf@.subrange(p5 as int, buf@.len() as int) =~= enc_aggregation(
                aggregation,
            ) + tail1);
            assert(buf@.subrange(p5 as int, p5 + 1) =~= wire_rest5(m).subrange(0, 1));
            assert(wire_rest5(m).subrange(0, 1) =~= enc_aggregation(m.aggregation));
            assert(buf@.subrange(p5 as int, buf@.len() as int) =~= enc_aggregation(
                m.aggregation,
            ) + tail2);
            lemma_enc_aggregation_bind(aggregation, m.aggregation, tail1, tail2);
            assert(p6 == p5 + 1);
            assert(buf@.subrange(p6 as int, p6 as int + wire_rest6(m).len() as int) =~=
                wire_rest5(m).subrange(1, 1 + wire_rest6(m).len() as int));
            assert(wire_rest5(m).subrange(1, 1 + wire_rest6(m).len() as int) =~= wire_rest6(
                m,
            ));
            assert(p6 as int + wire_rest6(m).len() == buf@.len());
        }
    }
    Some((dst, aggregation, p5, p6))
}


/// Chains the message body on wire bytes: where the bytes are a wire
/// encoding, the parsed body is the encoded one and the sender key bytes
/// follow right behind.
#[verifier::rlimit(100)]
proof fn wire_chain_variant(bytes: Seq<u8>, variantv: VariantV, p6: int, p7: int)
    requires
        0 <= p6 <= p7 <= bytes.len(),
        bytes.subrange(p6, p7) == enc_variant(variantv),
        variant_v_bounded(variantv),
        wire_at(bytes) ==> {
            let (d, pk, m) = wire_witness(bytes);
            &&& p6 + wire_rest6(m).len() == bytes.len()
            &&& bytes.subrange(p6, p6 + wire_rest6(m).len()) == wire_rest6(m)
        },
    ensures
        wire_at(bytes) ==> {
            let (d, pk, m) = wire_witness(bytes);
            &&& m.variant == variantv
            &&& p7 == p6 + enc_variant(m.variant).len()
            &&& p7 + crate::codec::enc_bytes(m.section_pk).len() == bytes.len()
            &&& bytes.subrange(p7, p7 + crate::codec::enc_bytes(m.section_pk).len())
                == crate::codec::enc_bytes(m.section_pk)
        },
{
    if wire_at(bytes) {
        let (d, pk, m) = wire_witness(bytes);
        lemma_wire_wf_bounded(m);
        let tail1 = bytes.subrange(p7, bytes.len() as int);
        let tail2 = bytes.subrange(p6 + enc_variant(m.variant).len() as int, bytes.len() as int);
        let lv = enc_variant(m.variant).len() as int;
        assert(bytes.subrange(p6, bytes.len() as int) =~= enc_variant(variantv) + tail1);
        assert(bytes.subrange(p6, p6 + lv) =~= wire_rest6(m).subrange(0, lv));
        assert(wire_rest6(m).subrange(0, lv) =~= enc_variant(m.variant));
        assert(bytes.subrange(p6, bytes.len() as int) =~= enc_variant(m.variant) + tail2);
        lemma_enc_variant_bind(variantv, m.variant, tail1, tail2);
        assert(bytes.subrange(p7, p7 + crate::codec::enc_bytes(m.section_pk).len() as int) =~=
            wire_rest6(m).subrange(lv, lv + crate::codec::enc_bytes(m.section_pk).len() as int));
        assert(wire_rest6(m).subrange(lv, lv + crate::codec::enc_bytes(m.section_pk).len() as int)
            =~= crate::codec::enc_bytes(m.section_pk));
    }
}

/// Wire bytes hold nothing after the sender key: trailing bytes refute any
/// wire reading.
#[verifier::rlimit(100)]
proof fn wire_trailing_refute(bytes: Seq<u8>, pkv: Seq<u8>, p7: int, p8: int)
    requires
        0 <= p7 <= p8 <= bytes.len(),
        bytes.subrange(p7, p8) == crate::codec::enc_bytes(pkv),
        pkv.len() <= u64::MAX,
        p8 != bytes.len(),
        wire_at(bytes) ==> {
            let (d, pk, m) = wire_witness(bytes);
            &&& p7 + crate::codec::enc_bytes(m.section_pk).len() == bytes.len()
            &&& bytes.subrange(p7, p7 + crate::codec::enc_bytes(m.section_pk).len())
                == crate::codec::enc_bytes(m.section_pk)
        },
    ensures
        !wire_at(bytes),
{
    if wire_at(bytes) {
        let (d, pk, m) = wire_witness(bytes);
        let tail1 = bytes.subrange(p8, bytes.len() as int);
        let tail2 = bytes.subrange(
            p7 + crate::codec::enc_bytes(m.section_pk).len() as int,
            bytes.len() as int,
        );
        assert(bytes.subrange(p7, bytes.len() as int) =~= crate::codec::enc_bytes(pkv) + tail1);
        assert(bytes.subrange(p7, bytes.len() as int) =~= crate::codec::enc_bytes(m.section_pk)
            + tail2);
        crate::codec::lemma_enc_bytes_bind(pkv, m.section_pk, tail1, tail2);
        assert(p8 == p7 + crate::codec::enc_bytes(m.section_pk).len());
        assert(p8 == bytes.len());
        assert(false);
    }
}

/// Whether the bytes are exactly the wire encoding of some message.
pub open spec fn wire_at(s: Seq<u8>) -> bool {
    exists|d: Seq<bool>, p: Seq<u8>, m: RoutingMsgV|
        d.len() == 256 && p.len() <= u64::MAX && msg_wire_wf(m) && s == #[trigger] enc_wire(
            d,
            p,
            m,
        )
}

/// The hop and message the bytes encode, where they encode one.
pub open spec fn wire_witness(s: Seq<u8>) -> (Seq<bool>, Seq<u8>, RoutingMsgV) {
    choose|d: Seq<bool>, p: Seq<u8>, m: RoutingMsgV|
        d.len() == 256 && p.len() <= u64::MAX && msg_wire_wf(m) && s == #[trigger] enc_wire(
            d,
            p,
            m,
        )
}

/// Whether a message view is exactly what the wire can carry.
pub open spec fn msg_wire_wf(m: RoutingMsgV) -> bool {
    &&& src_wire_wf(m.src)
    &&& dst_name(m.dst).len() == 256
    &&& variant_wire_wf(m.variant)
    &&& m.section_pk.len() <= u64::MAX
}

/// The wire bytes after the hop name.
pub open spec fn wire_rest1(p: Seq<u8>, m: RoutingMsgV) -> Seq<u8> {
    crate::codec::enc_bytes(p) + wire_rest2(m)
}

/// The wire bytes after the hop header.
pub open spec fn wire_rest2(m: RoutingMsgV) -> Seq<u8> {
    enc_u64(m.id) + wire_rest3(m)
}

/// The wire bytes after the message identifier.
pub open spec fn wire_rest3(m: RoutingMsgV) -> Seq<u8> {
    enc_src(m.src) + wire_rest4(m)
}

/// The wire bytes after the source authority.
pub open spec fn wire_rest4(m: RoutingMsgV) -> Seq<u8> {
    enc_dst(m.dst) + wire_rest5(m)
}

/// The wire bytes after the destination.
pub open spec fn wire_rest5(m: RoutingMsgV) -> Seq<u8> {
    enc_aggregation(m.aggregation) + wire_rest6(m)
}

/// The wire bytes after the aggregation mode.
pub open spec fn wire_rest6(m: RoutingMsgV) -> Seq<u8> {
    enc_variant(m.variant) + crate::codec::enc_bytes(m.section_pk)
}

/// A wire-shaped message view is within machine bounds.
proof fn lemma_wire_wf_bounded(m: RoutingMsgV)
    requires
        msg_wire_wf(m),
    ensures
        msg_v_bounded(m),
        src_v_bounded(m.src),
        dst_v_bounded(m.dst),
        variant_v_bounded(m.variant),
{
    match m.variant {
        VariantV::Propose { index, share, proposal } => {
            match proposal {
                ProposalV::SectionInfo(sp) => {
                    assert forall|i: int|
                        0 <= i < sp.elders.len() implies crate::section::peer_v_bounded(
                        #[trigger] sp.elders[i],
                    ) by {}
                },
                _ => {},
            }
        },
        _ => {},
    }
}


/// Whether the bytes at `pos` begin with the encoding of a full name.
pub open spec fn name_at(s: Seq<u8>, pos: int) -> bool {
    exists|v: Seq<bool>|
        v.len() == 256 && pos + #[trigger] enc_bits(v).len() <= s.len() && s.subrange(
            pos,
            pos + enc_bits(v).len(),
        ) == enc_bits(v)
}

/// Whether the bytes at `pos` begin with the encoding of a prefix.
pub open spec fn prefix_at(s: Seq<u8>, pos: int) -> bool {
    exists|v: Seq<bool>|
        v.len() <= 256 && pos + #[trigger] enc_bits(v).len() <= s.len() && s.subrange(
            pos,
            pos + enc_bits(v).len(),
        ) == enc_bits(v)
}

/// Whether the bytes at `pos` begin with the encoding of a signature pair.
pub open spec fn signed_at(s: Seq<u8>, pos: int) -> bool {
    exists|v: SignedV|
        signed_v_bounded(v) && pos + #[trigger] enc_signed(v).len() <= s.len() && s.subrange(
            pos,
            pos + enc_signed(v).len(),
        ) == enc_signed(v)
}

/// Reads a name: a 256-bit string.
fn read_name(buf: &Vec<u8>, pos: usize) -> (r: Option<(Name, usize)>)
    ensures
        r matches Some((n, next)) ==> pos <= next <= buf@.len() && buf@.subrange(
            pos as int,
            next as int,
        ) == enc_bits(n@) && n@.len() == 256,
        r is None ==> !name_at(buf@, pos as int),
{
    match read_bits(buf, pos) {
        Some((bits, next)) => {
            let ghost bv = bits@;
            match Name::from_bits(bits) {
                Some(n) => {
                    proof {
                        lemma_dec_prefix(buf@, pos as int, bv, next as int);
                    }
                    Some((n, next))
                },
                None => {
                    proof {
                        if name_at(buf@, pos as int) {
                            let v = choose|v: Seq<bool>|
                                v.len() == 256 && pos + #[trigger] enc_bits(v).len()
                                    <= buf@.len() && buf@.subrange(
                                    pos as int,
                                    pos + enc_bits(v).len(),
                                ) == enc_bits(v);
                            crate::codec::lemma_dec_bits(buf@, pos as int, v);
                            assert(bv == v);
                            assert(false);
                        }
                    }
                    None
                },
            }
        },
        None => {
            proof {
                if name_at(buf@, pos as int) {
                    let v = choose|v: Seq<bool>|
                        v.len() == 256 && pos + #[trigger] enc_bits(v).len() <= buf@.len()
                            && buf@.subrange(pos as int, pos + enc_bits(v).len()) == enc_bits(v);
                    crate::codec::lemma_dec_bits(buf@, pos as int, v);
                    assert(false);
                }
            }
            None
        },
    }
}

/// Reads a prefix: a bit string of at most 256 bits.
fn read_prefix(buf: &Vec<u8>, pos: usize) -> (r: Option<(Prefix, usize)>)
    ensures
        r matches Some((p, next)) ==> pos <= next <= buf@.len() && buf@.subrange(
            pos as int,
            next as int,
        ) == enc_bits(p@) && p@.len() <= 256,
        r is None ==> !prefix_at(buf@, pos as int),
{
    match read_bits(buf, pos) {
        Some((bits, next)) => {
            let ghost bv = bits@;
            match Prefix::new(bits) {
                Ok(p) => {
                    proof {
                        lemma_dec_prefix(buf@, pos as int, bv, next as int);
                    }
                    Some((p, next))
                },
                Err(_) => {
                    proof {
                        if prefix_at(buf@, pos as int) {
                            let v = choose|v: Seq<bool>|
                                v.len() <= 256 && pos + #[trigger] enc_bits(v).len()
                                    <= buf@.len() && buf@.subrange(
                                    pos as int,
                                    pos + enc_bits(v).len(),
                                ) == enc_bits(v);
                            crate::codec::lemma_dec_bits(buf@, pos as int, v);
                            assert(bv == v);
                            assert(false);
                        }
                    }
                    None
                },
            }
        },
        None => {
            proof {
                if prefix_at(buf@, pos as int) {
                    let v = choose|v: Seq<bool>|
                        v.len() <= 256 && pos + #[trigger] enc_bits(v).len() <= buf@.len()
                            && buf@.subrange(pos as int, pos + enc_bits(v).len()) == enc_bits(v);
                    crate::codec::lemma_dec_bits(buf@, pos as int, v);
                    assert(false);
                }
            }
            None
        },
    }
}

/// A successful bit-string decode consumed exactly the encoding of what it
/// returned.
proof fn lemma_dec_prefix(s: Seq<u8>, pos: int, bits: Seq<bool>, next: int)
    requires
        dec_bits(s, pos) == Some((bits, next)),
    ensures
        0 <= pos <= next <= s.len(),
        s.subrange(pos, next) == enc_bits(bits),
{
    let n = dec_u64(s, pos).unwrap().0;
    let p = dec_u64(s, pos).unwrap().1;
    assert forall|i: int| 0 <= i < 8 implies s.subrange(pos, pos + 8)[i] == enc_u64(n)[i] by {
        lemma_u64_byte(s, pos, n, i);
    }
    assert(s.subrange(pos, pos + 8) =~= enc_u64(n));
    assert(next == p + n);
    assert(bits.len() == n);
    assert forall|i: int| 0 <= i < bits.len() implies (if bits[i] {
        1u8
    } else {
        0u8
    }) == s[p + i] by {
        assert(bits[i] == (s[p + i] == 1u8));
        assert(s[p + i] == 0u8 || s[p + i] == 1u8);
    }
    assert(s.subrange(pos, next) =~= enc_bits(bits));
}

/// A successful byte-string decode consumed exactly the encoding of what it
/// returned.
proof fn lemma_dec_bytes_prefix(s: Seq<u8>, pos: int, b: Seq<u8>, next: int)
    requires
        dec_bytes(s, pos) == Some((b, next)),
    ensures
        0 <= pos <= next <= s.len(),
        s.subrange(pos, next) == enc_bytes(b),
{
    let n = dec_u64(s, pos).unwrap().0;
    let p = dec_u64(s, pos).unwrap().1;
    assert forall|i: int| 0 <= i < 8 implies s.subrange(pos, pos + 8)[i] == enc_u64(n)[i] by {
        lemma_u64_byte(s, pos, n, i);
    }
    assert(s.subrange(pos, pos + 8) =~= enc_u64(n));
    assert(s.subrange(pos, next) =~= enc_bytes(b));
}

/// A successful integer decode consumed exactly the encoding of what it
/// returned.
proof fn lemma_dec_u64_prefix(s: Seq<u8>, pos: int, x: u64, next: int)
    requires
        dec_u64(s, pos) == Some((x, next)),
    ensures
        0 <= pos <= next <= s.len(),
        s.subrange(pos, next) == enc_u64(x),
{
    assert forall|i: int| 0 <= i < 8 implies s.subrange(pos, next)[i] == enc_u64(x)[i] by {
        lemma_u64_byte(s, pos, x, i);
    }
    assert(s.subrange(pos, next) =~= enc_u64(x));
}

/// Each byte the integer decoder read is the matching byte of the encoding.
proof fn lemma_u64_byte(s: Seq<u8>, pos: int, x: u64, i: int)
    requires
        dec_u64(s, pos) == Some((x, pos + 8)),
        0 <= i < 8,
    ensures
        s[pos + i] == (x >> ((8 * i) as u64)) as u8,
{
    let b0 = s[pos];
    let b1 = s[pos + 1];
    let b2 = s[pos + 2];
    let b3 = s[pos + 3];
    let b4 = s[pos + 4];
    let b5 = s[pos + 5];
    let b6 = s[pos + 6];
    let b7 = s[pos + 7];
    assert(x == (b0 as u64) | ((b1 as u64) << 8u64) | ((b2 as u64) << 16u64) | ((b3 as u64)
        << 24u64) | ((b4 as u64) << 32u64) | ((b5 as u64) << 40u64) | ((b6 as u64) << 48u64) | ((
    b7 as u64) << 56u64));
    let y = (b0 as u64) | ((b1 as u64) << 8u64) | ((b2 as u64) << 16u64) | ((b3 as u64) << 24u64)
        | ((b4 as u64) << 32u64) | ((b5 as u64) << 40u64) | ((b6 as u64) << 48u64) | ((b7 as u64)
        << 56u64);
    assert((y as u8) == b0 && ((y >> 8u64) as u8) == b1 && ((y >> 16u64) as u8) == b2 && ((y
        >> 24u64) as u8) == b3 && ((y >> 32u64) as u8) == b4 && ((y >> 40u64) as u8) == b5 && ((y
        >> 48u64) as u8) == b6 && ((y >> 56u64) as u8) == b7) by (bit_vector)
        requires
            y == (b0 as u64) | ((b1 as u64) << 8u64) | ((b2 as u64) << 16u64) | ((b3 as u64)
                << 24u64) | ((b4 as u64) << 32u64) | ((b5 as u64) << 40u64) | ((b6 as u64)
                << 48u64) | ((b7 as u64) << 56u64),
    ;
    assert(x >> 0u64 == x) by (bit_vector);
}

/// Reads a signature-with-key pair.
fn read_signed(buf: &Vec<u8>, pos: usize) -> (r: Option<(Signed, usize)>)
    ensures
        r matches Some((s, next)) ==> pos <= next <= buf@.len() && buf@.subrange(
            pos as int,
            next as int,
        ) == enc_signed(s@) && signed_v_bounded(s@),
        r is None ==> !signed_at(buf@, pos as int),
{
    let (public_key, p1) = match read_bytes(buf, pos) {
        Some(v) => v,
        None => {
            proof {
                if signed_at(buf@, pos as int) {
                    let v = choose|v: SignedV|
                        signed_v_bounded(v) && pos + #[trigger] enc_signed(v).len() <= buf@.len()
                            && buf@.subrange(pos as int, pos + enc_signed(v).len()) == enc_signed(
                            v,
                        );
                    let e = enc_signed(v);
                    let l1 = enc_bytes(v.public_key).len() as int;
                    assert(buf@.subrange(pos as int, pos + l1) =~= e.subrange(0, l1));
                    assert(e.subrange(0, l1) =~= enc_bytes(v.public_key));
                    crate::codec::lemma_dec_bytes(buf@, pos as int, v.public_key);
                    assert(false);
                }
            }
            return None;
        },
    };
    let (signature, p2) = match read_bytes(buf, p1) {
        Some(v) => v,
        None => {
            proof {
                if signed_at(buf@, pos as int) {
                    let v = choose|v: SignedV|
                        signed_v_bounded(v) && pos + #[trigger] enc_signed(v).len() <= buf@.len()
                            && buf@.subrange(pos as int, pos + enc_signed(v).len()) == enc_signed(
                            v,
                        );
                    let e = enc_signed(v);
                    let l1 = enc_bytes(v.public_key).len() as int;
                    let l2 = enc_bytes(v.signature).len() as int;
                    assert(buf@.subrange(pos as int, pos + l1) =~= e.subrange(0, l1));
                    assert(e.subrange(0, l1) =~= enc_bytes(v.public_key));
                    crate::codec::lemma_dec_bytes(buf@, pos as int, v.public_key);
                    assert(p1 == pos + l1);
                    assert(buf@.subrange(p1 as int, p1 + l2) =~= e.subrange(l1, l1 + l2));
                    assert(e.subrange(l1, l1 + l2) =~= enc_bytes(v.signature));
                    crate::codec::lemma_dec_bytes(buf@, p1 as int, v.signature);
                    assert(false);
                }
            }
            return None;
        },
    };
    proof {
        lemma_dec_bytes_prefix(buf@, pos as int, public_key@, p1 as int);
        lemma_dec_bytes_prefix(buf@, p1 as int, signature@, p2 as int);
        assert(buf@.subrange(pos as int, p2 as int) =~= buf@.subrange(pos as int, p1 as int)
            + buf@.subrange(p1 as int, p2 as int));
    }
    Some((Signed { public_key, signature }, p2))
}

/// Whether a source authority view is exactly what the wire can carry.
pub open spec fn src_wire_wf(s: SrcAuthorityV) -> bool {
    match s {
        SrcAuthorityV::Node { name, public_key, signature } => name.len() == 256
            && public_key.len() <= u64::MAX && signature.len() <= u64::MAX,
        SrcAuthorityV::Section { prefix, signed } => prefix.len() <= 256 && signed_v_bounded(
            signed,
        ),
    }
}

/// Whether the bytes at `pos` begin with the encoding of a source
/// authority.
pub open spec fn src_at(s: Seq<u8>, pos: int) -> bool {
    exists|v: SrcAuthorityV|
        src_wire_wf(v) && pos + #[trigger] enc_src(v).len() <= s.len() && s.subrange(
            pos,
            pos + enc_src(v).len(),
        ) == enc_src(v)
}

/// The source authority encoded at `pos`, where one is.
pub open spec fn src_witness(s: Seq<u8>, pos: int) -> SrcAuthorityV {
    choose|v: SrcAuthorityV|
        src_wire_wf(v) && pos + #[trigger] enc_src(v).len() <= s.len() && s.subrange(
            pos,
            pos + enc_src(v).len(),
        ) == enc_src(v)
}

/// Reads a source authority.
#[verifier::rlimit(100)]
#[verifier::spinoff_prover]
fn read_src(buf: &Vec<u8>, pos: usize) -> (r: Option<(SrcAuthority, usize)>)
    ensures
        r matches Some((s, next)) ==> pos <= next <= buf@.len() && buf@.subrange(
            pos as int,
            next as int,
        ) == enc_src(s@) && src_v_bounded(s@) && src_wire_wf(s@),
        r is None ==> !src_at(buf@, pos as int),
{
    if pos >= buf.len() {
        proof {
            if src_at(buf@, pos as int) {
                let v = src_witness(buf@, pos as int);
                lemma_src_first_byte(v, Seq::empty());
                assert(false);
            }
        }
        return None;
    }
    let tag = buf[pos];
    proof {
        if src_at(buf@, pos as int) {
            let v = src_witness(buf@, pos as int);
            lemma_src_first_byte(v, Seq::empty());
            assert(enc_src(v) + Seq::<u8>::empty() =~= enc_src(v));
            assert(buf@.subrange(pos as int, pos + enc_src(v).len())[0] == buf@[pos as int]);
            assert(buf@[pos as int] == src_tag(v));
        }
    }
    if tag == 0 {
        let (name, p1) = match read_name(buf, pos + 1) {
            Some(v) => v,
            None => {
                proof {
                    if src_at(buf@, pos as int) {
                        let v = src_witness(buf@, pos as int);
                        match v {
                            SrcAuthorityV::Node { name: n0, public_key: k0, signature: g0 } => {
                                let e = enc_src(v);
                                let ln = enc_bits(n0).len() as int;
                                assert(buf@.subrange(pos + 1, pos + 1 + ln) =~= e.subrange(
                                    1,
                                    1 + ln,
                                ));
                                assert(e.subrange(1, 1 + ln) =~= enc_bits(n0));
                                assert(name_at(buf@, pos + 1));
                            },
                            _ => {},
                        }
                        assert(false);
                    }
                }
                return None;
            },
        };
        proof {
            if src_at(buf@, pos as int) {
                let v = src_witness(buf@, pos as int);
                match v {
                    SrcAuthorityV::Node { name: n0, public_key: k0, signature: g0 } => {
                        let e = enc_src(v);
                        let rest = crate::codec::enc_bytes(k0) + (crate::codec::enc_bytes(g0)
                            + Seq::<u8>::empty());
                        assert(buf@.subrange(pos + 1, pos + 1 + (enc_bits(n0).len()
                            + rest.len()) as int) =~= e.subrange(1, 1 + (enc_bits(n0).len()
                            + rest.len()) as int));
                        assert(e.subrange(1, 1 + (enc_bits(n0).len() + rest.len()) as int) =~=
                            enc_bits(n0) + rest);
                        crate::codec::lemma_chain_bits(buf@, pos + 1, name@, p1 as int, n0, rest);
                    },
                    _ => {},
                }
            }
        }
        let (public_key, p2) = match read_bytes(buf, p1) {
            Some(v) => v,
            None => {
                proof {
                    if src_at(buf@, pos as int) {
                        let v = src_witness(buf@, pos as int);
                        match v {
                            SrcAuthorityV::Node { name: n0, public_key: k0, signature: g0 } => {
                                let rest = crate::codec::enc_bytes(k0) + (crate::codec::enc_bytes(
                                    g0,
                                ) + Seq::<u8>::empty());
                                let lk = crate::codec::enc_bytes(k0).len() as int;
                                assert(buf@.subrange(p1 as int, p1 + lk) =~= rest.subrange(0, lk));
                                assert(rest.subrange(0, lk) =~= crate::codec::enc_bytes(k0));
                                crate::codec::lemma_dec_bytes(buf@, p1 as int, k0);
                            },
                            _ => {},
                        }
                        assert(false);
                    }
                }
                return None;
            },
        };
        let (signature, p3) = match read_bytes(buf, p2) {
            Some(v) => v,
            None => {
                proof {
                    if src_at(buf@, pos as int) {
                        let v = src_witness(buf@, pos as int);
                        match v {
                            SrcAuthorityV::Node { name: n0, public_key: k0, signature: g0 } => {
                                let rest = crate::codec::enc_bytes(k0) + (crate::codec::enc_bytes(
                                    g0,
                                ) + Seq::<u8>::empty());
                                lemma_dec_bytes_prefix(buf@, p1 as int, public_key@, p2 as int);
                                crate::codec::lemma_chain_bytes(
                                    buf@,
                                    p1 as int,
                                    public_key@,
                                    p2 as int,
                                    k0,
                                    crate::codec::enc_bytes(g0) + Seq::<u8>::empty(),
                                );
                                let lg = crate::codec::enc_bytes(g0).len() as int;
                                assert(buf@.subrange(p2 as int, p2 + lg) =~= (
                                crate::codec::enc_bytes(g0) + Seq::<u8>::empty()).subrange(0, lg));
                                assert((crate::codec::enc_bytes(g0) + Seq::<u8>::empty()).subrange(
                                    0,
                                    lg,
                                ) =~= crate::codec::enc_bytes(g0));
                                crate::codec::lemma_dec_bytes(buf@, p2 as int, g0);
                            },
                            _ => {},
                        }
                        assert(false);
                    }
                }
                return None;
            },
        };
        proof {
            lemma_dec_bytes_prefix(buf@, p1 as int, public_key@, p2 as int);
            lemma_dec_bytes_prefix(buf@, p2 as int, signature@, p3 as int);
            assert(buf@.subrange(pos as int, p3 as int) =~= seq![0u8] + buf@.subrange(
                pos + 1,
                p1 as int,
            ) + buf@.subrange(p1 as int, p2 as int) + buf@.subrange(p2 as int, p3 as int));
        }
        Some((SrcAuthority::Node { name, public_key, signature }, p3))
    } else if tag == 1 {
        let (prefix, p1) = match read_prefix(buf, pos + 1) {
            Some(v) => v,
            None => {
                proof {
                    if src_at(buf@, pos as int) {
                        let v = src_witness(buf@, pos as int);
                        match v {
                            SrcAuthorityV::Section { prefix: f0, signed: s0 } => {
                                let e = enc_src(v);
                                let lf = enc_bits(f0).len() as int;
                                assert(buf@.subrange(pos + 1, pos + 1 + lf) =~= e.subrange(
                                    1,
                                    1 + lf,
                                ));
                                assert(e.subrange(1, 1 + lf) =~= enc_bits(f0));
                                assert(prefix_at(buf@, pos + 1));
                            },
                            _ => {},
                        }
                        assert(false);
                    }
                }
                return None;
            },
        };
        let (signed, p2) = match read_signed(buf, p1) {
            Some(v) => v,
            None => {
                proof {
                    if src_at(buf@, pos as int) {
                        let v = src_witness(buf@, pos as int);
                        match v {
                            SrcAuthorityV::Section { prefix: f0, signed: s0 } => {
                                let e = enc_src(v);
                                let rest = enc_signed(s0);
                                assert(buf@.subrange(pos + 1, pos + 1 + (enc_bits(f0).len()
                                    + rest.len()) as int) =~= e.subrange(1, 1 + (enc_bits(
                                    f0,
                                ).len() + rest.len()) as int));
                                assert(e.subrange(1, 1 + (enc_bits(f0).len() + rest.len()) as int)
                                    =~= enc_bits(f0) + rest);
                                crate::codec::lemma_chain_bits(
                                    buf@,
                                    pos + 1,
                                    prefix@,
                                    p1 as int,
                                    f0,
                                    rest,
                                );
                                assert(buf@.subrange(p1 as int, p1 + rest.len() as int) == rest);
                                assert(signed_at(buf@, p1 as int));
                            },
                            _ => {},
                        }
                        assert(false);
                    }
                }
                return None;
            },
        };
        proof {
            assert(buf@.subrange(pos as int, p2 as int) =~= seq![1u8] + buf@.subrange(
                pos + 1,
                p1 as int,
            ) + buf@.subrange(p1 as int, p2 as int));
        }
        Some((SrcAuthority::Section { prefix, signed }, p2))
    } else {
        proof {
            if src_at(buf@, pos as int) {
                assert(false);
            }
        }
        None
    }
}

/// Whether the bytes at `pos` begin with the encoding of a destination.
pub open spec fn dst_at(s: Seq<u8>, pos: int) -> bool {
    exists|v: DstLocationV|
        dst_name(v).len() == 256 && pos + #[trigger] enc_dst(v).len() <= s.len() && s.subrange(
            pos,
            pos + enc_dst(v).len(),
        ) == enc_dst(v)
}

/// Reads a destination.
fn read_dst(buf: &Vec<u8>, pos: usize) -> (r: Option<(DstLocation, usize)>)
    ensures
        r matches Some((d, next)) ==> pos <= next <= buf@.len() && buf@.subrange(
            pos as int,
            next as int,
        ) == enc_dst(d@) && dst_v_bounded(d@) && dst_name(d@).len() == 256,
        r is None ==> !dst_at(buf@, pos as int),
{
    if pos >= buf.len() {
        proof {
            if dst_at(buf@, pos as int) {
                let v = choose|v: DstLocationV|
                    dst_name(v).len() == 256 && pos + #[trigger] enc_dst(v).len() <= buf@.len()
                        && buf@.subrange(pos as int, pos + enc_dst(v).len()) == enc_dst(v);
                lemma_dst_first_byte(v, Seq::empty());
                assert(false);
            }
        }
        return None;
    }
    let tag = buf[pos];
    if tag > 1 {
        proof {
            if dst_at(buf@, pos as int) {
                let v = choose|v: DstLocationV|
                    dst_name(v).len() == 256 && pos + #[trigger] enc_dst(v).len() <= buf@.len()
                        && buf@.subrange(pos as int, pos + enc_dst(v).len()) == enc_dst(v);
                lemma_dst_first_byte(v, Seq::empty());
                assert(enc_dst(v) + Seq::<u8>::empty() =~= enc_dst(v));
                assert(buf@.subrange(pos as int, pos + enc_dst(v).len())[0] == buf@[pos as int]);
                assert(buf@[pos as int] == dst_tag(v));
                assert(false);
            }
        }
        return None;
    }
    let (name, p1) = match read_name(buf, pos + 1) {
        Some(v) => v,
        None => {
            proof {
                if dst_at(buf@, pos as int) {
                    let v = choose|v: DstLocationV|
                        dst_name(v).len() == 256 && pos + #[trigger] enc_dst(v).len()
                            <= buf@.len() && buf@.subrange(pos as int, pos + enc_dst(v).len())
                            == enc_dst(v);
                    let e = enc_dst(v);
                    let n = dst_name(v);
                    let l = enc_bits(n).len() as int;
                    assert(e =~= seq![dst_tag(v)] + enc_bits(n)) by {
                        match v {
                            DstLocationV::ToNode(_) => {},
                            DstLocationV::ToSection(_) => {},
                        }
                    }
                    assert(buf@.subrange(pos + 1, pos + 1 + l) =~= e.subrange(1, 1 + l));
                    assert(e.subrange(1, 1 + l) =~= enc_bits(n));
                    assert(name_at(buf@, pos + 1));
                    assert(false);
                }
            }
            return None;
        },
    };
    proof {
        assert(buf@.subrange(pos as int, p1 as int) =~= seq![buf@[pos as int]] + buf@.subrange(
            pos + 1,
            p1 as int,
        ));
    }
    if tag == 0 {
        Some((DstLocation::ToNode(name), p1))
    } else {
        Some((DstLocation::ToSection(name), p1))
    }
}

/// Whether the bytes at `pos` begin with the encoding of an aggregation
/// mode.
pub open spec fn aggregation_at(s: Seq<u8>, pos: int) -> bool {
    exists|v: Aggregation|
        pos + 1 <= s.len() && s.subrange(pos, pos + 1) == #[trigger] enc_aggregation(v)
}

/// Reads an aggregation mode.
fn read_aggregation(buf: &Vec<u8>, pos: usize) -> (r: Option<(Aggregation, usize)>)
    ensures
        r matches Some((a, next)) ==> pos <= next <= buf@.len() && buf@.subrange(
            pos as int,
            next as int,
        ) == enc_aggregation(a),
        r is None ==> !aggregation_at(buf@, pos as int),
{
    if pos >= buf.len() {
        return None;
    }
    let tag = buf[pos];
    let a = match tag {
        0u8 => Aggregation::NoAggregation,
        1u8 => Aggregation::AtSource,
        2u8 => Aggregation::AtDestination,
        _ => {
            proof {
                if aggregation_at(buf@, pos as int) {
                    let v = choose|v: Aggregation|
                        pos + 1 <= buf@.len() && buf@.subrange(pos as int, pos + 1)
                            == #[trigger] enc_aggregation(v);
                    assert(buf@.subrange(pos as int, pos + 1)[0] == buf@[pos as int]);
                    assert(enc_aggregation(v)[0] == 0u8 || enc_aggregation(v)[0] == 1u8
                        || enc_aggregation(v)[0] == 2u8);
                    assert(false);
                }
            }
            return None;
        },
    };
    proof {
        assert(buf@.subrange(pos as int, pos + 1) =~= seq![buf@[pos as int]]);
    }
    Some((a, pos + 1))
}

/// Whether a body view is exactly what the wire can carry.
pub open spec fn variant_wire_wf(v: VariantV) -> bool {
    match v {
        VariantV::UserMsg(b) => b.len() <= u64::MAX,
        VariantV::Propose { index, share, proposal } => share.len() <= u64::MAX
            && proposal_wire_wf(proposal),
        VariantV::Relocate { details, signed } => details.previous_name.len() == 256
            && details.destination.len() == 256 && signed_v_bounded(signed),
        VariantV::DkgStart { key } => dkg_key_wire_wf(key),
    }
}

/// Whether the bytes at `pos` begin with the encoding of a body.
pub open spec fn variant_at(s: Seq<u8>, pos: int) -> bool {
    exists|v: VariantV|
        variant_wire_wf(v) && pos + #[trigger] enc_variant(v).len() <= s.len() && s.subrange(
            pos,
            pos + enc_variant(v).len(),
        ) == enc_variant(v)
}

/// The body encoded at `pos`, where one is.
pub open spec fn variant_witness(s: Seq<u8>, pos: int) -> VariantV {
    choose|v: VariantV|
        variant_wire_wf(v) && pos + #[trigger] enc_variant(v).len() <= s.len() && s.subrange(
            pos,
            pos + enc_variant(v).len(),
        ) == enc_variant(v)
}

/// Reads a message body.
#[verifier::rlimit(100)]
#[verifier::spinoff_prover]
fn read_variant(buf: &Vec<u8>, pos: usize) -> (r: Option<(Variant, usize)>)
    ensures
        r matches Some((v, next)) ==> pos <= next <= buf@.len() && buf@.subrange(
            pos as int,
            next as int,
        ) == enc_variant(v@) && variant_v_bounded(v@) && variant_wire_wf(v@),
        r is None ==> !variant_at(buf@, pos as int),
{
    if pos >= buf.len() {
        proof {
            if variant_at(buf@, pos as int) {
                let v = variant_witness(buf@, pos as int);
                lemma_variant_first_byte(v, Seq::empty());
                assert(false);
            }
        }
        return None;
    }
    let tag = buf[pos];
    proof {
        if variant_at(buf@, pos as int) {
            let v = variant_witness(buf@, pos as int);
            lemma_variant_first_byte(v, Seq::empty());
            assert(enc_variant(v) + Seq::<u8>::empty() =~= enc_variant(v));
            assert(buf@.subrange(pos as int, pos + enc_variant(v).len())[0] == buf@[pos as int]);
            assert(buf@[pos as int] == variant_tag(v));
        }
    }
    if tag == 0 {
        let (b, p1) = match read_bytes(buf, pos + 1) {
            Some(v) => v,
            None => {
                proof {
                    if variant_at(buf@, pos as int) {
                        let v = variant_witness(buf@, pos as int);
                        match v {
                            VariantV::UserMsg(b0) => {
                                let e = enc_variant(v);
                                let lb = crate::codec::enc_bytes(b0).len() as int;
                                assert(buf@.subrange(pos + 1, pos + 1 + lb) =~= e.subrange(
                                    1,
                                    1 + lb,
                                ));
                                assert(e.subrange(1, 1 + lb) =~= crate::codec::enc_bytes(b0));
                                crate::codec::lemma_dec_bytes(buf@, pos + 1, b0);
                            },
                            _ => {},
                        }
                        assert(false);
                    }
                }
                return None;
            },
        };
        proof {
            lemma_dec_bytes_prefix(buf@, pos + 1, b@, p1 as int);
            assert(buf@.subrange(pos as int, p1 as int) =~= seq![0u8] + buf@.subrange(
                pos + 1,
                p1 as int,
            ));
        }
        Some((Variant::UserMsg(b), p1))
    } else if tag == 1 {
        proof {
            if variant_at(buf@, pos as int) {
                let v = variant_witness(buf@, pos as int);
                match v {
                    VariantV::Propose { index: i0, share: s0, proposal: pr0 } => {
                        let e = enc_variant(v);
                        let rest = crate::codec::enc_bytes(s0) + enc_proposal(pr0);
                        assert(buf@.subrange(pos + 1, pos + 1 + (8 + rest.len()) as int) =~=
                            e.subrange(1, 1 + (8 + rest.len()) as int));
                        assert(e.subrange(1, 1 + (8 + rest.len()) as int) =~= enc_u64(i0) + rest);
                    },
                    _ => {},
                }
            }
        }
        let (index, p1) = match read_u64(buf, pos + 1) {
            Some(v) => v,
            None => {
                proof {
                    if variant_at(buf@, pos as int) {
                        let v = variant_witness(buf@, pos as int);
                        match v {
                            VariantV::Propose { index: i0, share: s0, proposal: pr0 } => {
                                let rest = crate::codec::enc_bytes(s0) + enc_proposal(pr0);
                                assert(buf@.subrange(pos + 1, pos + 1 + 8) =~= (enc_u64(i0)
                                    + rest).subrange(0, 8));
                                assert((enc_u64(i0) + rest).subrange(0, 8) =~= enc_u64(i0));
                                crate::codec::lemma_dec_u64(buf@, pos + 1, i0);
                            },
                            _ => {},
                        }
                        assert(false);
                    }
                }
                return None;
            },
        };
        proof {
            if variant_at(buf@, pos as int) {
                let v = variant_witness(buf@, pos as int);
                match v {
                    VariantV::Propose { index: i0, share: s0, proposal: pr0 } => {
                        lemma_dec_u64_prefix(buf@, pos + 1, index, p1 as int);
                        let rest = crate::codec::enc_bytes(s0) + enc_proposal(pr0);
                        crate::codec::lemma_chain_u64(buf@, pos + 1, index, p1 as int, i0, rest);
                        let rest2 = enc_proposal(pr0);
                        assert(buf@.subrange(
                            p1 as int,
                            p1 as int + (crate::codec::enc_bytes(s0).len() + rest2.len()) as int,
                        ) =~= crate::codec::enc_bytes(s0) + rest2);
                    },
                    _ => {},
                }
            }
        }
        let (share, p2) = match read_bytes(buf, p1) {
            Some(v) => v,
            None => {
                proof {
                    if variant_at(buf@, pos as int) {
                        let v = variant_witness(buf@, pos as int);
                        match v {
                            VariantV::Propose { index: i0, share: s0, proposal: pr0 } => {
                                let rest2 = enc_proposal(pr0);
                                let lb = crate::codec::enc_bytes(s0).len() as int;
                                assert(buf@.subrange(p1 as int, p1 + lb) =~= (
                                crate::codec::enc_bytes(s0) + rest2).subrange(0, lb));
                                assert((crate::codec::enc_bytes(s0) + rest2).subrange(0, lb) =~=
                                    crate::codec::enc_bytes(s0));
                                crate::codec::lemma_dec_bytes(buf@, p1 as int, s0);
                            },
                            _ => {},
                        }
                        assert(false);
                    }
                }
                return None;
            },
        };
        let (proposal, p3) = match read_proposal(buf, p2) {
            Some(v) => v,
            None => {
                proof {
                    if variant_at(buf@, pos as int) {
                        let v = variant_witness(buf@, pos as int);
                        match v {
                            VariantV::Propose { index: i0, share: s0, proposal: pr0 } => {
                                lemma_dec_bytes_prefix(buf@, p1 as int, share@, p2 as int);
                                let rest2 = enc_proposal(pr0);
                                crate::codec::lemma_chain_bytes(
                                    buf@,
                                    p1 as int,
                                    share@,
                                    p2 as int,
                                    s0,
                                    rest2,
                                );
                                assert(proposal_at(buf@, p2 as int));
                            },
                            _ => {},
                        }
                        assert(false);
                    }
                }
                return None;
            },
        };
        proof {
            lemma_dec_u64_prefix(buf@, pos + 1, index, p1 as int);
            lemma_dec_bytes_prefix(buf@, p1 as int, share@, p2 as int);
            assert(buf@.subrange(pos as int, p3 as int) =~= seq![1u8] + buf@.subrange(
                pos + 1,
                p1 as int,
            ) + buf@.subrange(p1 as int, p2 as int) + buf@.subrange(p2 as int, p3 as int));
        }
        Some((Variant::Propose { index, share, proposal }, p3))
    } else if tag == 2 {
        let (details, p1) = match read_relocate_details(buf, pos + 1) {
            Some(v) => v,
            None => {
                proof {
                    if variant_at(buf@, pos as int) {
                        let v = variant_witness(buf@, pos as int);
                        match v {
                            VariantV::Relocate { details: d0, signed: s0 } => {
                                let e = enc_variant(v);
                                let ld = enc_relocate_details(d0).len() as int;
                                assert(buf@.subrange(pos + 1, pos + 1 + ld) =~= e.subrange(
                                    1,
                                    1 + ld,
                                ));
                                assert(e.subrange(1, 1 + ld) =~= enc_relocate_details(d0));
                                assert(relocate_details_at(buf@, pos + 1));
                            },
                            _ => {},
                        }
                        assert(false);
                    }
                }
                return None;
            },
        };
        let (signed, p2) = match read_signed(buf, p1) {
            Some(v) => v,
            None => {
                proof {
                    if variant_at(buf@, pos as int) {
                        let v = variant_witness(buf@, pos as int);
                        match v {
                            VariantV::Relocate { details: d0, signed: s0 } => {
                                let tail1 = buf@.subrange(p1 as int, buf@.len() as int);
                                let tail2 = buf@.subrange(
                                    pos + 1 + enc_relocate_details(d0).len(),
                                    buf@.len() as int,
                                );
                                let e = enc_variant(v);
                                let ld = enc_relocate_details(d0).len() as int;
                                assert(buf@.subrange(pos + 1, buf@.len() as int) =~=
                                    enc_relocate_details(details@) + tail1);
                                assert(buf@.subrange(pos + 1, pos + 1 + ld) =~= e.subrange(
                                    1,
                                    1 + ld,
                                ));
                                assert(e.subrange(1, 1 + ld) =~= enc_relocate_details(d0));
                                assert(buf@.subrange(pos + 1, buf@.len() as int) =~=
                                    enc_relocate_details(d0) + tail2);
                                crate::relocation::lemma_enc_relocate_details_bind(
                                    details@,
                                    d0,
                                    tail1,
                                    tail2,
                                );
                                assert(p1 == pos + 1 + ld);
                                let ls = enc_signed(s0).len() as int;
                                assert(buf@.subrange(p1 as int, p1 + ls) =~= e.subrange(
                                    1 + ld,
                                    1 + ld + ls,
                                ));
                                assert(e.subrange(1 + ld, 1 + ld + ls) =~= enc_signed(s0));
                                assert(signed_at(buf@, p1 as int));
                            },
                            _ => {},
                        }
                        assert(false);
                    }
                }
                return None;
            },
        };
        proof {
            assert(buf@.subrange(pos as int, p2 as int) =~= seq![2u8] + buf@.subrange(
                pos + 1,
                p1 as int,
            ) + buf@.subrange(p1 as int, p2 as int));
        }
        Some((Variant::Relocate(SectionSigned { value: details, sig: signed }), p2))
    } else if tag == 3 {
        let (key, p1) = match read_dkg_key(buf, pos + 1) {
            Some(v) => v,
            None => {
                proof {
                    if variant_at(buf@, pos as int) {
                        let v = variant_witness(buf@, pos as int);
                        match v {
                            VariantV::DkgStart { key: k0 } => {
                                let e = enc_variant(v);
                                let lk = crate::dkg::enc_dkg_key(k0).len() as int;
                                assert(buf@.subrange(pos + 1, pos + 1 + lk) =~= e.subrange(
                                    1,
                                    1 + lk,
                                ));
                                assert(e.subrange(1, 1 + lk) =~= crate::dkg::enc_dkg_key(k0));
                                assert(dkg_key_at(buf@, pos + 1));
                            },
                            _ => {},
                        }
                        assert(false);
                    }
                }
                return None;
            },
        };
        proof {
            assert(buf@.subrange(pos as int, p1 as int) =~= seq![3u8] + buf@.subrange(
                pos + 1,
                p1 as int,
            ));
        }
        Some((Variant::DkgStart(key), p1))
    } else {
        proof {
            if variant_at(buf@, pos as int) {
                assert(false);
            }
        }
        None
    }
}

/// Reads a key-generation session identity.
#[verifier::rlimit(100)]
#[verifier::spinoff_prover]
fn read_dkg_key(buf: &Vec<u8>, pos: usize) -> (r: Option<(crate::dkg::DkgKey, usize)>)
    ensures
        r matches Some((k, next)) ==> pos <= next <= buf@.len() && buf@.subrange(
            pos as int,
            next as int,
        ) == crate::dkg::enc_dkg_key(k@) && crate::dkg::dkg_key_v_bounded(k@)
            && dkg_key_wire_wf(k@),
        r is None ==> !dkg_key_at(buf@, pos as int),
{
    let (count, p0) = match read_u64(buf, pos) {
        Some(v) => v,
        None => {
            proof {
                if dkg_key_at(buf@, pos as int) {
                    let v = dkg_witness(buf@, pos as int);
                    let e = crate::dkg::enc_dkg_key(v);
                    assert(buf@.subrange(pos as int, pos + 8) =~= e.subrange(0, 8));
                    assert(e.subrange(0, 8) =~= enc_u64(v.participants.len() as u64));
                    crate::codec::lemma_dec_u64(buf@, pos as int, v.participants.len() as u64);
                    assert(false);
                }
            }
            return None;
        },
    };
    proof {
        if dkg_key_at(buf@, pos as int) {
            let v = dkg_witness(buf@, pos as int);
            lemma_dec_u64_prefix(buf@, pos as int, count, p0 as int);
            let rest0 = crate::dkg::enc_names(v.participants) + enc_u64(v.generation);
            assert(buf@.subrange(pos as int, pos + (8 + rest0.len()) as int) =~= enc_u64(
                v.participants.len() as u64,
            ) + rest0);
            crate::codec::lemma_chain_u64(
                buf@,
                pos as int,
                count,
                p0 as int,
                v.participants.len() as u64,
                rest0,
            );
            crate::dkg::lemma_enc_names_len(v.participants);
            assert(count <= buf@.len());
        }
    }
    if count > buf.len() as u64 {
        proof {
            if dkg_key_at(buf@, pos as int) {
                assert(false);
            }
        }
        return None;
    }
    let n = count as usize;
    let mut participants: Vec<Name> = Vec::new();
    let mut p: usize = p0;
    let mut i: usize = 0;
    proof {
        lemma_dec_u64_prefix(buf@, pos as int, count, p0 as int);
        assert(buf@.subrange(p0 as int, p0 as int) =~= Seq::<u8>::empty());
        assert(crate::dkg::enc_names(crate::name::names_view(participants@)) =~= Seq::<
            u8,
        >::empty());
        if dkg_key_at(buf@, pos as int) {
            let v = dkg_witness(buf@, pos as int);
            crate::dkg::lemma_enc_names_split(v.participants, 0);
            assert(v.participants.take(0) =~= Seq::<Seq<bool>>::empty());
            assert(crate::dkg::enc_names(v.participants.take(0)) =~= Seq::<u8>::empty());
            assert(crate::name::names_view(participants@) =~= v.participants.take(0));
            assert(crate::dkg::enc_names_from(v.participants, 0) == crate::dkg::enc_names(
                v.participants,
            ));
        }
    }
    while i < n
        invariant
            i <= n,
            p0 <= p <= buf@.len(),
            participants@.len() == i,
            forall|k: int| 0 <= k < i ==> (#[trigger] participants@[k])@.len() == 256,
            buf@.subrange(p0 as int, p as int) == crate::dkg::enc_names(
                crate::name::names_view(participants@),
            ),
            dkg_key_at(buf@, pos as int) ==> {
                let v = dkg_witness(buf@, pos as int);
                &&& n == v.participants.len()
                &&& crate::name::names_view(participants@) == v.participants.take(i as int)
                &&& p as int + crate::dkg::enc_names_from(v.participants, i as int).len() + 8
                    <= buf@.len()
                &&& buf@.subrange(
                    p as int,
                    p + crate::dkg::enc_names_from(v.participants, i as int).len() + 8,
                ) == crate::dkg::enc_names_from(v.participants, i as int) + enc_u64(v.generation)
            },
        decreases n - i,
    {
        let ghost prev = crate::name::names_view(participants@);
        let (name, pn) = match read_name(buf, p) {
            Some(v) => v,
            None => {
                proof {
                    if dkg_key_at(buf@, pos as int) {
                        let v = dkg_witness(buf@, pos as int);
                        let f = crate::dkg::enc_names_from(v.participants, i as int);
                        let l = enc_bits(v.participants[i as int]).len() as int;
                        assert(f == enc_bits(v.participants[i as int])
                            + crate::dkg::enc_names_from(v.participants, i + 1));
                        assert(buf@.subrange(p as int, p + l) =~= (f + enc_u64(
                            v.generation,
                        )).subrange(0, l));
                        assert((f + enc_u64(v.generation)).subrange(0, l) =~= enc_bits(
                            v.participants[i as int],
                        ));
                        assert(v.participants[i as int].len() == 256);
                        assert(name_at(buf@, p as int));
                        assert(false);
                    }
                }
                return None;
            },
        };
        let ghost namev = name@;
        participants.push(name);
        proof {
            let cur = crate::name::names_view(participants@);
            assert(cur =~= prev.push(namev));
            assert(cur.drop_last() =~= prev);
            assert(cur.last() == namev);
            assert(buf@.subrange(p0 as int, pn as int) =~= buf@.subrange(p0 as int, p as int)
                + buf@.subrange(p as int, pn as int));
            assert(crate::dkg::enc_names(cur) == crate::dkg::enc_names(prev) + enc_bits(namev));
            if dkg_key_at(buf@, pos as int) {
                let v = dkg_witness(buf@, pos as int);
                let rest_next = crate::dkg::enc_names_from(v.participants, i + 1) + enc_u64(
                    v.generation,
                );
                assert(crate::dkg::enc_names_from(v.participants, i as int) == enc_bits(
                    v.participants[i as int],
                ) + crate::dkg::enc_names_from(v.participants, i + 1));
                assert(buf@.subrange(
                    p as int,
                    p as int + (enc_bits(v.participants[i as int]).len() + rest_next.len()) as int,
                ) =~= enc_bits(v.participants[i as int]) + rest_next);
                crate::codec::lemma_chain_bits(
                    buf@,
                    p as int,
                    namev,
                    pn as int,
                    v.participants[i as int],
                    rest_next,
                );
                assert(cur =~= v.participants.take(i + 1));
            }
        }
        p = pn;
        i = i + 1;
    }
    let (generation, p2) = match read_u64(buf, p) {
        Some(v) => v,
        None => {
            proof {
                if dkg_key_at(buf@, pos as int) {
                    let v = dkg_witness(buf@, pos as int);
                    let f = crate::dkg::enc_names_from(v.participants, n as int);
                    assert(f =~= Seq::<u8>::empty());
                    assert(buf@.subrange(p as int, p + 8) =~= (f + enc_u64(
                        v.generation,
                    )).subrange(0, 8));
                    assert((f + enc_u64(v.generation)).subrange(0, 8) =~= enc_u64(v.generation));
                    crate::codec::lemma_dec_u64(buf@, p as int, v.generation);
                    assert(false);
                }
            }
            return None;
        },
    };
    let key = crate::dkg::DkgKey { participants, generation };
    proof {
        lemma_dec_u64_prefix(buf@, p as int, generation, p2 as int);
        assert(key@.participants.len() == count);
        assert(buf@.subrange(pos as int, p2 as int) =~= buf@.subrange(pos as int, p0 as int)
            + buf@.subrange(p0 as int, p as int) + buf@.subrange(p as int, p2 as int));
    }
    Some((key, p2))
}

/// Whether a session identity view is exactly what the wire can carry.
pub open spec fn dkg_key_wire_wf(k: crate::dkg::DkgKeyV) -> bool {
    &&& k.participants.len() <= u64::MAX
    &&& forall|i: int| 0 <= i < k.participants.len() ==> (#[trigger] k.participants[i]).len()
        == 256
}

/// Whether the bytes at `pos` begin with the encoding of a session
/// identity.
pub open spec fn dkg_key_at(s: Seq<u8>, pos: int) -> bool {
    exists|v: crate::dkg::DkgKeyV|
        dkg_key_wire_wf(v) && pos + #[trigger] crate::dkg::enc_dkg_key(v).len() <= s.len()
            && s.subrange(pos, pos + crate::dkg::enc_dkg_key(v).len()) == crate::dkg::enc_dkg_key(
            v,
        )
}

/// The session identity encoded at `pos`, where one is.
pub open spec fn dkg_witness(s: Seq<u8>, pos: int) -> crate::dkg::DkgKeyV {
    choose|v: crate::dkg::DkgKeyV|
        dkg_key_wire_wf(v) && pos + #[trigger] crate::dkg::enc_dkg_key(v).len() <= s.len()
            && s.subrange(pos, pos + crate::dkg::enc_dkg_key(v).len()) == crate::dkg::enc_dkg_key(
            v,
        )
}

/// Whether the bytes at `pos` begin with the encoding of a relocation
/// instruction.
pub open spec fn relocate_details_at(s: Seq<u8>, pos: int) -> bool {
    exists|v: RelocateDetailsV|
        v.previous_name.len() == 256 && v.destination.len() == 256 && pos
            + #[trigger] enc_relocate_details(v).len() <= s.len() && s.subrange(
            pos,
            pos + enc_relocate_details(v).len(),
        ) == enc_relocate_details(v)
}

/// Reads a relocation instruction.
fn read_relocate_details(buf: &Vec<u8>, pos: usize) -> (r: Option<(RelocateDetails, usize)>)
    ensures
        r matches Some((d, next)) ==> pos <= next <= buf@.len() && buf@.subrange(
            pos as int,
            next as int,
        ) == enc_relocate_details(d@) && crate::relocation::relocate_details_v_bounded(d@)
            && d@.previous_name.len() == 256 && d@.destination.len() == 256,
        r is None ==> !relocate_details_at(buf@, pos as int),
{
    let (previous_name, p1) = match read_name(buf, pos) {
        Some(v) => v,
        None => {
            proof {
                if relocate_details_at(buf@, pos as int) {
                    let v = choose|v: RelocateDetailsV|
                        v.previous_name.len() == 256 && v.destination.len() == 256 && pos
                            + #[trigger] enc_relocate_details(v).len() <= buf@.len()
                            && buf@.subrange(pos as int, pos + enc_relocate_details(v).len())
                            == enc_relocate_details(v);
                    let e = enc_relocate_details(v);
                    let l1 = enc_bits(v.previous_name).len() as int;
                    assert(buf@.subrange(pos as int, pos + l1) =~= e.subrange(0, l1));
                    assert(e.subrange(0, l1) =~= enc_bits(v.previous_name));
                    assert(name_at(buf@, pos as int));
                    assert(false);
                }
            }
            return None;
        },
    };
    let (destination, p2) = match read_name(buf, p1) {
        Some(v) => v,
        None => {
            proof {
                if relocate_details_at(buf@, pos as int) {
                    let v = choose|v: RelocateDetailsV|
                        v.previous_name.len() == 256 && v.destination.len() == 256 && pos
                            + #[trigger] enc_relocate_details(v).len() <= buf@.len()
                            && buf@.subrange(pos as int, pos + enc_relocate_details(v).len())
                            == enc_relocate_details(v);
                    let e = enc_relocate_details(v);
                    let l1 = enc_bits(v.previous_name).len() as int;
                    let l2 = enc_bits(v.destination).len() as int;
                    let tail1 = buf@.subrange(p1 as int, buf@.len() as int);
                    let tail2 = buf@.subrange(pos + l1, buf@.len() as int);
                    assert(buf@.subrange(pos as int, buf@.len() as int) =~= enc_bits(
                        previous_name@,
                    ) + tail1);
                    assert(buf@.subrange(pos as int, pos + l1) =~= e.subrange(0, l1));
                    assert(e.subrange(0, l1) =~= enc_bits(v.previous_name));
                    assert(buf@.subrange(pos as int, buf@.len() as int) =~= enc_bits(
                        v.previous_name,
                    ) + tail2);
                    crate::codec::lemma_enc_bits_bind(previous_name@, v.previous_name, tail1, tail2);
                    assert(p1 == pos + l1);
                    assert(buf@.subrange(p1 as int, p1 + l2) =~= e.subrange(l1, l1 + l2));
                    assert(e.subrange(l1, l1 + l2) =~= enc_bits(v.destination));
                    assert(name_at(buf@, p1 as int));
                    assert(false);
                }
            }
            return None;
        },
    };
    if p2 >= buf.len() {
        proof {
            if relocate_details_at(buf@, pos as int) {
                let v = choose|v: RelocateDetailsV|
                    v.previous_name.len() == 256 && v.destination.len() == 256 && pos
                        + #[trigger] enc_relocate_details(v).len() <= buf@.len() && buf@.subrange(
                        pos as int,
                        pos + enc_relocate_details(v).len(),
                    ) == enc_relocate_details(v);
                let e = enc_relocate_details(v);
                let l1 = enc_bits(v.previous_name).len() as int;
                let l2 = enc_bits(v.destination).len() as int;
                let tail1 = buf@.subrange(p1 as int, buf@.len() as int);
                let tail2 = buf@.subrange(pos + l1, buf@.len() as int);
                assert(buf@.subrange(pos as int, buf@.len() as int) =~= enc_bits(previous_name@)
                    + tail1);
                assert(buf@.subrange(pos as int, pos + l1) =~= e.subrange(0, l1));
                assert(e.subrange(0, l1) =~= enc_bits(v.previous_name));
                assert(buf@.subrange(pos as int, buf@.len() as int) =~= enc_bits(v.previous_name)
                    + tail2);
                crate::codec::lemma_enc_bits_bind(previous_name@, v.previous_name, tail1, tail2);
                assert(p1 == pos + l1);
                let tail3 = buf@.subrange(p2 as int, buf@.len() as int);
                let tail4 = buf@.subrange(pos + l1 + l2, buf@.len() as int);
                assert(buf@.subrange(p1 as int, buf@.len() as int) =~= enc_bits(destination@)
                    + tail3);
                assert(buf@.subrange(p1 as int, p1 + l2) =~= e.subrange(l1, l1 + l2));
                assert(e.subrange(l1, l1 + l2) =~= enc_bits(v.destination));
                assert(buf@.subrange(p1 as int, buf@.len() as int) =~= enc_bits(v.destination)
                    + tail4);
                crate::codec::lemma_enc_bits_bind(destination@, v.destination, tail3, tail4);
                assert(p2 == pos + l1 + l2);
                assert(pos + e.len() <= buf@.len());
                assert(e.len() == l1 + l2 + 1);
                assert(false);
            }
        }
        return None;
    }
    let age = buf[p2];
    proof {
        assert(buf@.subrange(p2 as int, p2 + 1) =~= seq![buf@[p2 as int]]);
        assert(buf@.subrange(pos as int, p2 + 1) =~= buf@.subrange(pos as int, p1 as int)
            + buf@.subrange(p1 as int, p2 as int) + buf@.subrange(p2 as int, p2 + 1));
    }
    Some((RelocateDetails { previous_name, destination, age }, p2 + 1))
}

/// Whether a proposal view is exactly what the wire can carry.
pub open spec fn proposal_wire_wf(v: ProposalV) -> bool {
    match v {
        ProposalV::OnlineNode(n) => node_state_wire_wf(n),
        ProposalV::OfflineNode(n) => node_state_wire_wf(n),
        ProposalV::SectionInfo(s) => sap_wire_wf(s),
        ProposalV::JoinsAllowed(_) => true,
    }
}

/// Whether the bytes at `pos` begin with the encoding of a proposal.
pub open spec fn proposal_at(s: Seq<u8>, pos: int) -> bool {
    exists|v: ProposalV|
        proposal_wire_wf(v) && pos + #[trigger] enc_proposal(v).len() <= s.len() && s.subrange(
            pos,
            pos + enc_proposal(v).len(),
        ) == enc_proposal(v)
}

/// The proposal encoded at `pos`, where one is.
pub open spec fn proposal_witness(s: Seq<u8>, pos: int) -> ProposalV {
    choose|v: ProposalV|
        proposal_wire_wf(v) && pos + #[trigger] enc_proposal(v).len() <= s.len() && s.subrange(
            pos,
            pos + enc_proposal(v).len(),
        ) == enc_proposal(v)
}

/// Reads a proposal.
#[verifier::rlimit(100)]
#[verifier::spinoff_prover]
fn read_proposal(buf: &Vec<u8>, pos: usize) -> (r: Option<(Proposal, usize)>)
    ensures
        r matches Some((p, next)) ==> pos <= next <= buf@.len() && buf@.subrange(
            pos as int,
            next as int,
        ) == enc_proposal(p@) && crate::agreement::proposal_v_bounded(p@) && proposal_wire_wf(p@),
        r is None ==> !proposal_at(buf@, pos as int),
{
    if pos >= buf.len() {
        proof {
            if proposal_at(buf@, pos as int) {
                let v = proposal_witness(buf@, pos as int);
                crate::agreement::lemma_proposal_first_byte(v, Seq::empty());
                assert(false);
            }
        }
        return None;
    }
    let tag = buf[pos];
    proof {
        if proposal_at(buf@, pos as int) {
            let v = proposal_witness(buf@, pos as int);
            crate::agreement::lemma_proposal_first_byte(v, Seq::empty());
            assert(enc_proposal(v) + Seq::<u8>::empty() =~= enc_proposal(v));
            assert(buf@.subrange(pos as int, pos + enc_proposal(v).len())[0]
                == buf@[pos as int]);
            assert(buf@[pos as int] == crate::agreement::proposal_tag(v));
        }
    }
    if tag == 3 {
        if pos + 1 >= buf.len() {
            proof {
                if proposal_at(buf@, pos as int) {
                    let v = proposal_witness(buf@, pos as int);
                    match v {
                        ProposalV::JoinsAllowed(b0) => {
                            assert(enc_proposal(v).len() == 2);
                        },
                        _ => {
                            assert(false);
                        },
                    }
                    assert(false);
                }
            }
            return None;
        }
        let b = buf[pos + 1];
        if b > 1 {
            proof {
                if proposal_at(buf@, pos as int) {
                    let v = proposal_witness(buf@, pos as int);
                    match v {
                        ProposalV::JoinsAllowed(b0) => {
                            assert(buf@.subrange(pos as int, pos + 2)[1] == buf@[pos + 1]);
                            assert(enc_proposal(v)[1] == (if b0 { 1u8 } else { 0u8 }));
                        },
                        _ => {
                            assert(false);
                        },
                    }
                    assert(false);
                }
            }
            return None;
        }
        proof {
            assert(buf@.subrange(pos as int, pos + 2) =~= seq![3u8, buf@[pos + 1]]);
        }
        Some((Proposal::JoinsAllowed(b == 1), pos + 2))
    } else if tag == 2 {
        let (sap, p1) = match read_sap(buf, pos + 1) {
            Some(v) => v,
            None => {
                proof {
                    if proposal_at(buf@, pos as int) {
                        let v = proposal_witness(buf@, pos as int);
                        match v {
                            ProposalV::SectionInfo(s0) => {
                                let e = enc_proposal(v);
                                let ls = crate::section::enc_sap(s0).len() as int;
                                assert(buf@.subrange(pos + 1, pos + 1 + ls) =~= e.subrange(
                                    1,
                                    1 + ls,
                                ));
                                assert(e.subrange(1, 1 + ls) =~= crate::section::enc_sap(s0));
                                assert(sap_at(buf@, pos + 1));
                            },
                            _ => {},
                        }
                        assert(false);
                    }
                }
                return None;
            },
        };
        proof {
            assert(buf@.subrange(pos as int, p1 as int) =~= seq![2u8] + buf@.subrange(
                pos + 1,
                p1 as int,
            ));
        }
        Some((Proposal::SectionInfo(sap), p1))
    } else if tag == 0 || tag == 1 {
        let (node, p1) = match read_node_state(buf, pos + 1) {
            Some(v) => v,
            None => {
                proof {
                    if proposal_at(buf@, pos as int) {
                        let v = proposal_witness(buf@, pos as int);
                        match v {
                            ProposalV::OnlineNode(n0) => {
                                let e = enc_proposal(v);
                                let ln = crate::section::enc_node_state(n0).len() as int;
                                assert(buf@.subrange(pos + 1, pos + 1 + ln) =~= e.subrange(
                                    1,
                                    1 + ln,
                                ));
                                assert(e.subrange(1, 1 + ln) =~= crate::section::enc_node_state(
                                    n0,
                                ));
                                assert(node_state_at(buf@, pos + 1));
                            },
                            ProposalV::OfflineNode(n0) => {
                                let e = enc_proposal(v);
                                let ln = crate::section::enc_node_state(n0).len() as int;
                                assert(buf@.subrange(pos + 1, pos + 1 + ln) =~= e.subrange(
                                    1,
                                    1 + ln,
                                ));
                                assert(e.subrange(1, 1 + ln) =~= crate::section::enc_node_state(
                                    n0,
                                ));
                                assert(node_state_at(buf@, pos + 1));
                            },
                            _ => {},
                        }
                        assert(false);
                    }
                }
                return None;
            },
        };
        proof {
            assert(buf@.subrange(pos as int, p1 as int) =~= seq![buf@[pos as int]] + buf@.subrange(
                pos + 1,
                p1 as int,
            ));
        }
        if tag == 0 {
            Some((Proposal::OnlineNode(node), p1))
        } else {
            Some((Proposal::OfflineNode(node), p1))
        }
    } else {
        proof {
            if proposal_at(buf@, pos as int) {
                assert(false);
            }
        }
        None
    }
}


/// Whether the bytes at `pos` begin with the encoding of a member record.
pub open spec fn node_state_at(s: Seq<u8>, pos: int) -> bool {
    exists|v: crate::section::NodeStateV|
        node_state_wire_wf(v) && pos + #[trigger] crate::section::enc_node_state(v).len()
            <= s.len() && s.subrange(pos, pos + crate::section::enc_node_state(v).len())
            == crate::section::enc_node_state(v)
}

/// Whether a member record view is exactly what the wire can carry: full
/// names and a bounded endpoint.
pub open spec fn node_state_wire_wf(v: crate::section::NodeStateV) -> bool {
    &&& v.name.len() == 256
    &&& v.addr.ip.len() <= u64::MAX
    &&& match v.state {
        crate::section::MembershipV::Relocated(d) => d.len() == 256,
        _ => true,
    }
}

/// The bytes of a member record after its name.
pub open spec fn ns_rest1(v: crate::section::NodeStateV) -> Seq<u8> {
    crate::codec::enc_bytes(v.addr.ip) + ns_rest2(v)
}

/// The bytes of a member record after its endpoint address.
pub open spec fn ns_rest2(v: crate::section::NodeStateV) -> Seq<u8> {
    enc_u64(v.addr.port as u64) + ns_rest3(v)
}

/// The bytes of a member record after its endpoint.
pub open spec fn ns_rest3(v: crate::section::NodeStateV) -> Seq<u8> {
    seq![v.age] + crate::section::enc_membership(v.state)
}

/// A member record's encoding splits as name, then the rest.
proof fn lemma_ns_split(v: crate::section::NodeStateV)
    ensures
        crate::section::enc_node_state(v) =~= enc_bits(v.name) + ns_rest1(v),
        ns_rest1(v) =~= crate::codec::enc_bytes(v.addr.ip) + ns_rest2(v),
        ns_rest2(v) =~= enc_u64(v.addr.port as u64) + ns_rest3(v),
        ns_rest3(v).len() >= 2,
{
    assert(crate::section::enc_membership(v.state).len() >= 1) by {
        match v.state {
            crate::section::MembershipV::Joined => {},
            crate::section::MembershipV::Left => {},
            crate::section::MembershipV::Relocated(_) => {},
        }
    }
}

/// Whether an authority record view is exactly what the wire can carry: a
/// well-formed record with full elder names and bounded fields.
pub open spec fn sap_wire_wf(v: crate::section::SapV) -> bool {
    &&& crate::section::sap_wf(v)
    &&& v.prefix.len() <= 256
    &&& v.elders.len() <= u64::MAX
    &&& forall|i: int|
        0 <= i < v.elders.len() ==> (#[trigger] v.elders[i]).name.len() == 256
            && v.elders[i].addr.ip.len() <= u64::MAX
    &&& v.pk_set.len() <= u64::MAX
}

/// Whether the bytes at `pos` begin with the encoding of an authority
/// record.
pub open spec fn sap_at(s: Seq<u8>, pos: int) -> bool {
    exists|v: crate::section::SapV|
        sap_wire_wf(v) && pos + #[trigger] crate::section::enc_sap(v).len() <= s.len()
            && s.subrange(pos, pos + crate::section::enc_sap(v).len()) == crate::section::enc_sap(
            v,
        )
}

/// The authority record encoded at `pos`, where one is.
pub open spec fn sap_witness(s: Seq<u8>, pos: int) -> crate::section::SapV {
    choose|v: crate::section::SapV|
        sap_wire_wf(v) && pos + #[trigger] crate::section::enc_sap(v).len() <= s.len()
            && s.subrange(pos, pos + crate::section::enc_sap(v).len()) == crate::section::enc_sap(
            v,
        )
}

/// The bytes of an authority record after its elder list: key set, then
/// generation.
pub open spec fn sap_tail(v: crate::section::SapV) -> Seq<u8> {
    crate::codec::enc_bytes(v.pk_set) + enc_u64(v.generation)
}

/// Reads an authority record: its fields, checked against the record's own
/// construction rules, so only a well-formed record parses.
#[verifier::rlimit(100)]
#[verifier::spinoff_prover]
fn read_sap(buf: &Vec<u8>, pos: usize) -> (r: Option<
    (crate::section::SectionAuthorityProvider, usize),
>)
    ensures
        r matches Some((s, next)) ==> pos <= next <= buf@.len() && buf@.subrange(
            pos as int,
            next as int,
        ) == crate::section::enc_sap(s@) && crate::section::sap_v_bounded(s@)
            && crate::section::sap_wf(s@) && sap_wire_wf(s@),
        r is None ==> !sap_at(buf@, pos as int),
{
    let (prefix, p0) = match read_prefix(buf, pos) {
        Some(v) => v,
        None => {
            proof {
                if sap_at(buf@, pos as int) {
                    let v = sap_witness(buf@, pos as int);
                    let e = crate::section::enc_sap(v);
                    let l = enc_bits(v.prefix).len() as int;
                    assert(buf@.subrange(pos as int, pos + l) =~= e.subrange(0, l));
                    assert(e.subrange(0, l) =~= enc_bits(v.prefix));
                    assert(prefix_at(buf@, pos as int));
                    assert(false);
                }
            }
            return None;
        },
    };
    let (count, p1) = match read_u64(buf, p0) {
        Some(v) => v,
        None => {
            proof {
                if sap_at(buf@, pos as int) {
                    let v = sap_witness(buf@, pos as int);
                    sap_head_chain(buf@, pos as int, v, prefix@, p0 as int);
                    let rest = crate::section::enc_peers(v.elders) + sap_tail(v);
                    assert(buf@.subrange(p0 as int, p0 + 8) =~= (enc_u64(v.elders.len() as u64)
                        + rest).subrange(0, 8));
                    assert((enc_u64(v.elders.len() as u64) + rest).subrange(0, 8) =~= enc_u64(
                        v.elders.len() as u64,
                    ));
                    crate::codec::lemma_dec_u64(buf@, p0 as int, v.elders.len() as u64);
                    assert(false);
                }
            }
            return None;
        },
    };
    proof {
        if sap_at(buf@, pos as int) {
            let v = sap_witness(buf@, pos as int);
            sap_head_chain(buf@, pos as int, v, prefix@, p0 as int);
            lemma_dec_u64_prefix(buf@, p0 as int, count, p1 as int);
            let rest = crate::section::enc_peers(v.elders) + sap_tail(v);
            assert(buf@.subrange(p0 as int, p0 + (8 + rest.len()) as int) =~= enc_u64(
                v.elders.len() as u64,
            ) + rest);
            crate::codec::lemma_chain_u64(
                buf@,
                p0 as int,
                count,
                p1 as int,
                v.elders.len() as u64,
                rest,
            );
            crate::section::lemma_enc_peers_len(v.elders);
            assert(count <= buf@.len());
        }
    }
    if count > buf.len() as u64 {
        proof {
            if sap_at(buf@, pos as int) {
                assert(false);
            }
        }
        return None;
    }
    let n = count as usize;
    let mut elders: Vec<crate::section::Peer> = Vec::new();
    let mut p: usize = p1;
    let mut i: usize = 0;
    proof {
        lemma_dec_u64_prefix(buf@, p0 as int, count, p1 as int);
        assert(buf@.subrange(p1 as int, p1 as int) =~= Seq::<u8>::empty());
        assert(crate::section::enc_peers(elders@.map_values(|q: crate::section::Peer| q@)) =~=
            Seq::<u8>::empty());
        if sap_at(buf@, pos as int) {
            let v = sap_witness(buf@, pos as int);
            crate::section::lemma_enc_peers_split(v.elders, 0);
            assert(v.elders.take(0) =~= Seq::<crate::section::PeerV>::empty());
            assert(crate::section::enc_peers(v.elders.take(0)) =~= Seq::<u8>::empty());
            assert(elders@.map_values(|q: crate::section::Peer| q@) =~= v.elders.take(0));
            assert(crate::section::enc_peers_from(v.elders, 0) == crate::section::enc_peers(
                v.elders,
            ));
        }
    }
    while i < n
        invariant
            i <= n,
            p1 <= p <= buf@.len(),
            elders@.len() == i,
            forall|k: int|
                0 <= k < i ==> (#[trigger] elders@[k]@).name.len() == 256
                    && elders@[k]@.addr.ip.len() <= u64::MAX,
            buf@.subrange(p1 as int, p as int) == crate::section::enc_peers(
                elders@.map_values(|q: crate::section::Peer| q@),
            ),
            sap_at(buf@, pos as int) ==> {
                let v = sap_witness(buf@, pos as int);
                &&& n == v.elders.len()
                &&& elders@.map_values(|q: crate::section::Peer| q@) == v.elders.take(i as int)
                &&& p as int + crate::section::enc_peers_from(v.elders, i as int).len()
                    + sap_tail(v).len() <= buf@.len()
                &&& buf@.subrange(
                    p as int,
                    p + crate::section::enc_peers_from(v.elders, i as int).len()
                        + sap_tail(v).len(),
                ) == crate::section::enc_peers_from(v.elders, i as int) + sap_tail(v)
            },
        decreases n - i,
    {
        let ghost prev = elders@.map_values(|q: crate::section::Peer| q@);
        proof {
            if sap_at(buf@, pos as int) {
                let v = sap_witness(buf@, pos as int);
                assert(crate::section::enc_peers_from(v.elders, i as int) == crate::section::enc_peer(
                    v.elders[i as int],
                ) + crate::section::enc_peers_from(v.elders, i + 1));
                assert(crate::section::enc_peer(v.elders[i as int]) =~= enc_bits(
                    v.elders[i as int].name,
                ) + (crate::codec::enc_bytes(v.elders[i as int].addr.ip) + enc_u64(
                    v.elders[i as int].addr.port as u64,
                )));
            }
        }
        let (name, pn) = match read_name(buf, p) {
            Some(v) => v,
            None => {
                proof {
                    if sap_at(buf@, pos as int) {
                        let v = sap_witness(buf@, pos as int);
                        let ln = enc_bits(v.elders[i as int].name).len() as int;
                        let whole = crate::section::enc_peers_from(v.elders, i as int) + sap_tail(
                            v,
                        );
                        assert(buf@.subrange(p as int, p + ln) =~= whole.subrange(0, ln));
                        assert(whole.subrange(0, ln) =~= enc_bits(v.elders[i as int].name));
                        assert(name_at(buf@, p as int));
                        assert(false);
                    }
                }
                return None;
            },
        };
        proof {
            if sap_at(buf@, pos as int) {
                let v = sap_witness(buf@, pos as int);
                let rest_n = crate::codec::enc_bytes(v.elders[i as int].addr.ip) + (enc_u64(
                    v.elders[i as int].addr.port as u64,
                ) + (crate::section::enc_peers_from(v.elders, i + 1) + sap_tail(v)));
                assert(buf@.subrange(
                    p as int,
                    p as int + (enc_bits(v.elders[i as int].name).len() + rest_n.len()) as int,
                ) =~= enc_bits(v.elders[i as int].name) + rest_n);
                crate::codec::lemma_chain_bits(
                    buf@,
                    p as int,
                    name@,
                    pn as int,
                    v.elders[i as int].name,
                    rest_n,
                );
            }
        }
        let (ip, pa) = match read_bytes(buf, pn) {
            Some(v) => v,
            None => {
                proof {
                    if sap_at(buf@, pos as int) {
                        let v = sap_witness(buf@, pos as int);
                        let lb = crate::codec::enc_bytes(v.elders[i as int].addr.ip).len() as int;
                        let rest_n = crate::codec::enc_bytes(v.elders[i as int].addr.ip) + (
                        enc_u64(v.elders[i as int].addr.port as u64) + (
                        crate::section::enc_peers_from(v.elders, i + 1) + sap_tail(v)));
                        assert(buf@.subrange(pn as int, pn + lb) =~= rest_n.subrange(0, lb));
                        assert(rest_n.subrange(0, lb) =~= crate::codec::enc_bytes(
                            v.elders[i as int].addr.ip,
                        ));
                        crate::codec::lemma_dec_bytes(buf@, pn as int, v.elders[i as int].addr.ip);
                        assert(false);
                    }
                }
                return None;
            },
        };
        proof {
            if sap_at(buf@, pos as int) {
                let v = sap_witness(buf@, pos as int);
                lemma_dec_bytes_prefix(buf@, pn as int, ip@, pa as int);
                let rest_a = enc_u64(v.elders[i as int].addr.port as u64) + (
                crate::section::enc_peers_from(v.elders, i + 1) + sap_tail(v));
                assert(buf@.subrange(
                    pn as int,
                    pn as int + (crate::codec::enc_bytes(v.elders[i as int].addr.ip).len()
                        + rest_a.len()) as int,
                ) =~= crate::codec::enc_bytes(v.elders[i as int].addr.ip) + rest_a);
                crate::codec::lemma_chain_bytes(
                    buf@,
                    pn as int,
                    ip@,
                    pa as int,
                    v.elders[i as int].addr.ip,
                    rest_a,
                );
            }
        }
        let (port64, pb) = match read_u64(buf, pa) {
            Some(v) => v,
            None => {
                proof {
                    if sap_at(buf@, pos as int) {
                        let v = sap_witness(buf@, pos as int);
                        let rest_a = enc_u64(v.elders[i as int].addr.port as u64) + (
                        crate::section::enc_peers_from(v.elders, i + 1) + sap_tail(v));
                        assert(buf@.subrange(pa as int, pa + 8) =~= rest_a.subrange(0, 8));
                        assert(rest_a.subrange(0, 8) =~= enc_u64(
                            v.elders[i as int].addr.port as u64,
                        ));
                        crate::codec::lemma_dec_u64(
                            buf@,
                            pa as int,
                            v.elders[i as int].addr.port as u64,
                        );
                        assert(false);
                    }
                }
                return None;
            },
        };
        proof {
            if sap_at(buf@, pos as int) {
                let v = sap_witness(buf@, pos as int);
                lemma_dec_u64_prefix(buf@, pa as int, port64, pb as int);
                let rest_b = crate::section::enc_peers_from(v.elders, i + 1) + sap_tail(v);
                assert(buf@.subrange(pa as int, pa as int + (8 + rest_b.len()) as int) =~= enc_u64(
                    v.elders[i as int].addr.port as u64,
                ) + rest_b);
                crate::codec::lemma_chain_u64(
                    buf@,
                    pa as int,
                    port64,
                    pb as int,
                    v.elders[i as int].addr.port as u64,
                    rest_b,
                );
            }
        }
        if port64 > 65535 {
            proof {
                if sap_at(buf@, pos as int) {
                    assert(false);
                }
            }
            return None;
        }
        let peer = crate::section::Peer {
            name,
            addr: crate::section::NetAddr { ip, port: port64 as u16 },
        };
        let ghost peerv = peer@;
        elders.push(peer);
        proof {
            lemma_dec_bytes_prefix(buf@, pn as int, peerv.addr.ip, pa as int);
            lemma_dec_u64_prefix(buf@, pa as int, port64, pb as int);
            let cur = elders@.map_values(|q: crate::section::Peer| q@);
            assert(cur =~= prev.push(peerv));
            assert(cur.drop_last() =~= prev);
            assert(cur.last() == peerv);
            assert(crate::section::enc_addr(peerv.addr) =~= buf@.subrange(pn as int, pa as int)
                + buf@.subrange(pa as int, pb as int));
            assert(buf@.subrange(p as int, pb as int) =~= buf@.subrange(p as int, pn as int)
                + buf@.subrange(pn as int, pa as int) + buf@.subrange(pa as int, pb as int));
            assert(buf@.subrange(p as int, pb as int) =~= crate::section::enc_peer(peerv));
            assert(buf@.subrange(p1 as int, pb as int) =~= buf@.subrange(p1 as int, p as int)
                + buf@.subrange(p as int, pb as int));
            assert(crate::section::enc_peers(cur) == crate::section::enc_peers(prev)
                + crate::section::enc_peer(peerv));
            if sap_at(buf@, pos as int) {
                let v = sap_witness(buf@, pos as int);
                assert(peerv =~= v.elders[i as int]);
                assert(cur =~= v.elders.take(i + 1));
            }
        }
        p = pb;
        i = i + 1;
    }
    let (pk_set, p2) = match read_bytes(buf, p) {
        Some(v) => v,
        None => {
            proof {
                if sap_at(buf@, pos as int) {
                    let v = sap_witness(buf@, pos as int);
                    let f = crate::section::enc_peers_from(v.elders, n as int);
                    assert(f =~= Seq::<u8>::empty());
                    let lp = crate::codec::enc_bytes(v.pk_set).len() as int;
                    assert(buf@.subrange(p as int, p + lp) =~= (f + sap_tail(v)).subrange(0, lp));
                    assert((f + sap_tail(v)).subrange(0, lp) =~= crate::codec::enc_bytes(v.pk_set));
                    crate::codec::lemma_dec_bytes(buf@, p as int, v.pk_set);
                    assert(false);
                }
            }
            return None;
        },
    };
    proof {
        if sap_at(buf@, pos as int) {
            let v = sap_witness(buf@, pos as int);
            let f = crate::section::enc_peers_from(v.elders, n as int);
            assert(f =~= Seq::<u8>::empty());
            lemma_dec_bytes_prefix(buf@, p as int, pk_set@, p2 as int);
            assert(buf@.subrange(
                p as int,
                p as int + (crate::codec::enc_bytes(v.pk_set).len() + 8) as int,
            ) =~= crate::codec::enc_bytes(v.pk_set) + enc_u64(v.generation));
            crate::codec::lemma_chain_bytes(
                buf@,
                p as int,
                pk_set@,
                p2 as int,
                v.pk_set,
                enc_u64(v.generation),
            );
        }
    }
    let (generation, p3) = match read_u64(buf, p2) {
        Some(v) => v,
        None => {
            proof {
                if sap_at(buf@, pos as int) {
                    let v = sap_witness(buf@, pos as int);
                    crate::codec::lemma_dec_u64(buf@, p2 as int, v.generation);
                    assert(false);
                }
            }
            return None;
        },
    };
    let ghost prefixv = prefix@;
    let ghost eldersv = elders@.map_values(|q: crate::section::Peer| q@);
    let ghost pkv = pk_set@;
    let sap = match crate::section::SectionAuthorityProvider::new(prefix, elders, pk_set,
        generation) {
        Ok(s) => s,
        Err(_) => {
            proof {
                if sap_at(buf@, pos as int) {
                    let v = sap_witness(buf@, pos as int);
                    assert(eldersv =~= v.elders.take(n as int));
                    assert(v.elders.take(n as int) =~= v.elders);
                    lemma_dec_u64_prefix(buf@, p2 as int, generation, p3 as int);
                    crate::codec::lemma_chain_u64(
                        buf@,
                        p2 as int,
                        generation,
                        p3 as int,
                        v.generation,
                        Seq::empty(),
                    );
                    assert(crate::section::sap_wf(
                        crate::section::SapV {
                            prefix: prefixv,
                            elders: eldersv,
                            pk_set: pkv,
                            generation,
                        },
                    ));
                    assert(false);
                }
            }
            return None;
        },
    };
    proof {
        use_type_invariant(&sap);
        sap.lemma_wf();
        lemma_dec_bytes_prefix(buf@, p as int, pkv, p2 as int);
        lemma_dec_u64_prefix(buf@, p2 as int, generation, p3 as int);
        assert(sap@.elders == eldersv);
        assert(buf@.subrange(pos as int, p3 as int) =~= buf@.subrange(pos as int, p0 as int)
            + buf@.subrange(p0 as int, p1 as int) + buf@.subrange(p1 as int, p as int)
            + buf@.subrange(p as int, p2 as int) + buf@.subrange(p2 as int, p3 as int));
        assert(buf@.subrange(pos as int, p3 as int) =~= crate::section::enc_sap(sap@));
        assert forall|k: int|
            0 <= k < sap@.elders.len() implies (#[trigger] sap@.elders[k]).name.len() == 256
                && sap@.elders[k].addr.ip.len() <= u64::MAX by {
            assert(sap@.elders[k] == eldersv[k]);
        }
    }
    Some((sap, p3))
}

/// Chains an authority record's prefix: the parsed prefix is the encoded
/// one and the rest of the record follows it.
proof fn sap_head_chain(
    buf: Seq<u8>,
    pos: int,
    v: crate::section::SapV,
    prefixv: Seq<bool>,
    p0: int,
)
    requires
        sap_wire_wf(v),
        pos + crate::section::enc_sap(v).len() <= buf.len(),
        buf.subrange(pos, pos + crate::section::enc_sap(v).len()) == crate::section::enc_sap(v),
        0 <= pos <= p0 <= buf.len(),
        buf.subrange(pos, p0) == enc_bits(prefixv),
        prefixv.len() <= 256,
    ensures
        prefixv == v.prefix,
        p0 == pos + enc_bits(v.prefix).len(),
        p0 + 8 + crate::section::enc_peers(v.elders).len() + sap_tail(v).len() <= buf.len(),
        buf.subrange(
            pos,
            pos + enc_bits(v.prefix).len() + 8 + crate::section::enc_peers(v.elders).len()
                + sap_tail(v).len(),
        ) == crate::section::enc_sap(v),
        buf.subrange(p0, p0 + 8 + crate::section::enc_peers(v.elders).len() + sap_tail(v).len())
            == enc_u64(v.elders.len() as u64) + (crate::section::enc_peers(v.elders) + sap_tail(
            v,
        )),
{
    let rest = enc_u64(v.elders.len() as u64) + (crate::section::enc_peers(v.elders) + sap_tail(
        v,
    ));
    assert(crate::section::enc_sap(v) =~= enc_bits(v.prefix) + rest);
    assert(buf.subrange(pos, pos + (enc_bits(v.prefix).len() + rest.len()) as int) =~= enc_bits(
        v.prefix,
    ) + rest);
    crate::codec::lemma_chain_bits(buf, pos, prefixv, p0, v.prefix, rest);
}

/// The member record encoded at `pos`, where one is.
pub open spec fn ns_witness(s: Seq<u8>, pos: int) -> crate::section::NodeStateV {
    choose|v: crate::section::NodeStateV|
        node_state_wire_wf(v) && pos + #[trigger] crate::section::enc_node_state(v).len()
            <= s.len() && s.subrange(pos, pos + crate::section::enc_node_state(v).len())
            == crate::section::enc_node_state(v)
}

/// Chains the record's name: the parsed name is the encoded one and the
/// rest of the record follows it.
proof fn ns_chain1(buf: Seq<u8>, pos: int, v: crate::section::NodeStateV, namev: Seq<bool>, p1: int)
    requires
        node_state_wire_wf(v),
        pos + crate::section::enc_node_state(v).len() <= buf.len(),
        buf.subrange(pos, pos + crate::section::enc_node_state(v).len())
            == crate::section::enc_node_state(v),
        0 <= pos <= p1 <= buf.len(),
        buf.subrange(pos, p1) == enc_bits(namev),
        namev.len() == 256,
    ensures
        namev == v.name,
        p1 == pos + enc_bits(v.name).len(),
        p1 + ns_rest1(v).len() <= buf.len(),
        buf.subrange(p1, p1 + ns_rest1(v).len()) == ns_rest1(v),
{
    lemma_ns_split(v);
    assert(buf.subrange(pos, pos + (enc_bits(v.name).len() + ns_rest1(v).len()) as int) =~=
        enc_bits(v.name) + ns_rest1(v));
    crate::codec::lemma_chain_bits(buf, pos, namev, p1, v.name, ns_rest1(v));
}

/// Chains the record's address bytes after the name.
proof fn ns_chain2(buf: Seq<u8>, p1: int, v: crate::section::NodeStateV, ipv: Seq<u8>, p2: int)
    requires
        node_state_wire_wf(v),
        0 <= p1 <= p2 <= buf.len(),
        p1 + ns_rest1(v).len() <= buf.len(),
        buf.subrange(p1, p1 + ns_rest1(v).len()) == ns_rest1(v),
        buf.subrange(p1, p2) == crate::codec::enc_bytes(ipv),
        ipv.len() <= u64::MAX,
    ensures
        ipv == v.addr.ip,
        p2 == p1 + crate::codec::enc_bytes(v.addr.ip).len(),
        p2 + ns_rest2(v).len() <= buf.len(),
        buf.subrange(p2, p2 + ns_rest2(v).len()) == ns_rest2(v),
{
    lemma_ns_split(v);
    assert(buf.subrange(p1, p1 + (crate::codec::enc_bytes(v.addr.ip).len()
        + ns_rest2(v).len()) as int) =~= crate::codec::enc_bytes(v.addr.ip) + ns_rest2(v));
    crate::codec::lemma_chain_bytes(buf, p1, ipv, p2, v.addr.ip, ns_rest2(v));
}

/// Chains the record's port after the address bytes.
proof fn ns_chain3(buf: Seq<u8>, p2: int, v: crate::section::NodeStateV, port64: u64, p3: int)
    requires
        0 <= p2 <= p3 <= buf.len(),
        p2 + ns_rest2(v).len() <= buf.len(),
        buf.subrange(p2, p2 + ns_rest2(v).len()) == ns_rest2(v),
        buf.subrange(p2, p3) == enc_u64(port64),
    ensures
        port64 == v.addr.port as u64,
        p3 == p2 + 8,
        p3 + ns_rest3(v).len() <= buf.len(),
        buf.subrange(p3, p3 + ns_rest3(v).len()) == ns_rest3(v),
        ns_rest3(v).len() >= 2,
{
    lemma_ns_split(v);
    assert(buf.subrange(p2, p2 + (8 + ns_rest3(v).len()) as int) =~= enc_u64(v.addr.port as u64)
        + ns_rest3(v));
    crate::codec::lemma_chain_u64(buf, p2, port64, p3, v.addr.port as u64, ns_rest3(v));
}

/// Reads a member record.
#[verifier::rlimit(100)]
#[verifier::spinoff_prover]
fn read_node_state(buf: &Vec<u8>, pos: usize) -> (r: Option<
    (crate::section::NodeState, usize),
>)
    ensures
        r matches Some((n, next)) ==> pos <= next <= buf@.len() && buf@.subrange(
            pos as int,
            next as int,
        ) == crate::section::enc_node_state(n@) && crate::section::node_state_v_bounded(n@)
            && node_state_wire_wf(n@),
        r is None ==> !node_state_at(buf@, pos as int),
{
    let (name, p1) = match read_name(buf, pos) {
        Some(v) => v,
        None => {
            proof {
                if node_state_at(buf@, pos as int) {
                    let v = ns_witness(buf@, pos as int);
                    lemma_ns_split(v);
                    let l1 = enc_bits(v.name).len() as int;
                    assert(buf@.subrange(pos as int, pos + l1) =~= crate::section::enc_node_state(
                        v,
                    ).subrange(0, l1));
                    assert(crate::section::enc_node_state(v).subrange(0, l1) =~= enc_bits(v.name));
                    assert(name_at(buf@, pos as int));
                    assert(false);
                }
            }
            return None;
        },
    };
    let (ip, p2) = match read_bytes(buf, p1) {
        Some(v) => v,
        None => {
            proof {
                if node_state_at(buf@, pos as int) {
                    let v = ns_witness(buf@, pos as int);
                    ns_chain1(buf@, pos as int, v, name@, p1 as int);
                    lemma_ns_split(v);
                    let lb = crate::codec::enc_bytes(v.addr.ip).len() as int;
                    assert(buf@.subrange(p1 as int, p1 + lb) =~= ns_rest1(v).subrange(0, lb));
                    assert(ns_rest1(v).subrange(0, lb) =~= crate::codec::enc_bytes(v.addr.ip));
                    crate::codec::lemma_dec_bytes(buf@, p1 as int, v.addr.ip);
                    assert(false);
                }
            }
            return None;
        },
    };
    let (port64, p3) = match read_u64(buf, p2) {
        Some(v) => v,
        None => {
            proof {
                if node_state_at(buf@, pos as int) {
                    let v = ns_witness(buf@, pos as int);
                    ns_chain1(buf@, pos as int, v, name@, p1 as int);
                    lemma_dec_bytes_prefix(buf@, p1 as int, ip@, p2 as int);
                    ns_chain2(buf@, p1 as int, v, ip@, p2 as int);
                    lemma_ns_split(v);
                    assert(buf@.subrange(p2 as int, p2 + 8) =~= ns_rest2(v).subrange(0, 8));
                    assert(ns_rest2(v).subrange(0, 8) =~= enc_u64(v.addr.port as u64));
                    crate::codec::lemma_dec_u64(buf@, p2 as int, v.addr.port as u64);
                    assert(false);
                }
            }
            return None;
        },
    };
    proof {
        if node_state_at(buf@, pos as int) {
            let v = ns_witness(buf@, pos as int);
            ns_chain1(buf@, pos as int, v, name@, p1 as int);
            lemma_dec_bytes_prefix(buf@, p1 as int, ip@, p2 as int);
            ns_chain2(buf@, p1 as int, v, ip@, p2 as int);
            lemma_dec_u64_prefix(buf@, p2 as int, port64, p3 as int);
            ns_chain3(buf@, p2 as int, v, port64, p3 as int);
        }
    }
    if port64 > 65535 {
        proof {
            if node_state_at(buf@, pos as int) {
                assert(false);
            }
        }
        return None;
    }
    let port = port64 as u16;
    if p3 >= buf.len() {
        proof {
            if node_state_at(buf@, pos as int) {
                assert(false);
            }
        }
        return None;
    }
    let age = buf[p3];
    let p4 = p3 + 1;
    if p4 >= buf.len() {
        proof {
            if node_state_at(buf@, pos as int) {
                assert(false);
            }
        }
        return None;
    }
    let mtag = buf[p4];
    proof {
        if node_state_at(buf@, pos as int) {
            let v = ns_witness(buf@, pos as int);
            ns_chain1(buf@, pos as int, v, name@, p1 as int);
            lemma_dec_bytes_prefix(buf@, p1 as int, ip@, p2 as int);
            ns_chain2(buf@, p1 as int, v, ip@, p2 as int);
            lemma_dec_u64_prefix(buf@, p2 as int, port64, p3 as int);
            ns_chain3(buf@, p2 as int, v, port64, p3 as int);
            assert(buf@[p3 as int] == ns_rest3(v)[0]);
            assert(buf@[p4 as int] == ns_rest3(v)[1]);
            assert(ns_rest3(v)[1] == crate::section::enc_membership(v.state)[0]);
            match v.state {
                crate::section::MembershipV::Joined => {
                    assert(buf@[p4 as int] == 0u8);
                },
                crate::section::MembershipV::Left => {
                    assert(buf@[p4 as int] == 1u8);
                },
                crate::section::MembershipV::Relocated(d) => {
                    assert(crate::section::enc_membership(v.state) =~= seq![2u8] + enc_bits(d));
                    assert(buf@[p4 as int] == 2u8);
                },
            }
        }
    }
    let (state, p5) = if mtag == 0 {
        (crate::section::MembershipState::Joined, p4 + 1)
    } else if mtag == 1 {
        (crate::section::MembershipState::Left, p4 + 1)
    } else if mtag == 2 {
        match read_name(buf, p4 + 1) {
            Some((dest, p)) => (crate::section::MembershipState::Relocated(dest), p),
            None => {
                proof {
                    if node_state_at(buf@, pos as int) {
                        let v = ns_witness(buf@, pos as int);
                        ns_chain1(buf@, pos as int, v, name@, p1 as int);
                        lemma_dec_bytes_prefix(buf@, p1 as int, ip@, p2 as int);
                        ns_chain2(buf@, p1 as int, v, ip@, p2 as int);
                        lemma_dec_u64_prefix(buf@, p2 as int, port64, p3 as int);
                        ns_chain3(buf@, p2 as int, v, port64, p3 as int);
                        assert(buf@[p4 as int] == ns_rest3(v)[1]);
                        match v.state {
                            crate::section::MembershipV::Joined => {
                                assert(buf@[p4 as int] == 0u8);
                            },
                            crate::section::MembershipV::Left => {
                                assert(buf@[p4 as int] == 1u8);
                            },
                            crate::section::MembershipV::Relocated(d) => {
                                let lr = ns_rest3(v).len() as int;
                                assert(ns_rest3(v) =~= seq![v.age] + (seq![2u8] + enc_bits(d)));
                                assert(buf@.subrange(p4 + 1, p3 as int + lr) =~= ns_rest3(
                                    v,
                                ).subrange(2, lr));
                                assert(ns_rest3(v).subrange(2, lr) =~= enc_bits(d));
                                assert(name_at(buf@, p4 + 1));
                            },
                        }
                        assert(false);
                    }
                }
                return None;
            },
        }
    } else {
        proof {
            if node_state_at(buf@, pos as int) {
                assert(false);
            }
        }
        return None;
    };
    let node = crate::section::NodeState {
        name,
        addr: crate::section::NetAddr { ip, port },
        age,
        state,
    };
    proof {
        lemma_dec_bytes_prefix(buf@, p1 as int, ip@, p2 as int);
        lemma_dec_u64_prefix(buf@, p2 as int, port64, p3 as int);
        assert(port64 == port as u64);
        assert(buf@.subrange(p3 as int, p3 + 1) =~= seq![buf@[p3 as int]]);
        if mtag == 0 || mtag == 1 {
            assert(buf@.subrange(p4 as int, p4 + 1) =~= seq![buf@[p4 as int]]);
        } else {
            assert(buf@.subrange(p4 as int, p5 as int) =~= seq![2u8] + buf@.subrange(
                p4 + 1,
                p5 as int,
            ));
        }
        assert(buf@.subrange(pos as int, p5 as int) =~= buf@.subrange(pos as int, p1 as int)
            + buf@.subrange(p1 as int, p2 as int) + buf@.subrange(p2 as int, p3 as int)
            + buf@.subrange(p3 as int, p3 + 1) + buf@.subrange(p4 as int, p5 as int));
        assert(crate::section::enc_addr(node.addr@) =~= buf@.subrange(p1 as int, p2 as int)
            + buf@.subrange(p2 as int, p3 as int));
    }
    Some((node, p5))
}

/// Whether a node-signed source authority checks out: the carried signature
/// verifies over the body's canonical bytes under the carried key.
pub open spec fn node_src_valid(
    name: Seq<bool>,
    public_key: Seq<u8>,
    signature: Seq<u8>,
    variant: VariantV,
) -> bool {
    bls_verified(public_key, signature, enc_variant(variant))
}

/// Whether a section-signed source authority checks out against the
/// receiver's routing table: the signature verifies over the body's
/// canonical bytes, it was made under the very key the message claims, and
/// the receiver's table holds, for that source prefix, a record whose
/// current master key is that key.
pub open spec fn section_src_valid(
    map: Seq<crate::section::SapV>,
    prefix: Seq<bool>,
    signed: SignedV,
    variant: VariantV,
    section_pk: Seq<u8>,
) -> bool {
    &&& signed.public_key == section_pk
    &&& bls_verified(signed.public_key, signed.signature, enc_variant(variant))
    &&& exists|i: int|
        {
            &&& 0 <= i < map.len()
            &&& (#[trigger] map[i]).prefix == prefix
            &&& bls_master_key(map[i].pk_set) == section_pk
        }
}

/// Whether the message's source authority checks out at a receiver holding
/// the routing table `map`.
pub open spec fn src_valid(map: Seq<crate::section::SapV>, m: RoutingMsgV) -> bool {
    match m.src {
        SrcAuthorityV::Node { name, public_key, signature } => node_src_valid(
            name,
            public_key,
            signature,
            m.variant,
        ),
        SrcAuthorityV::Section { prefix, signed } => section_src_valid(
            map,
            prefix,
            signed,
            m.variant,
            m.section_pk,
        ),
    }
}

/// Validates a received message's source authority against the routing
/// table: the signature must verify over the body, and a section-signed
/// message must carry the very key the table currently trusts for the
/// source prefix. A message failing either is rejected, never passed on.
pub fn validate_src(msg: &RoutingMsg, map: &PrefixMap) -> (r: bool)
    ensures
        r == src_valid(map@, msg@),
{
    let body = {
        let mut out: Vec<u8> = Vec::new();
        msg.variant.write(&mut out);
        out
    };
    match &msg.src {
        SrcAuthority::Node { name, public_key, signature } => {
            crate::crypto::bls_verify(public_key, signature, &body)
        },
        SrcAuthority::Section { prefix, signed } => {
            if !crate::codec::bytes_eq(&signed.public_key, &msg.section_pk) {
                return false;
            }
            if !signed.verify(&body) {
                return false;
            }
            let n = map.len();
            let mut i: usize = 0;
            while i < n
                invariant
                    i <= n,
                    n == map@.len(),
                    msg@.src == (SrcAuthorityV::Section { prefix: prefix@, signed: signed@ }),
                    signed@.public_key == msg@.section_pk,
                    bls_verified(
                        signed@.public_key,
                        signed@.signature,
                        enc_variant(msg@.variant),
                    ),
                    forall|k: int|
                        0 <= k < i ==> !((#[trigger] map@[k]).prefix == prefix@ && bls_master_key(
                            map@[k].pk_set,
                        ) == msg@.section_pk),
                decreases n - i,
            {
                let entry = map.get_at(i);
                if entry.prefix().equals(prefix) {
                    let master = entry.section_key();
                    if crate::codec::bytes_eq(&master, &msg.section_pk) {
                        assert(map@[i as int].prefix == prefix@ && bls_master_key(
                            map@[i as int].pk_set,
                        ) == msg@.section_pk);
                        return true;
                    }
                }
                proof {
                    assert(!(map@[i as int].prefix == prefix@ && bls_master_key(
                        map@[i as int].pk_set,
                    ) == msg@.section_pk));
                }
                i = i + 1;
            }
            false
        },
    }
}

/// What a receiver does with a validated message, by its destination.
#[derive(Clone, Copy, Debug, PartialEq, Eq, Structural)]
pub enum MsgDisposition {
    /// The destination falls under this node's own section: deliver here.
    AcceptLocal,
    /// Another known section is responsible: pass the message on.
    Relay,
    /// No known section covers the destination: refuse it as out of
    /// section.
    RejectOutOfSection,
}

/// The name a destination speaks of.
pub open spec fn dst_name(d: DstLocationV) -> Seq<bool> {
    match d {
        DstLocationV::ToNode(n) => n,
        DstLocationV::ToSection(n) => n,
    }
}

/// Resolves a message's destination at a node whose own section has the
/// prefix `our_prefix` and which knows the sections in `map`: accepted
/// locally when the destination name falls under our prefix, relayed when
/// some other known section covers it, refused when no known region does.
pub fn resolve_dst(our_prefix: &Prefix, map: &PrefixMap, dst: &DstLocation) -> (r: MsgDisposition)
    ensures
        prefix_matches(our_prefix@, dst_name(dst@)) ==> r == MsgDisposition::AcceptLocal,
        !prefix_matches(our_prefix@, dst_name(dst@)) && (exists|i: int|
            0 <= i < map@.len() && prefix_matches(
                (#[trigger] map@[i]).prefix,
                dst_name(dst@),
            )) ==> r == MsgDisposition::Relay,
        !prefix_matches(our_prefix@, dst_name(dst@)) && !(exists|i: int|
            0 <= i < map@.len() && prefix_matches(
                (#[trigger] map@[i]).prefix,
                dst_name(dst@),
            )) ==> r == MsgDisposition::RejectOutOfSection,
{
    let name = match dst {
        DstLocation::ToNode(n) => n,
        DstLocation::ToSection(n) => n,
    };
    if our_prefix.matches(name) {
        return MsgDisposition::AcceptLocal;
    }
    match map.section_by_name(name) {
        Some(_) => MsgDisposition::Relay,
        None => MsgDisposition::RejectOutOfSection,
    }
}

/// Whether a signature pair's view is within machine bounds; every pair
/// actually held is.
pub open spec fn signed_v_bounded(s: SignedV) -> bool {
    s.public_key.len() <= u64::MAX && s.signature.len() <= u64::MAX
}

/// Whether a source authority's view is within machine bounds.
pub open spec fn src_v_bounded(s: SrcAuthorityV) -> bool {
    match s {
        SrcAuthorityV::Node { name, public_key, signature } => name.len() <= u64::MAX
            && public_key.len() <= u64::MAX && signature.len() <= u64::MAX,
        SrcAuthorityV::Section { prefix, signed } => prefix.len() <= u64::MAX && signed_v_bounded(
            signed,
        ),
    }
}

/// Whether a destination's view is within machine bounds.
pub open spec fn dst_v_bounded(d: DstLocationV) -> bool {
    dst_name(d).len() <= u64::MAX
}

/// Whether a body's view is within machine bounds.
pub open spec fn variant_v_bounded(v: VariantV) -> bool {
    match v {
        VariantV::UserMsg(b) => b.len() <= u64::MAX,
        VariantV::Propose { index, share, proposal } => share.len() <= u64::MAX
            && crate::agreement::proposal_v_bounded(proposal),
        VariantV::Relocate { details, signed } => crate::relocation::relocate_details_v_bounded(
            details,
        ) && signed_v_bounded(signed),
        VariantV::DkgStart { key } => crate::dkg::dkg_key_v_bounded(key),
    }
}

/// Whether a message's view is within machine bounds; every message
/// actually built or parsed is.
pub open spec fn msg_v_bounded(m: RoutingMsgV) -> bool {
    &&& src_v_bounded(m.src)
    &&& dst_v_bounded(m.dst)
    &&& variant_v_bounded(m.variant)
    &&& m.section_pk.len() <= u64::MAX
}

/// The leading byte of a source authority's canonical bytes.
pub open spec fn src_tag(s: SrcAuthorityV) -> u8 {
    match s {
        SrcAuthorityV::Node { .. } => 0u8,
        SrcAuthorityV::Section { .. } => 1u8,
    }
}

/// A source authority's canonical bytes start with its arm's tag.
proof fn lemma_src_first_byte(s: SrcAuthorityV, r: Seq<u8>)
    ensures
        (enc_src(s) + r)[0] == src_tag(s),
{
    match s {
        SrcAuthorityV::Node { name, public_key, signature } => {
            assert((seq![0u8] + enc_bits(name) + enc_bytes(public_key) + enc_bytes(signature)
                + r)[0] == 0u8);
        },
        SrcAuthorityV::Section { prefix, signed } => {
            assert((seq![1u8] + enc_bits(prefix) + enc_signed(signed) + r)[0] == 1u8);
        },
    }
}

/// A source authority's canonical bytes pin the authority and the
/// remainder.
pub proof fn lemma_enc_src_bind(a: SrcAuthorityV, b: SrcAuthorityV, r1: Seq<u8>, r2: Seq<u8>)
    requires
        src_v_bounded(a),
        src_v_bounded(b),
        enc_src(a) + r1 == enc_src(b) + r2,
    ensures
        a == b,
        r1 == r2,
{
    lemma_src_first_byte(a, r1);
    lemma_src_first_byte(b, r2);
    assert(src_tag(a) == src_tag(b));
    match (a, b) {
        (
            SrcAuthorityV::Node { name: n1, public_key: p1, signature: s1 },
            SrcAuthorityV::Node { name: n2, public_key: p2, signature: s2 },
        ) => {
            assert(seq![0u8] + (enc_bits(n1) + (enc_bytes(p1) + (enc_bytes(s1) + r1))) =~=
                enc_src(a) + r1);
            assert(seq![0u8] + (enc_bits(n2) + (enc_bytes(p2) + (enc_bytes(s2) + r2))) =~=
                enc_src(b) + r2);
            crate::codec::lemma_enc_tag_bind(
                0u8,
                0u8,
                enc_bits(n1) + (enc_bytes(p1) + (enc_bytes(s1) + r1)),
                enc_bits(n2) + (enc_bytes(p2) + (enc_bytes(s2) + r2)),
            );
            crate::codec::lemma_enc_bits_bind(
                n1,
                n2,
                enc_bytes(p1) + (enc_bytes(s1) + r1),
                enc_bytes(p2) + (enc_bytes(s2) + r2),
            );
            crate::codec::lemma_enc_bytes_bind(p1, p2, enc_bytes(s1) + r1, enc_bytes(s2) + r2);
            crate::codec::lemma_enc_bytes_bind(s1, s2, r1, r2);
            assert(a =~= b);
        },
        (
            SrcAuthorityV::Section { prefix: p1, signed: s1 },
            SrcAuthorityV::Section { prefix: p2, signed: s2 },
        ) => {
            assert(seq![1u8] + (enc_bits(p1) + (enc_signed(s1) + r1)) =~= enc_src(a) + r1);
            assert(seq![1u8] + (enc_bits(p2) + (enc_signed(s2) + r2)) =~= enc_src(b) + r2);
            crate::codec::lemma_enc_tag_bind(
                1u8,
                1u8,
                enc_bits(p1) + (enc_signed(s1) + r1),
                enc_bits(p2) + (enc_signed(s2) + r2),
            );
            crate::codec::lemma_enc_bits_bind(p1, p2, enc_signed(s1) + r1, enc_signed(s2) + r2);
            lemma_enc_signed_bind(s1, s2, r1, r2);
            assert(a =~= b);
        },
        _ => {
            assert(false);
        },
    }
}

/// A signature pair's canonical bytes pin the pair and the remainder.
pub proof fn lemma_enc_signed_bind(a: SignedV, b: SignedV, r1: Seq<u8>, r2: Seq<u8>)
    requires
        signed_v_bounded(a),
        signed_v_bounded(b),
        enc_signed(a) + r1 == enc_signed(b) + r2,
    ensures
        a == b,
        r1 == r2,
{
    assert(enc_bytes(a.public_key) + (enc_bytes(a.signature) + r1) =~= enc_signed(a) + r1);
    assert(enc_bytes(b.public_key) + (enc_bytes(b.signature) + r2) =~= enc_signed(b) + r2);
    crate::codec::lemma_enc_bytes_bind(
        a.public_key,
        b.public_key,
        enc_bytes(a.signature) + r1,
        enc_bytes(b.signature) + r2,
    );
    crate::codec::lemma_enc_bytes_bind(a.signature, b.signature, r1, r2);
    assert(a =~= b);
}

/// The leading byte of a destination's canonical bytes.
pub open spec fn dst_tag(d: DstLocationV) -> u8 {
    match d {
        DstLocationV::ToNode(_) => 0u8,
        DstLocationV::ToSection(_) => 1u8,
    }
}

/// A destination's canonical bytes start with its arm's tag.
proof fn lemma_dst_first_byte(d: DstLocationV, r: Seq<u8>)
    ensures
        (enc_dst(d) + r)[0] == dst_tag(d),
{
    match d {
        DstLocationV::ToNode(n) => {
            assert((seq![0u8] + enc_bits(n) + r)[0] == 0u8);
        },
        DstLocationV::ToSection(n) => {
            assert((seq![1u8] + enc_bits(n) + r)[0] == 1u8);
        },
    }
}

/// A destination's canonical bytes pin the destination and the remainder.
pub proof fn lemma_enc_dst_bind(a: DstLocationV, b: DstLocationV, r1: Seq<u8>, r2: Seq<u8>)
    requires
        dst_v_bounded(a),
        dst_v_bounded(b),
        enc_dst(a) + r1 == enc_dst(b) + r2,
    ensures
        a == b,
        r1 == r2,
{
    lemma_dst_first_byte(a, r1);
    lemma_dst_first_byte(b, r2);
    assert(dst_tag(a) == dst_tag(b));
    match (a, b) {
        (DstLocationV::ToNode(n1), DstLocationV::ToNode(n2)) => {
            assert(seq![0u8] + (enc_bits(n1) + r1) =~= enc_dst(a) + r1);
            assert(seq![0u8] + (enc_bits(n2) + r2) =~= enc_dst(b) + r2);
            crate::codec::lemma_enc_tag_bind(0u8, 0u8, enc_bits(n1) + r1, enc_bits(n2) + r2);
            crate::codec::lemma_enc_bits_bind(n1, n2, r1, r2);
            assert(a =~= b);
        },
        (DstLocationV::ToSection(n1), DstLocationV::ToSection(n2)) => {
            assert(seq![1u8] + (enc_bits(n1) + r1) =~= enc_dst(a) + r1);
            assert(seq![1u8] + (enc_bits(n2) + r2) =~= enc_dst(b) + r2);
            crate::codec::lemma_enc_tag_bind(1u8, 1u8, enc_bits(n1) + r1, enc_bits(n2) + r2);
            crate::codec::lemma_enc_bits_bind(n1, n2, r1, r2);
            assert(a =~= b);
        },
        _ => {
            assert(false);
        },
    }
}

/// An aggregation mode's canonical byte pins the mode and the remainder.
pub proof fn lemma_enc_aggregation_bind(a: Aggregation, b: Aggregation, r1: Seq<u8>, r2: Seq<u8>)
    requires
        enc_aggregation(a) + r1 == enc_aggregation(b) + r2,
    ensures
        a == b,
        r1 == r2,
{
    match (a, b) {
        (Aggregation::NoAggregation, Aggregation::NoAggregation) => {
            crate::codec::lemma_enc_tag_bind(0u8, 0u8, r1, r2);
        },
        (Aggregation::AtSource, Aggregation::AtSource) => {
            crate::codec::lemma_enc_tag_bind(1u8, 1u8, r1, r2);
        },
        (Aggregation::AtDestination, Aggregation::AtDestination) => {
            crate::codec::lemma_enc_tag_bind(2u8, 2u8, r1, r2);
        },
        (Aggregation::NoAggregation, Aggregation::AtSource) => {
            assert((seq![0u8] + r1)[0] == 0u8 && (seq![1u8] + r2)[0] == 1u8);
        },
        (Aggregation::NoAggregation, Aggregation::AtDestination) => {
            assert((seq![0u8] + r1)[0] == 0u8 && (seq![2u8] + r2)[0] == 2u8);
        },
        (Aggregation::AtSource, Aggregation::NoAggregation) => {
            assert((seq![1u8] + r1)[0] == 1u8 && (seq![0u8] + r2)[0] == 0u8);
        },
        (Aggregation::AtSource, Aggregation::AtDestination) => {
            assert((seq![1u8] + r1)[0] == 1u8 && (seq![2u8] + r2)[0] == 2u8);
        },
        (Aggregation::AtDestination, Aggregation::NoAggregation) => {
            assert((seq![2u8] + r1)[0] == 2u8 && (seq![0u8] + r2)[0] == 0u8);
        },
        (Aggregation::AtDestination, Aggregation::AtSource) => {
            assert((seq![2u8] + r1)[0] == 2u8 && (seq![1u8] + r2)[0] == 1u8);
        },
    }
}

/// The leading byte of a body's canonical bytes.
pub open spec fn variant_tag(v: VariantV) -> u8 {
    match v {
        VariantV::UserMsg(_) => 0u8,
        VariantV::Propose { .. } => 1u8,
        VariantV::Relocate { .. } => 2u8,
        VariantV::DkgStart { .. } => 3u8,
    }
}

/// A body's canonical bytes start with its arm's tag.
proof fn lemma_variant_first_byte(v: VariantV, r: Seq<u8>)
    ensures
        (enc_variant(v) + r)[0] == variant_tag(v),
{
    match v {
        VariantV::UserMsg(b) => {
            assert((seq![0u8] + enc_bytes(b) + r)[0] == 0u8);
        },
        VariantV::Propose { index, share, proposal } => {
            assert((seq![1u8] + enc_u64(index) + enc_bytes(share) + enc_proposal(proposal)
                + r)[0] == 1u8);
        },
        VariantV::Relocate { details, signed } => {
            assert((seq![2u8] + enc_relocate_details(details) + enc_signed(signed) + r)[0] == 2u8);
        },
        VariantV::DkgStart { key } => {
            assert((seq![3u8] + crate::dkg::enc_dkg_key(key) + r)[0] == 3u8);
        },
    }
}

/// A body's canonical bytes pin the body and the remainder.
#[verifier::rlimit(50)]
pub proof fn lemma_enc_variant_bind(a: VariantV, b: VariantV, r1: Seq<u8>, r2: Seq<u8>)
    requires
        variant_v_bounded(a),
        variant_v_bounded(b),
        enc_variant(a) + r1 == enc_variant(b) + r2,
    ensures
        a == b,
        r1 == r2,
{
    lemma_variant_first_byte(a, r1);
    lemma_variant_first_byte(b, r2);
    assert(variant_tag(a) == variant_tag(b));
    match (a, b) {
        (VariantV::UserMsg(b1), VariantV::UserMsg(b2)) => {
            assert(seq![0u8] + (enc_bytes(b1) + r1) =~= enc_variant(a) + r1);
            assert(seq![0u8] + (enc_bytes(b2) + r2) =~= enc_variant(b) + r2);
            crate::codec::lemma_enc_tag_bind(0u8, 0u8, enc_bytes(b1) + r1, enc_bytes(b2) + r2);
            crate::codec::lemma_enc_bytes_bind(b1, b2, r1, r2);
            assert(a =~= b);
        },
        (
            VariantV::Propose { index: i1, share: s1, proposal: p1 },
            VariantV::Propose { index: i2, share: s2, proposal: p2 },
        ) => {
            assert(seq![1u8] + (enc_u64(i1) + (enc_bytes(s1) + (enc_proposal(p1) + r1))) =~=
                enc_variant(a) + r1);
            assert(seq![1u8] + (enc_u64(i2) + (enc_bytes(s2) + (enc_proposal(p2) + r2))) =~=
                enc_variant(b) + r2);
            crate::codec::lemma_enc_tag_bind(
                1u8,
                1u8,
                enc_u64(i1) + (enc_bytes(s1) + (enc_proposal(p1) + r1)),
                enc_u64(i2) + (enc_bytes(s2) + (enc_proposal(p2) + r2)),
            );
            crate::codec::lemma_enc_u64_bind(
                i1,
                i2,
                enc_bytes(s1) + (enc_proposal(p1) + r1),
                enc_bytes(s2) + (enc_proposal(p2) + r2),
            );
            crate::codec::lemma_enc_bytes_bind(s1, s2, enc_proposal(p1) + r1, enc_proposal(p2) + r2);
            crate::agreement::lemma_enc_proposal_bind(p1, p2, r1, r2);
            assert(a =~= b);
        },
        (
            VariantV::Relocate { details: d1, signed: s1 },
            VariantV::Relocate { details: d2, signed: s2 },
        ) => {
            assert(seq![2u8] + (enc_relocate_details(d1) + (enc_signed(s1) + r1)) =~= enc_variant(
                a,
            ) + r1);
            assert(seq![2u8] + (enc_relocate_details(d2) + (enc_signed(s2) + r2)) =~= enc_variant(
                b,
            ) + r2);
            crate::codec::lemma_enc_tag_bind(
                2u8,
                2u8,
                enc_relocate_details(d1) + (enc_signed(s1) + r1),
                enc_relocate_details(d2) + (enc_signed(s2) + r2),
            );
            crate::relocation::lemma_enc_relocate_details_bind(
                d1,
                d2,
                enc_signed(s1) + r1,
                enc_signed(s2) + r2,
            );
            lemma_enc_signed_bind(s1, s2, r1, r2);
            assert(a =~= b);
        },
        (VariantV::DkgStart { key: k1 }, VariantV::DkgStart { key: k2 }) => {
            assert(seq![3u8] + (crate::dkg::enc_dkg_key(k1) + r1) =~= enc_variant(a) + r1);
            assert(seq![3u8] + (crate::dkg::enc_dkg_key(k2) + r2) =~= enc_variant(b) + r2);
            crate::codec::lemma_enc_tag_bind(
                3u8,
                3u8,
                crate::dkg::enc_dkg_key(k1) + r1,
                crate::dkg::enc_dkg_key(k2) + r2,
            );
            crate::dkg::lemma_enc_dkg_key_bind(k1, k2, r1, r2);
            assert(a =~= b);
        },
        (VariantV::UserMsg(_), VariantV::Propose { .. }) => {
            assert(variant_tag(a) == 0u8 && variant_tag(b) == 1u8);
        },
        (VariantV::UserMsg(_), VariantV::Relocate { .. }) => {
            assert(variant_tag(a) == 0u8 && variant_tag(b) == 2u8);
        },
        (VariantV::UserMsg(_), VariantV::DkgStart { .. }) => {
            assert(variant_tag(a) == 0u8 && variant_tag(b) == 3u8);
        },
        (VariantV::Propose { .. }, VariantV::UserMsg(_)) => {
            assert(variant_tag(a) == 1u8 && variant_tag(b) == 0u8);
        },
        (VariantV::Propose { .. }, VariantV::Relocate { .. }) => {
            assert(variant_tag(a) == 1u8 && variant_tag(b) == 2u8);
        },
        (VariantV::Propose { .. }, VariantV::DkgStart { .. }) => {
            assert(variant_tag(a) == 1u8 && variant_tag(b) == 3u8);
        },
        (VariantV::Relocate { .. }, VariantV::UserMsg(_)) => {
            assert(variant_tag(a) == 2u8 && variant_tag(b) == 0u8);
        },
        (VariantV::Relocate { .. }, VariantV::Propose { .. }) => {
            assert(variant_tag(a) == 2u8 && variant_tag(b) == 1u8);
        },
        (VariantV::Relocate { .. }, VariantV::DkgStart { .. }) => {
            assert(variant_tag(a) == 2u8 && variant_tag(b) == 3u8);
        },
        (VariantV::DkgStart { .. }, VariantV::UserMsg(_)) => {
            assert(variant_tag(a) == 3u8 && variant_tag(b) == 0u8);
        },
        (VariantV::DkgStart { .. }, VariantV::Propose { .. }) => {
            assert(variant_tag(a) == 3u8 && variant_tag(b) == 1u8);
        },
        (VariantV::DkgStart { .. }, VariantV::Relocate { .. }) => {
            assert(variant_tag(a) == 3u8 && variant_tag(b) == 2u8);
        },
    }
}

/// A message's canonical bytes pin the message and the remainder.
#[verifier::rlimit(100)]
#[verifier::spinoff_prover]
pub proof fn lemma_enc_msg_bind(a: RoutingMsgV, b: RoutingMsgV, r1: Seq<u8>, r2: Seq<u8>)
    requires
        msg_v_bounded(a),
        msg_v_bounded(b),
        enc_msg(a) + r1 == enc_msg(b) + r2,
    ensures
        a == b,
        r1 == r2,
{
    let ta = enc_src(a.src) + (enc_dst(a.dst) + (enc_aggregation(a.aggregation) + (enc_variant(
        a.variant,
    ) + (enc_bytes(a.section_pk) + r1))));
    let tb = enc_src(b.src) + (enc_dst(b.dst) + (enc_aggregation(b.aggregation) + (enc_variant(
        b.variant,
    ) + (enc_bytes(b.section_pk) + r2))));
    assert(enc_u64(a.id) + ta =~= enc_msg(a) + r1);
    assert(enc_u64(b.id) + tb =~= enc_msg(b) + r2);
    crate::codec::lemma_enc_u64_bind(a.id, b.id, ta, tb);
    lemma_enc_src_bind(
        a.src,
        b.src,
        enc_dst(a.dst) + (enc_aggregation(a.aggregation) + (enc_variant(a.variant) + (enc_bytes(
            a.section_pk,
        ) + r1))),
        enc_dst(b.dst) + (enc_aggregation(b.aggregation) + (enc_variant(b.variant) + (enc_bytes(
            b.section_pk,
        ) + r2))),
    );
    lemma_enc_dst_bind(
        a.dst,
        b.dst,
        enc_aggregation(a.aggregation) + (enc_variant(a.variant) + (enc_bytes(a.section_pk) + r1)),
        enc_aggregation(b.aggregation) + (enc_variant(b.variant) + (enc_bytes(b.section_pk) + r2)),
    );
    lemma_enc_aggregation_bind(
        a.aggregation,
        b.aggregation,
        enc_variant(a.variant) + (enc_bytes(a.section_pk) + r1),
        enc_variant(b.variant) + (enc_bytes(b.section_pk) + r2),
    );
    lemma_enc_variant_bind(
        a.variant,
        b.variant,
        enc_bytes(a.section_pk) + r1,
        enc_bytes(b.section_pk) + r2,
    );
    crate::codec::lemma_enc_bytes_bind(a.section_pk, b.section_pk, r1, r2);
    assert(a =~= b);
}

/// Wire bytes name one message: two hops and messages with the same wire
/// bytes are the same hop and the same message, so whatever a parse
/// accepts, those bytes encode exactly it and nothing else.
pub proof fn lemma_wire_binding(
    d1: Seq<bool>,
    p1: Seq<u8>,
    m1: RoutingMsgV,
    d2: Seq<bool>,
    p2: Seq<u8>,
    m2: RoutingMsgV,
)
    requires
        d1.len() <= u64::MAX,
        d2.len() <= u64::MAX,
        p1.len() <= u64::MAX,
        p2.len() <= u64::MAX,
        msg_v_bounded(m1),
        msg_v_bounded(m2),
        enc_wire(d1, p1, m1) == enc_wire(d2, p2, m2),
    ensures
        d1 == d2,
        p1 == p2,
        m1 == m2,
{
    assert(enc_bits(d1) + (enc_bytes(p1) + (enc_msg(m1) + Seq::<u8>::empty())) =~= enc_wire(
        d1,
        p1,
        m1,
    ) + Seq::<u8>::empty());
    assert(enc_bits(d2) + (enc_bytes(p2) + (enc_msg(m2) + Seq::<u8>::empty())) =~= enc_wire(
        d2,
        p2,
        m2,
    ) + Seq::<u8>::empty());
    assert(enc_wire(d1, p1, m1) + Seq::<u8>::empty() =~= enc_wire(d2, p2, m2) + Seq::<u8>::empty());
    crate::codec::lemma_enc_bits_bind(
        d1,
        d2,
        enc_bytes(p1) + (enc_msg(m1) + Seq::<u8>::empty()),
        enc_bytes(p2) + (enc_msg(m2) + Seq::<u8>::empty()),
    );
    crate::codec::lemma_enc_bytes_bind(
        p1,
        p2,
        enc_msg(m1) + Seq::<u8>::empty(),
        enc_msg(m2) + Seq::<u8>::empty(),
    );
    lemma_enc_msg_bind(m1, m2, Seq::empty(), Seq::empty());
}

/// A byte vector a node holds is within machine bounds.
fn note_bytes_len(v: &Vec<u8>) -> (r: bool)
    ensures
        r,
        v@.len() <= u64::MAX,
{
    let n = v.len();
    true
}

/// A name a node holds is a full name.
fn note_name_len(n: &Name) -> (r: bool)
    ensures
        r,
        n@.len() == 256,
{
    proof {
        use_type_invariant(n);
        n.wf_len();
    }
    true
}

/// A prefix a node holds is within the name space.
fn note_prefix_len(p: &Prefix) -> (r: bool)
    ensures
        r,
        p@.len() <= 256,
{
    proof {
        use_type_invariant(p);
        p.wf_len();
    }
    true
}

/// A signature pair a node holds is within machine bounds.
fn note_signed_bounds(s: &Signed) -> (r: bool)
    ensures
        r,
        signed_v_bounded(s@),
{
    note_bytes_len(&s.public_key) && note_bytes_len(&s.signature)
}

/// A source authority a node holds is within machine bounds.
fn note_src_bounds(s: &SrcAuthority) -> (r: bool)
    ensures
        r,
        src_v_bounded(s@),
{
    match s {
        SrcAuthority::Node { name, public_key, signature } => {
            note_name_len(name) && note_bytes_len(public_key) && note_bytes_len(signature)
        },
        SrcAuthority::Section { prefix, signed } => {
            note_prefix_len(prefix) && note_signed_bounds(signed)
        },
    }
}

/// A destination a node holds is within machine bounds.
fn note_dst_bounds(d: &DstLocation) -> (r: bool)
    ensures
        r,
        dst_v_bounded(d@),
{
    match d {
        DstLocation::ToNode(n) => note_name_len(n),
        DstLocation::ToSection(n) => note_name_len(n),
    }
}

/// A member record a node holds is within machine bounds.
fn note_node_state_bounds(n: &crate::section::NodeState) -> (r: bool)
    ensures
        r,
        crate::section::node_state_v_bounded(n@),
{
    let ok = note_name_len(&n.name) && note_bytes_len(&n.addr.ip);
    match &n.state {
        crate::section::MembershipState::Relocated(dest) => ok && note_name_len(dest),
        _ => ok,
    }
}

/// An authority record a node holds is within machine bounds.
fn note_sap_bounds(s: &crate::section::SectionAuthorityProvider) -> (r: bool)
    ensures
        r,
        crate::section::sap_v_bounded(s@),
{
    let ok = note_prefix_len(s.prefix()) && note_bytes_len(s.pk_set());
    let elders = s.elders();
    let n = elders.len();
    let mut i: usize = 0;
    while i < n
        invariant
            i <= n,
            n == elders@.len(),
            n == s@.elders.len(),
            forall|k: int| 0 <= k < n ==> (#[trigger] elders@[k])@ == s@.elders[k],
            forall|k: int| 0 <= k < i ==> crate::section::peer_v_bounded(#[trigger] s@.elders[k]),
        decreases n - i,
    {
        let peer_ok = note_name_len(&elders[i].name) && note_bytes_len(&elders[i].addr.ip);
        assert(crate::section::peer_v_bounded(s@.elders[i as int]));
        i = i + 1;
    }
    ok
}

/// A proposal a node holds is within machine bounds.
fn note_proposal_bounds(p: &Proposal) -> (r: bool)
    ensures
        r,
        crate::agreement::proposal_v_bounded(p@),
{
    match p {
        Proposal::OnlineNode(n) => note_node_state_bounds(n),
        Proposal::OfflineNode(n) => note_node_state_bounds(n),
        Proposal::SectionInfo(s) => note_sap_bounds(s),
        Proposal::JoinsAllowed(_) => true,
    }
}

/// A session identity a node holds is within machine bounds.
fn note_dkg_key_bounds(k: &crate::dkg::DkgKey) -> (r: bool)
    ensures
        r,
        crate::dkg::dkg_key_v_bounded(k@),
{
    let n = k.participants.len();
    let mut i: usize = 0;
    while i < n
        invariant
            i <= n,
            n == k.participants@.len(),
            forall|m: int|
                0 <= m < i ==> (#[trigger] k@.participants[m]).len() == 256,
        decreases n - i,
    {
        let name_ok = note_name_len(&k.participants[i]);
        assert(k@.participants[i as int].len() == 256);
        i = i + 1;
    }
    true
}

/// A body a node holds is within machine bounds.
fn note_variant_bounds(v: &Variant) -> (r: bool)
    ensures
        r,
        variant_v_bounded(v@),
{
    match v {
        Variant::UserMsg(b) => note_bytes_len(b),
        Variant::Propose { index, share, proposal } => {
            note_bytes_len(share) && note_proposal_bounds(proposal)
        },
        Variant::Relocate(ss) => {
            note_name_len(&ss.value.previous_name) && note_name_len(&ss.value.destination)
                && note_signed_bounds(&ss.sig)
        },
        Variant::DkgStart(k) => note_dkg_key_bounds(k),
    }
}

impl RoutingMsg {
    /// Whether two messages are the same word: same identifier, source,
    /// destination, body and sender key. The aggregation mode is
    /// deliberately left out of the comparison, as it only steers
    /// signature gathering. Each compared part is judged by its canonical
    /// bytes, which name exactly one value.
    pub fn equals(&self, other: &RoutingMsg) -> (r: bool)
        ensures
            r <==> (self@.id == other@.id && self@.src == other@.src && self@.dst == other@.dst
                && self@.variant == other@.variant && self@.section_pk == other@.section_pk),
    {
        if self.id != other.id {
            return false;
        }
        let src_ok = note_src_bounds(&self.src) && note_src_bounds(&other.src);
        let mut s1: Vec<u8> = Vec::new();
        self.src.write(&mut s1);
        let mut s2: Vec<u8> = Vec::new();
        other.src.write(&mut s2);
        proof {
            assert(s1@ =~= enc_src(self@.src));
            assert(s2@ =~= enc_src(other@.src));
        }
        if !crate::codec::bytes_eq(&s1, &s2) {
            return false;
        }
        proof {
            assert(enc_src(self@.src) + Seq::<u8>::empty() =~= enc_src(other@.src) + Seq::<
                u8,
            >::empty());
            lemma_enc_src_bind(self@.src, other@.src, Seq::empty(), Seq::empty());
        }
        let dst_ok = note_dst_bounds(&self.dst) && note_dst_bounds(&other.dst);
        let mut d1: Vec<u8> = Vec::new();
        self.dst.write(&mut d1);
        let mut d2: Vec<u8> = Vec::new();
        other.dst.write(&mut d2);
        proof {
            assert(d1@ =~= enc_dst(self@.dst));
            assert(d2@ =~= enc_dst(other@.dst));
        }
        if !crate::codec::bytes_eq(&d1, &d2) {
            return false;
        }
        proof {
            assert(enc_dst(self@.dst) + Seq::<u8>::empty() =~= enc_dst(other@.dst) + Seq::<
                u8,
            >::empty());
            lemma_enc_dst_bind(self@.dst, other@.dst, Seq::empty(), Seq::empty());
        }
        let variant_ok = note_variant_bounds(&self.variant) && note_variant_bounds(&other.variant);
        let mut v1: Vec<u8> = Vec::new();
        self.variant.write(&mut v1);
        let mut v2: Vec<u8> = Vec::new();
        other.variant.write(&mut v2);
        proof {
            assert(v1@ =~= enc_variant(self@.variant));
            assert(v2@ =~= enc_variant(other@.variant));
        }
        if !crate::codec::bytes_eq(&v1, &v2) {
            return false;
        }
        proof {
            assert(enc_variant(self@.variant) + Seq::<u8>::empty() =~= enc_variant(other@.variant)
                + Seq::<u8>::empty());
            lemma_enc_variant_bind(self@.variant, other@.variant, Seq::empty(), Seq::empty());
        }
        crate::codec::bytes_eq(&self.section_pk, &other.section_pk)
    }
}

} // verus!
