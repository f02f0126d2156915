//! Proposals: the unit of agreement. Elders sign shares over a proposal's
//! canonical bytes; the aggregated signature turns it into an agreed fact.

use vstd::prelude::*;
use crate::section::{
    enc_node_state, enc_sap, lemma_enc_node_state_bind, lemma_enc_sap_bind, node_state_v_bounded,
    sap_v_bounded, NodeState, NodeStateV, SapV, SectionAuthorityProvider,
};
use crate::signed::Payload;

verus! {

/// The spec-level image of a [`Proposal`].
#[verifier::ext_equal]
pub enum ProposalV {
    OnlineNode(NodeStateV),
    OfflineNode(NodeStateV),
    SectionInfo(SapV),
    JoinsAllowed(bool),
}

/// What elders agree on: a member coming online, a member going offline, a
/// new section authority record, or whether joins are allowed at all.
pub enum Proposal {
    /// A candidate was admitted and becomes a member.
    OnlineNode(NodeState),
    /// A member left or was found unresponsive.
    OfflineNode(NodeState),
    /// A freshly generated section authority record.
    SectionInfo(SectionAuthorityProvider),
    /// Whether new joins are currently admitted.
    JoinsAllowed(bool),
}

impl View for Proposal {
    type V = ProposalV;

    open spec fn view(&self) -> ProposalV {
        match self {
            Proposal::OnlineNode(n) => ProposalV::OnlineNode(n@),
            Proposal::OfflineNode(n) => ProposalV::OfflineNode(n@),
            Proposal::SectionInfo(s) => ProposalV::SectionInfo(s@),
            Proposal::JoinsAllowed(b) => ProposalV::JoinsAllowed(*b),
        }
    }
}

/// The canonical bytes of a proposal: a tag, then the payload.
pub open spec fn enc_proposal(p: ProposalV) -> Seq<u8> {
    match p {
        ProposalV::OnlineNode(n) => seq![0u8] + enc_node_state(n),
        ProposalV::OfflineNode(n) => seq![1u8] + enc_node_state(n),
        ProposalV::SectionInfo(s) => seq![2u8] + enc_sap(s),
        ProposalV::JoinsAllowed(b) => seq![3u8, if b { 1u8 } else { 0u8 }],
    }
}

impl Proposal {
    /// Appends the canonical bytes of the proposal to `out`.
    pub fn write(&self, out: &mut Vec<u8>)
        ensures
            final(out)@ == old(out)@ + enc_proposal(self@),
    {
        let ghost pre = out@;
        match self {
            Proposal::OnlineNode(n) => {
                out.push(0u8);
                n.write(out);
                assert(pre + seq![0u8] + enc_node_state(n@) =~= pre + enc_proposal(self@));
            },
            Proposal::OfflineNode(n) => {
                out.push(1u8);
                n.write(out);
                assert(pre + seq![1u8] + enc_node_state(n@) =~= pre + enc_proposal(self@));
            },
            Proposal::SectionInfo(s) => {
                out.push(2u8);
                s.write(out);
                assert(pre + seq![2u8] + enc_sap(s@) =~= pre + enc_proposal(self@));
            },
            Proposal::JoinsAllowed(b) => {
                out.push(3u8);
                out.push(if *b {
                    1u8
                } else {
                    0u8
                });
                assert(pre + seq![3u8] + seq![if *b { 1u8 } else { 0u8 }] =~= pre + enc_proposal(
                    self@,
                ));
            },
        }
    }
}

impl Payload for Proposal {
    open spec fn payload_bytes(&self) -> Seq<u8> {
        enc_proposal(self@)
    }

    fn encode_payload(&self) -> (r: Vec<u8>)
    {
        let mut out: Vec<u8> = Vec::new();
        self.write(&mut out);
        out
    }
}

/// Whether a proposal view is within machine bounds; every proposal
/// actually built is.
pub open spec fn proposal_v_bounded(p: ProposalV) -> bool {
    match p {
        ProposalV::OnlineNode(n) => node_state_v_bounded(n),
        ProposalV::OfflineNode(n) => node_state_v_bounded(n),
        ProposalV::SectionInfo(s) => sap_v_bounded(s),
        ProposalV::JoinsAllowed(_) => true,
    }
}

/// The leading byte of a proposal's canonical bytes: its arm's tag.
pub open spec fn proposal_tag(p: ProposalV) -> u8 {
    match p {
        ProposalV::OnlineNode(_) => 0u8,
        ProposalV::OfflineNode(_) => 1u8,
        ProposalV::SectionInfo(_) => 2u8,
        ProposalV::JoinsAllowed(_) => 3u8,
    }
}

/// A proposal's canonical bytes start with its arm's tag, whatever
/// follows.
pub proof fn lemma_proposal_first_byte(p: ProposalV, r: Seq<u8>)
    ensures
        (enc_proposal(p) + r)[0] == proposal_tag(p),
{
    match p {
        ProposalV::OnlineNode(n) => {
            assert((seq![0u8] + enc_node_state(n) + r)[0] == 0u8);
        },
        ProposalV::OfflineNode(n) => {
            assert((seq![1u8] + enc_node_state(n) + r)[0] == 1u8);
        },
        ProposalV::SectionInfo(s) => {
            assert((seq![2u8] + enc_sap(s) + r)[0] == 2u8);
        },
        ProposalV::JoinsAllowed(b) => {
            assert((seq![3u8, if b { 1u8 } else { 0u8 }] + r)[0] == 3u8);
        },
    }
}

/// A proposal's canonical bytes pin the proposal and the remainder.
pub proof fn lemma_enc_proposal_bind(a: ProposalV, b: ProposalV, r1: Seq<u8>, r2: Seq<u8>)
    requires
        proposal_v_bounded(a),
        proposal_v_bounded(b),
        enc_proposal(a) + r1 == enc_proposal(b) + r2,
    ensures
        a == b,
        r1 == r2,
{
    lemma_proposal_first_byte(a, r1);
    lemma_proposal_first_byte(b, r2);
    assert(proposal_tag(a) == proposal_tag(b));
    match (a, b) {
        (ProposalV::OnlineNode(n1), ProposalV::OnlineNode(n2)) => {
            assert(seq![0u8] + (enc_node_state(n1) + r1) =~= enc_proposal(a) + r1);
            assert(seq![0u8] + (enc_node_state(n2) + r2) =~= enc_proposal(b) + r2);
            crate::codec::lemma_enc_tag_bind(
                0u8,
                0u8,
                enc_node_state(n1) + r1,
                enc_node_state(n2) + r2,
            );
            lemma_enc_node_state_bind(n1, n2, r1, r2);
        },
        (ProposalV::OfflineNode(n1), ProposalV::OfflineNode(n2)) => {
            assert(seq![1u8] + (enc_node_state(n1) + r1) =~= enc_proposal(a) + r1);
            assert(seq![1u8] + (enc_node_state(n2) + r2) =~= enc_proposal(b) + r2);
            crate::codec::lemma_enc_tag_bind(
                1u8,
                1u8,
                enc_node_state(n1) + r1,
                enc_node_state(n2) + r2,
            );
            lemma_enc_node_state_bind(n1, n2, r1, r2);
        },
        (ProposalV::SectionInfo(s1), ProposalV::SectionInfo(s2)) => {
            assert(seq![2u8] + (enc_sap(s1) + r1) =~= enc_proposal(a) + r1);
            assert(seq![2u8] + (enc_sap(s2) + r2) =~= enc_proposal(b) + r2);
            crate::codec::lemma_enc_tag_bind(2u8, 2u8, enc_sap(s1) + r1, enc_sap(s2) + r2);
            lemma_enc_sap_bind(s1, s2, r1, r2);
        },
        (ProposalV::JoinsAllowed(b1), ProposalV::JoinsAllowed(b2)) => {
            let x1 = if b1 { 1u8 } else { 0u8 };
            let x2 = if b2 { 1u8 } else { 0u8 };
            assert((enc_proposal(a) + r1)[1] == x1);
            assert((enc_proposal(b) + r2)[1] == x2);
            assert(b1 == b2);
            assert forall|i: int| 0 <= i < r1.len() implies r1[i] == r2[i] by {
                assert((enc_proposal(a) + r1)[2 + i] == r1[i]);
                assert((enc_proposal(b) + r2)[2 + i] == r2[i]);
            }
            assert((enc_proposal(a) + r1).len() == (enc_proposal(b) + r2).len());
            assert(r1 =~= r2);
        },
        _ => {
            assert(false);
        },
    }
}

/// A proposal's canonical bytes name one proposal: an elder's signature
/// share over them endorses exactly one agreed fact.
pub proof fn lemma_proposal_binding(a: ProposalV, b: ProposalV)
    requires
        proposal_v_bounded(a),
        proposal_v_bounded(b),
        enc_proposal(a) == enc_proposal(b),
    ensures
        a == b,
{
    assert(enc_proposal(a) + Seq::<u8>::empty() =~= enc_proposal(b) + Seq::<u8>::empty());
    lemma_enc_proposal_bind(a, b, Seq::empty(), Seq::empty());
}

} // verus!
