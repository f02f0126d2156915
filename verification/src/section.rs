//! Section authority state: the elders and aggregated key of one section
//! (`SectionAuthorityProvider`), the membership roster (`SectionPeers`), and
//! the rules under which a section's authority is replaced.

use vstd::prelude::*;
use crate::codec::{bytes_eq, enc_bits, enc_bytes, enc_u64, write_bits, write_bytes, write_u64};
use crate::crypto::{bls_master_key, bls_pks_threshold, bls_pks_wf, bls_public_key, bls_threshold, bls_verified, identity_pk_bytes};
use crate::error::Error;
use crate::name::{copy_vec, Name};
use crate::prefix::{prefix_matches, Prefix};
use crate::agreement::{enc_proposal, Proposal, ProposalV};
use crate::signed::{section_signed_valid, Payload, SectionSigned, SignedV};

verus! {

/// The most elders a section carries.
pub const ELDER_SIZE: usize = 7;

/// The spec-level image of a [`NetAddr`].
#[verifier::ext_equal]
pub struct AddrV {
    pub ip: Seq<u8>,
    pub port: u16,
}

/// A transport endpoint, opaque to the protocol: address bytes and a port.
pub struct NetAddr {
    pub ip: Vec<u8>,
    pub port: u16,
}

impl View for NetAddr {
    type V = AddrV;

    open spec fn view(&self) -> AddrV {
        AddrV { ip: self.ip@, port: self.port }
    }
}

/// The canonical bytes of an endpoint.
pub open spec fn enc_addr(a: AddrV) -> Seq<u8> {
    enc_bytes(a.ip) + enc_u64(a.port as u64)
}

impl NetAddr {
    /// Appends the canonical bytes of the endpoint to `out`.
    pub fn write(&self, out: &mut Vec<u8>)
        ensures
            final(out)@ == old(out)@ + enc_addr(self@),
    {
        let ghost pre = out@;
        write_bytes(out, &self.ip);
        write_u64(out, self.port as u64);
        assert(pre + enc_bytes(self.ip@) + enc_u64(self.port as u64) =~= pre + enc_addr(self@));
    }
}

impl Clone for NetAddr {
    /// Cloning keeps the address.
    fn clone(&self) -> (r: Self)
        ensures
            r@ == self@,
    {
        NetAddr { ip: copy_vec(&self.ip), port: self.port }
    }
}

/// The spec-level image of a [`Peer`].
#[verifier::ext_equal]
pub struct PeerV {
    pub name: Seq<bool>,
    pub addr: AddrV,
}

/// A reachable node: its name and its endpoint.
pub struct Peer {
    pub name: Name,
    pub addr: NetAddr,
}

impl View for Peer {
    type V = PeerV;

    open spec fn view(&self) -> PeerV {
        PeerV { name: self.name@, addr: self.addr@ }
    }
}

/// The canonical bytes of a peer.
pub open spec fn enc_peer(p: PeerV) -> Seq<u8> {
    enc_bits(p.name) + enc_addr(p.addr)
}

impl Peer {
    /// Appends the canonical bytes of the peer to `out`.
    pub fn write(&self, out: &mut Vec<u8>)
        ensures
            final(out)@ == old(out)@ + enc_peer(self@),
    {
        let ghost pre = out@;
        proof {
            use_type_invariant(&self.name);
        }
        let name_bits = self.name.to_bits();
        write_bits(out, &name_bits);
        self.addr.write(out);
        assert(pre + enc_bits(self.name@) + enc_addr(self.addr@) =~= pre + enc_peer(self@));
    }
}

impl Clone for Peer {
    /// Cloning keeps name and address.
    fn clone(&self) -> (r: Self)
        ensures
            r@ == self@,
    {
        Peer { name: self.name.clone(), addr: self.addr.clone() }
    }
}

/// The spec-level image of a [`MembershipState`].
#[verifier::ext_equal]
pub enum MembershipV {
    Joined,
    Left,
    Relocated(Seq<bool>),
}

/// Where a member stands in its lifecycle: joined, left, or relocated to a
/// destination name.
pub enum MembershipState {
    Joined,
    Left,
    Relocated(Name),
}

impl View for MembershipState {
    type V = MembershipV;

    open spec fn view(&self) -> MembershipV {
        match self {
            MembershipState::Joined => MembershipV::Joined,
            MembershipState::Left => MembershipV::Left,
            MembershipState::Relocated(n) => MembershipV::Relocated(n@),
        }
    }
}

/// The canonical bytes of a membership state: a tag, and for a relocation
/// the destination bits.
pub open spec fn enc_membership(m: MembershipV) -> Seq<u8> {
    match m {
        MembershipV::Joined => seq![0u8],
        MembershipV::Left => seq![1u8],
        MembershipV::Relocated(dest) => seq![2u8] + enc_bits(dest),
    }
}

impl MembershipState {
    /// Appends the canonical bytes of the state to `out`.
    pub fn write(&self, out: &mut Vec<u8>)
        ensures
            final(out)@ == old(out)@ + enc_membership(self@),
    {
        let ghost pre = out@;
        match self {
            MembershipState::Joined => {
                out.push(0u8);
                assert(pre + seq![0u8] =~= pre + enc_membership(self@));
            },
            MembershipState::Left => {
                out.push(1u8);
                assert(pre + seq![1u8] =~= pre + enc_membership(self@));
            },
            MembershipState::Relocated(dest) => {
                out.push(2u8);
                proof {
                    use_type_invariant(dest);
                }
                let bits = dest.to_bits();
                write_bits(out, &bits);
                assert(pre + seq![2u8] + enc_bits(dest@) =~= pre + enc_membership(self@));
            },
        }
    }
}

impl Clone for MembershipState {
    /// Cloning keeps the state.
    fn clone(&self) -> (r: Self)
        ensures
            r@ == self@,
    {
        match self {
            MembershipState::Joined => MembershipState::Joined,
            MembershipState::Left => MembershipState::Left,
            MembershipState::Relocated(n) => MembershipState::Relocated(n.clone()),
        }
    }
}

/// The spec-level image of a [`NodeState`].
#[verifier::ext_equal]
pub struct NodeStateV {
    pub name: Seq<bool>,
    pub addr: AddrV,
    pub age: u8,
    pub state: MembershipV,
}

/// One member of a section: name, endpoint, age and lifecycle state. Age is
/// a stability counter: it grows on relocation and older members relocate
/// less often.
pub struct NodeState {
    pub name: Name,
    pub addr: NetAddr,
    pub age: u8,
    pub state: MembershipState,
}

impl View for NodeState {
    type V = NodeStateV;

    open spec fn view(&self) -> NodeStateV {
        NodeStateV { name: self.name@, addr: self.addr@, age: self.age, state: self.state@ }
    }
}

/// The canonical bytes of a member record.
pub open spec fn enc_node_state(n: NodeStateV) -> Seq<u8> {
    enc_bits(n.name) + enc_addr(n.addr) + seq![n.age] + enc_membership(n.state)
}

impl NodeState {
    /// Appends the canonical bytes of the record to `out`.
    pub fn write(&self, out: &mut Vec<u8>)
        ensures
            final(out)@ == old(out)@ + enc_node_state(self@),
    {
        let ghost pre = out@;
        proof {
            use_type_invariant(&self.name);
        }
        let bits = self.name.to_bits();
        write_bits(out, &bits);
        self.addr.write(out);
        out.push(self.age);
        self.state.write(out);
        assert(pre + enc_bits(self.name@) + enc_addr(self.addr@) + seq![self.age]
            + enc_membership(self.state@) =~= pre + enc_node_state(self@));
    }
}

impl Clone for NodeState {
    /// Cloning keeps the record.
    fn clone(&self) -> (r: Self)
        ensures
            r@ == self@,
    {
        NodeState {
            name: self.name.clone(),
            addr: self.addr.clone(),
            age: self.age,
            state: self.state.clone(),
        }
    }
}

impl Payload for NodeState {
    open spec fn payload_bytes(&self) -> Seq<u8> {
        enc_node_state(self@)
    }

    fn encode_payload(&self) -> (r: Vec<u8>)
    {
        let mut out: Vec<u8> = Vec::new();
        self.write(&mut out);
        out
    }
}

/// The spec-level image of a [`SectionAuthorityProvider`].
#[verifier::ext_equal]
pub struct SapV {
    pub prefix: Seq<bool>,
    pub elders: Seq<PeerV>,
    pub pk_set: Seq<u8>,
    pub generation: u64,
}

/// Whether a section authority record is well formed: a non-empty elder set
/// within the cap, pairwise distinct elder names that all fall under the
/// record's prefix, and key set bytes that encode a real public key set
/// whose master key is not the identity element (a rogue key set would
/// verify nothing).
pub open spec fn sap_wf(s: SapV) -> bool {
    &&& 1 <= s.elders.len() <= ELDER_SIZE
    &&& forall|i: int, j: int|
        0 <= i < j < s.elders.len() ==> (#[trigger] s.elders[i]).name != (#[trigger] s.elders[j]).name
    &&& forall|i: int| 0 <= i < s.elders.len() ==> prefix_matches(s.prefix, (#[trigger] s.elders[i]).name)
    &&& bls_pks_wf(s.pk_set)
    &&& bls_master_key(s.pk_set) != identity_pk_bytes()
}

/// The canonical bytes of a section authority record.
pub open spec fn enc_peers(s: Seq<PeerV>) -> Seq<u8>
    decreases s.len(),
{
    if s.len() == 0 {
        Seq::empty()
    } else {
        enc_peers(s.drop_last()) + enc_peer(s.last())
    }
}

/// The canonical bytes of a section authority record: prefix, elder list,
/// key set and generation.
pub open spec fn enc_sap(s: SapV) -> Seq<u8> {
    enc_bits(s.prefix) + enc_u64(s.elders.len() as u64) + enc_peers(s.elders) + enc_bytes(s.pk_set)
        + enc_u64(s.generation)
}

/// The authoritative description of one section: its prefix, its elders,
/// the section's aggregated public key set, and the key generation counter.
/// Immutable once constructed; a section evolves by replacing its record
/// wholesale.
pub struct SectionAuthorityProvider {
    prefix: Prefix,
    elders: Vec<Peer>,
    pk_set: Vec<u8>,
    generation: u64,
}

impl View for SectionAuthorityProvider {
    type V = SapV;

    closed spec fn view(&self) -> SapV {
        SapV {
            prefix: self.prefix@,
            elders: self.elders@.map_values(|p: Peer| p@),
            pk_set: self.pk_set@,
            generation: self.generation,
        }
    }
}

impl SectionAuthorityProvider {
    #[verifier::type_invariant]
    pub closed spec fn inv(self) -> bool {
        sap_wf(self@)
    }

    /// Every constructed record is well formed. Obtain `inv` for a record at
    /// hand with `use_type_invariant`.
    pub proof fn lemma_wf(self)
        requires
            self.inv(),
        ensures
            sap_wf(self@),
    {
    }

    /// Builds a section authority record, rejecting one whose elder set is
    /// empty or over the cap, holds a repeated or out-of-prefix name, or
    /// whose key set bytes encode no key set.
    pub fn new(prefix: Prefix, elders: Vec<Peer>, pk_set: Vec<u8>, generation: u64) -> (r: Result<
        SectionAuthorityProvider,
        Error,
    >)
        ensures
            r matches Ok(s) ==> s@ == (SapV {
                prefix: prefix@,
                elders: elders@.map_values(|p: Peer| p@),
                pk_set: pk_set@,
                generation,
            }) && sap_wf(s@),
            r is Err ==> !sap_wf(
                SapV {
                    prefix: prefix@,
                    elders: elders@.map_values(|p: Peer| p@),
                    pk_set: pk_set@,
                    generation,
                },
            ),
    {
        let ghost v = SapV {
            prefix: prefix@,
            elders: elders@.map_values(|p: Peer| p@),
            pk_set: pk_set@,
            generation,
        };
        if elders.len() < 1 || elders.len() > ELDER_SIZE {
            return Err(Error::InvalidLength);
        }
        let n = elders.len();
        let mut i: usize = 0;
        while i < n
            invariant
                i <= n,
                n == elders@.len(),
                v.elders == elders@.map_values(|p: Peer| p@),
                v.elders.len() == n,
                v.prefix == prefix@,
                forall|a: int, b: int|
                    0 <= a < b < n && b < i ==> (#[trigger] v.elders[a]).name != (
                    #[trigger] v.elders[b]).name,
                forall|a: int| 0 <= a < i ==> prefix_matches(v.prefix, (#[trigger] v.elders[a]).name),
            decreases n - i,
        {
            if !prefix.matches(&elders[i].name) {
                assert(!prefix_matches(v.prefix, v.elders[i as int].name));
                return Err(Error::PrefixMismatch);
            }
            let mut j: usize = 0;
            while j < i
                invariant
                    j <= i,
                    i < n,
                    n == elders@.len(),
                    v.elders == elders@.map_values(|p: Peer| p@),
                    v.elders.len() == n,
                    forall|a: int|
                        0 <= a < j ==> (#[trigger] v.elders[a]).name != v.elders[i as int].name,
                decreases i - j,
            {
                if elders[j].name.equals(&elders[i].name) {
                    assert(v.elders[j as int].name == v.elders[i as int].name);
                    return Err(Error::InvalidLength);
                }
                j = j + 1;
            }
            i = i + 1;
        }
        if bls_public_key(&pk_set).is_none() {
            assert(!(bls_pks_wf(v.pk_set) && bls_master_key(v.pk_set) != identity_pk_bytes()));
            return Err(Error::InvalidKeySet);
        }
        assert(sap_wf(v));
        let s = SectionAuthorityProvider { prefix, elders, pk_set, generation };
        assert(s@ == v);
        Ok(s)
    }

    /// The section's prefix.
    pub fn prefix(&self) -> (r: &Prefix)
        ensures
            r@ == self@.prefix,
    {
        &self.prefix
    }

    /// The section's elders.
    pub fn elders(&self) -> (r: &Vec<Peer>)
        ensures
            r@.len() == self@.elders.len(),
            forall|i: int| 0 <= i < r@.len() ==> (#[trigger] r@[i])@ == self@.elders[i],
    {
        &self.elders
    }

    /// The canonical bytes of the section's public key set.
    pub fn pk_set(&self) -> (r: &Vec<u8>)
        ensures
            r@ == self@.pk_set,
    {
        &self.pk_set
    }

    /// The key generation counter.
    pub fn generation(&self) -> (r: u64)
        ensures
            r == self@.generation,
    {
        self.generation
    }

    /// The signing threshold of the section: any `threshold + 1` valid
    /// shares of its elders combine into a section signature.
    pub fn threshold(&self) -> (r: usize)
        ensures
            r == bls_pks_threshold(self@.pk_set),
    {
        proof {
            use_type_invariant(self);
        }
        bls_threshold(&self.pk_set).unwrap()
    }

    /// The canonical bytes of the section's master public key, the key
    /// section signatures verify under.
    pub fn section_key(&self) -> (r: Vec<u8>)
        ensures
            r@ == bls_master_key(self@.pk_set),
    {
        proof {
            use_type_invariant(self);
        }
        bls_public_key(&self.pk_set).unwrap()
    }

    /// Whether `name` falls under this section's prefix.
    pub fn contains(&self, name: &Name) -> (r: bool)
        ensures
            r == prefix_matches(self@.prefix, name@),
    {
        self.prefix.matches(name)
    }

    /// Appends the canonical bytes of the record to `out`.
    pub fn write(&self, out: &mut Vec<u8>)
        ensures
            final(out)@ == old(out)@ + enc_sap(self@),
    {
        let ghost pre = out@;
        let prefix_bits = self.prefix.to_bits();
        write_bits(out, &prefix_bits);
        write_u64(out, self.elders.len() as u64);
        let ghost eldersv = self@.elders;
        let n = self.elders.len();
        let mut i: usize = 0;
        while i < n
            invariant
                i <= n,
                n == self.elders@.len(),
                eldersv == self@.elders,
                eldersv.len() == n,
                forall|k: int| 0 <= k < n ==> (#[trigger] self.elders@[k])@ == eldersv[k],
                out@ == pre + enc_bits(self@.prefix) + enc_u64(n as u64) + enc_peers(
                    eldersv.subrange(0, i as int),
                ),
            decreases n - i,
        {
            self.elders[i].write(out);
            proof {
                let sub = eldersv.subrange(0, i + 1);
                assert(sub.drop_last() =~= eldersv.subrange(0, i as int));
                assert(sub.last() == eldersv[i as int]);
                assert(pre + enc_bits(self@.prefix) + enc_u64(n as u64) + enc_peers(
                    eldersv.subrange(0, i as int),
                ) + enc_peer(eldersv[i as int]) =~= pre + enc_bits(self@.prefix) + enc_u64(n as u64)
                    + enc_peers(sub));
            }
            i = i + 1;
        }
        assert(eldersv.subrange(0, n as int) =~= eldersv);
        write_bytes(out, &self.pk_set);
        write_u64(out, self.generation);
        assert(pre + enc_bits(self@.prefix) + enc_u64(n as u64) + enc_peers(eldersv) + enc_bytes(
            self@.pk_set,
        ) + enc_u64(self@.generation) =~= pre + enc_sap(self@));
    }
}

impl Clone for SectionAuthorityProvider {
    /// Cloning keeps the record.
    fn clone(&self) -> (r: Self)
        ensures
            r@ == self@,
    {
        proof {
            use_type_invariant(self);
        }
        let mut elders: Vec<Peer> = Vec::new();
        let n = self.elders.len();
        let mut i: usize = 0;
        while i < n
            invariant
                i <= n,
                n == self.elders@.len(),
                elders@.len() == i,
                forall|k: int| 0 <= k < i ==> (#[trigger] elders@[k])@ == self.elders@[k]@,
            decreases n - i,
        {
            elders.push(self.elders[i].clone());
            i = i + 1;
        }
        let prefix2 = self.prefix.clone();
        let pk2 = copy_vec(&self.pk_set);
        proof {
            assert(elders@.map_values(|p: Peer| p@) =~= self.elders@.map_values(|p: Peer| p@));
        }
        let r = SectionAuthorityProvider {
            prefix: prefix2,
            elders,
            pk_set: pk2,
            generation: self.generation,
        };
        assert(r@ == self@);
        r
    }
}

impl Payload for SectionAuthorityProvider {
    open spec fn payload_bytes(&self) -> Seq<u8> {
        enc_sap(self@)
    }

    fn encode_payload(&self) -> (r: Vec<u8>)
    {
        let mut out: Vec<u8> = Vec::new();
        self.write(&mut out);
        out
    }
}


/// Whether a roster holds a record under `name`.
pub open spec fn peers_contain(s: Seq<NodeStateV>, name: Seq<bool>) -> bool {
    exists|i: int| 0 <= i < s.len() && (#[trigger] s[i]).name == name
}

/// Whether the records of a roster carry pairwise distinct names.
pub open spec fn peers_distinct(s: Seq<NodeStateV>) -> bool {
    forall|i: int, j: int|
        0 <= i < j < s.len() ==> (#[trigger] s[i]).name != (#[trigger] s[j]).name
}

/// The membership roster of one section: member records keyed by name, with
/// each name held at most once. It changes only through agreed proposals,
/// never by a unilateral local write.
pub struct SectionPeers {
    members: Vec<NodeState>,
}

impl View for SectionPeers {
    type V = Seq<NodeStateV>;

    closed spec fn view(&self) -> Seq<NodeStateV> {
        self.members@.map_values(|n: NodeState| n@)
    }
}

impl SectionPeers {
    /// An empty roster.
    pub fn new() -> (r: SectionPeers)
        ensures
            r@ == Seq::<NodeStateV>::empty(),
    {
        let r = SectionPeers { members: Vec::new() };
        assert(r@ =~= Seq::<NodeStateV>::empty());
        r
    }

    /// How many members the roster holds.
    pub fn len(&self) -> (r: usize)
        ensures
            r == self@.len(),
    {
        self.members.len()
    }

    /// The record at position `i`.
    pub fn get_at(&self, i: usize) -> (r: &NodeState)
        requires
            i < self@.len(),
        ensures
            r@ == self@[i as int],
    {
        &self.members[i]
    }

    /// Where the record under `name` sits, if anywhere.
    fn position(&self, name: &Name) -> (r: Option<usize>)
        ensures
            r matches Some(i) ==> i < self@.len() && self@[i as int].name == name@,
            r is None ==> !peers_contain(self@, name@),
    {
        let n = self.members.len();
        let mut i: usize = 0;
        while i < n
            invariant
                i <= n,
                n == self@.len(),
                n == self.members@.len(),
                forall|k: int| 0 <= k < i ==> (#[trigger] self@[k]).name != name@,
            decreases n - i,
        {
            if self.members[i].name.equals(name) {
                assert(self@[i as int].name == name@);
                return Some(i);
            }
            assert(self@[i as int].name != name@);
            i = i + 1;
        }
        None
    }

    /// The record under `name`, if the roster holds one.
    pub fn get(&self, name: &Name) -> (r: Option<NodeState>)
        ensures
            r is Some <==> peers_contain(self@, name@),
            r matches Some(ns) ==> ns@.name == name@ && exists|i: int|
                0 <= i < self@.len() && self@[i] == ns@,
    {
        match self.position(name) {
            Some(i) => {
                let ns = self.members[i].clone();
                assert(self@[i as int] == ns@);
                Some(ns)
            },
            None => None,
        }
    }

    /// Records `node` under its name: a fresh name is appended, a name
    /// already held has its record replaced, and either way the name is held
    /// exactly once afterwards.
    pub fn insert(&mut self, node: NodeState) -> (is_new: bool)
        requires
            peers_distinct(old(self)@),
        ensures
            peers_distinct(final(self)@),
            is_new <==> !peers_contain(old(self)@, node@.name),
            peers_contain(final(self)@, node@.name),
            is_new ==> final(self)@ == old(self)@.push(node@),
            !is_new ==> exists|i: int|
                0 <= i < old(self)@.len() && (#[trigger] old(self)@[i]).name == node@.name
                    && final(self)@ == old(self)@.update(i, node@),
    {
        let ghost oldv = self@;
        match self.position(&node.name) {
            Some(i) => {
                let ghost nodev = node@;
                self.members.set(i, node);
                proof {
                    assert(self@ =~= oldv.update(i as int, nodev));
                    assert(self@[i as int].name == nodev.name);
                }
                false
            },
            None => {
                let ghost nodev = node@;
                self.members.push(node);
                proof {
                    assert(self@ =~= oldv.push(nodev));
                    assert(self@[oldv.len() as int].name == nodev.name);
                }
                true
            },
        }
    }
}

/// The spec-level image of a [`Section`].
pub struct SectionV {
    pub auth: SapV,
    pub peers: Seq<NodeStateV>,
}

/// When a section that currently trusts `cur` accepts the replacement
/// authority record `new` under the signature `sig`: the signature must be
/// made under the very key the section trusts now (continuity of trust),
/// verify over the new record's canonical bytes, carry a strictly newer
/// generation, stay within the current region, and the new record must be
/// well formed.
pub open spec fn section_accepts_authority(cur: SapV, new: SapV, sig: SignedV) -> bool {
    &&& sig.public_key == bls_master_key(cur.pk_set)
    &&& bls_verified(sig.public_key, sig.signature, enc_sap(new))
    &&& new.generation > cur.generation
    &&& prefix_matches(cur.prefix, new.prefix)
    &&& sap_wf(new)
}

/// Whether a section state is well formed: its authority record is well
/// formed and its roster holds each name at most once.
pub open spec fn section_wf(s: SectionV) -> bool {
    sap_wf(s.auth) && peers_distinct(s.peers)
}

/// One section as a node sees it: its current authority record and its
/// membership roster.
pub struct Section {
    auth: SectionAuthorityProvider,
    peers: SectionPeers,
}

impl View for Section {
    type V = SectionV;

    closed spec fn view(&self) -> SectionV {
        SectionV { auth: self.auth@, peers: self.peers@ }
    }
}

impl Section {
    /// A section that trusts `auth`, with an empty roster.
    pub fn new(auth: SectionAuthorityProvider) -> (r: Section)
        ensures
            r@.auth == auth@,
            r@.peers == Seq::<NodeStateV>::empty(),
            section_wf(r@),
    {
        proof {
            use_type_invariant(&auth);
        }
        Section { auth, peers: SectionPeers::new() }
    }

    /// The authority record this section currently trusts.
    pub fn authority(&self) -> (r: &SectionAuthorityProvider)
        ensures
            r@ == self@.auth,
    {
        &self.auth
    }

    /// The membership roster.
    pub fn peers(&self) -> (r: &SectionPeers)
        ensures
            r@ == self@.peers,
    {
        &self.peers
    }

    /// Replaces the section's authority record. Accepted exactly when the
    /// new record carries a valid continuity signature: one made under the
    /// key this section trusts now, over the new record's canonical bytes,
    /// with a strictly newer generation, inside the current region. A
    /// record carrying anything else leaves the section unchanged, with the
    /// reason.
    pub fn update_authority(&mut self, new: &SectionSigned<SectionAuthorityProvider>) -> (r: Result<
        (),
        Error,
    >)
        requires
            section_wf(old(self)@),
        ensures
            section_wf(final(self)@),
            r is Ok <==> section_accepts_authority(old(self)@.auth, new.value@, new.sig@),
            r is Ok ==> final(self)@.auth == new.value@ && final(self)@.peers == old(self)@.peers,
            r is Err ==> final(self)@ == old(self)@,
    {
        proof {
            use_type_invariant(&new.value);
        }
        let cur_key = self.auth.section_key();
        if !bytes_eq(&cur_key, &new.sig.public_key) {
            return Err(Error::InvalidSignature);
        }
        if !new.verify() {
            return Err(Error::InvalidSignature);
        }
        if new.value.generation() <= self.auth.generation() {
            return Err(Error::StaleGeneration);
        }
        if !self.auth.prefix().is_ancestor_of(new.value.prefix()) {
            return Err(Error::PrefixMismatch);
        }
        self.auth = new.value.clone();
        Ok(())
    }

    /// Applies an agreed member record: accepted exactly when it is signed
    /// by the key this section trusts, over the record's canonical bytes.
    /// On acceptance the record is held under the member's name exactly
    /// once; `Ok(true)` means the name is new to the roster.
    pub fn handle_node_agreement(&mut self, node: &SectionSigned<NodeState>) -> (r: Result<
        bool,
        Error,
    >)
        requires
            section_wf(old(self)@),
        ensures
            section_wf(final(self)@),
            r is Ok <==> node.sig@.public_key == bls_master_key(old(self)@.auth.pk_set)
                && section_signed_valid(node.value, node.sig@),
            r is Err ==> final(self)@ == old(self)@,
            r matches Ok(is_new) ==> {
                &&& final(self)@.auth == old(self)@.auth
                &&& peers_contain(final(self)@.peers, node.value@.name)
                &&& (is_new <==> !peers_contain(old(self)@.peers, node.value@.name))
                &&& (is_new ==> final(self)@.peers == old(self)@.peers.push(node.value@))
                &&& (!is_new ==> exists|i: int|
                    0 <= i < old(self)@.peers.len() && (#[trigger] old(
                        self,
                    )@.peers[i]).name == node.value@.name && final(self)@.peers == old(
                        self,
                    )@.peers.update(i, node.value@))
            },
    {
        let cur_key = self.auth.section_key();
        if !bytes_eq(&cur_key, &node.sig.public_key) {
            return Err(Error::InvalidSignature);
        }
        if !node.verify() {
            return Err(Error::InvalidSignature);
        }
        let is_new = self.peers.insert(node.value.clone());
        Ok(is_new)
    }
}

/// When a section that currently trusts `cur` accepts an agreed proposal
/// under the signature `sig`: the signature must be made under the very key
/// the section trusts now, over the proposal's canonical bytes, and a new
/// authority record must additionally carry a strictly newer generation
/// inside the current region and be well formed.
pub open spec fn proposal_agreement_accepts(cur: SapV, p: ProposalV, sig: SignedV) -> bool {
    &&& sig.public_key == bls_master_key(cur.pk_set)
    &&& bls_verified(sig.public_key, sig.signature, enc_proposal(p))
    &&& match p {
        ProposalV::SectionInfo(s) => s.generation > cur.generation && prefix_matches(
            cur.prefix,
            s.prefix,
        ) && sap_wf(s),
        _ => true,
    }
}

impl Section {
    /// Applies an agreed proposal: accepted exactly when the aggregated
    /// signature was made under the key this section trusts, over the
    /// proposal's canonical bytes. A member coming online or going offline
    /// is recorded in the roster under its name exactly once — `Ok(true)`
    /// means the name is new. An agreed authority record replaces the
    /// section's authority under the continuity rules; a joins-allowed
    /// fact changes no state here. Anything else leaves the section
    /// unchanged, with the reason.
    pub fn handle_proposal_agreement(&mut self, agreed: &SectionSigned<Proposal>) -> (r: Result<
        bool,
        Error,
    >)
        requires
            section_wf(old(self)@),
        ensures
            section_wf(final(self)@),
            (r is Ok) <==> proposal_agreement_accepts(old(self)@.auth, agreed.value@, agreed.sig@),
            r is Err ==> final(self)@ == old(self)@,
            r matches Ok(is_new) ==> match agreed.value@ {
                ProposalV::OnlineNode(n) => {
                    &&& final(self)@.auth == old(self)@.auth
                    &&& peers_contain(final(self)@.peers, n.name)
                    &&& (is_new <==> !peers_contain(old(self)@.peers, n.name))
                    &&& (is_new ==> final(self)@.peers == old(self)@.peers.push(n))
                    &&& (!is_new ==> exists|i: int|
                        0 <= i < old(self)@.peers.len() && (#[trigger] old(self)@.peers[i]).name
                            == n.name && final(self)@.peers == old(self)@.peers.update(i, n))
                },
                ProposalV::OfflineNode(n) => {
                    &&& final(self)@.auth == old(self)@.auth
                    &&& peers_contain(final(self)@.peers, n.name)
                    &&& (is_new <==> !peers_contain(old(self)@.peers, n.name))
                    &&& (is_new ==> final(self)@.peers == old(self)@.peers.push(n))
                    &&& (!is_new ==> exists|i: int|
                        0 <= i < old(self)@.peers.len() && (#[trigger] old(self)@.peers[i]).name
                            == n.name && final(self)@.peers == old(self)@.peers.update(i, n))
                },
                ProposalV::SectionInfo(s) => final(self)@.auth == s && final(self)@.peers == old(
                    self,
                )@.peers && !is_new,
                ProposalV::JoinsAllowed(_) => final(self)@ == old(self)@ && !is_new,
            },
    {
        let cur_key = self.auth.section_key();
        if !bytes_eq(&cur_key, &agreed.sig.public_key) {
            return Err(Error::InvalidSignature);
        }
        if !agreed.verify() {
            return Err(Error::InvalidSignature);
        }
        match &agreed.value {
            Proposal::OnlineNode(n) => Ok(self.peers.insert(n.clone())),
            Proposal::OfflineNode(n) => Ok(self.peers.insert(n.clone())),
            Proposal::SectionInfo(s) => {
                proof {
                    use_type_invariant(s);
                }
                if s.generation() <= self.auth.generation() {
                    return Err(Error::StaleGeneration);
                }
                if !self.auth.prefix().is_ancestor_of(s.prefix()) {
                    return Err(Error::PrefixMismatch);
                }
                self.auth = s.clone();
                Ok(false)
            },
            Proposal::JoinsAllowed(_) => Ok(false),
        }
    }
}

/// Two rival authority records produced by concurrent key generations for
/// the same region never both enter: once one is installed, the other, whose
/// generation is no newer, is refused, whatever signature it carries; and
/// `section_accepts_authority` admits nothing without a valid continuity
/// signature under the previously trusted key.
pub proof fn lemma_rival_authority_rejected(
    cur: SapV,
    s1: SapV,
    sig1: SignedV,
    s2: SapV,
    sig2: SignedV,
)
    requires
        section_accepts_authority(cur, s1, sig1),
        s2.generation <= s1.generation,
    ensures
        !section_accepts_authority(s1, s2, sig2),
{
}

/// Whether an endpoint view is within machine bounds; every endpoint a
/// node actually holds is.
pub open spec fn addr_v_bounded(a: AddrV) -> bool {
    a.ip.len() <= u64::MAX
}

/// Whether a membership view is within machine bounds.
pub open spec fn membership_v_bounded(m: MembershipV) -> bool {
    m matches MembershipV::Relocated(d) ==> d.len() <= u64::MAX
}

/// Whether a member record view is within machine bounds.
pub open spec fn node_state_v_bounded(n: NodeStateV) -> bool {
    n.name.len() <= u64::MAX && addr_v_bounded(n.addr) && membership_v_bounded(n.state)
}

/// Whether a peer view is within machine bounds.
pub open spec fn peer_v_bounded(p: PeerV) -> bool {
    p.name.len() <= u64::MAX && addr_v_bounded(p.addr)
}

/// Whether an authority record view is within machine bounds.
pub open spec fn sap_v_bounded(s: SapV) -> bool {
    &&& s.prefix.len() <= u64::MAX
    &&& s.elders.len() <= u64::MAX
    &&& forall|i: int| 0 <= i < s.elders.len() ==> peer_v_bounded(#[trigger] s.elders[i])
    &&& s.pk_set.len() <= u64::MAX
}

/// An endpoint's canonical bytes pin the endpoint and the remainder.
pub proof fn lemma_enc_addr_bind(a: AddrV, b: AddrV, r1: Seq<u8>, r2: Seq<u8>)
    requires
        addr_v_bounded(a),
        addr_v_bounded(b),
        enc_addr(a) + r1 == enc_addr(b) + r2,
    ensures
        a == b,
        r1 == r2,
{
    assert(enc_bytes(a.ip) + (enc_u64(a.port as u64) + r1) =~= enc_addr(a) + r1);
    assert(enc_bytes(b.ip) + (enc_u64(b.port as u64) + r2) =~= enc_addr(b) + r2);
    crate::codec::lemma_enc_bytes_bind(
        a.ip,
        b.ip,
        enc_u64(a.port as u64) + r1,
        enc_u64(b.port as u64) + r2,
    );
    crate::codec::lemma_enc_u64_bind(a.port as u64, b.port as u64, r1, r2);
    assert(a =~= b);
}

/// A membership state's canonical bytes pin the state and the remainder.
pub proof fn lemma_enc_membership_bind(a: MembershipV, b: MembershipV, r1: Seq<u8>, r2: Seq<u8>)
    requires
        membership_v_bounded(a),
        membership_v_bounded(b),
        enc_membership(a) + r1 == enc_membership(b) + r2,
    ensures
        a == b,
        r1 == r2,
{
    match (a, b) {
        (MembershipV::Joined, MembershipV::Joined) => {
            crate::codec::lemma_enc_tag_bind(0u8, 0u8, r1, r2);
        },
        (MembershipV::Left, MembershipV::Left) => {
            crate::codec::lemma_enc_tag_bind(1u8, 1u8, r1, r2);
        },
        (MembershipV::Relocated(d1), MembershipV::Relocated(d2)) => {
            assert(seq![2u8] + (enc_bits(d1) + r1) =~= enc_membership(a) + r1);
            assert(seq![2u8] + (enc_bits(d2) + r2) =~= enc_membership(b) + r2);
            crate::codec::lemma_enc_tag_bind(2u8, 2u8, enc_bits(d1) + r1, enc_bits(d2) + r2);
            crate::codec::lemma_enc_bits_bind(d1, d2, r1, r2);
        },
        (MembershipV::Joined, MembershipV::Left) => {
            assert((seq![0u8] + r1)[0] == 0u8 && (seq![1u8] + r2)[0] == 1u8);
        },
        (MembershipV::Joined, MembershipV::Relocated(d2)) => {
            assert((seq![0u8] + r1)[0] == 0u8 && (seq![2u8] + (enc_bits(d2) + r2))[0] == 2u8);
            assert(seq![2u8] + (enc_bits(d2) + r2) =~= enc_membership(b) + r2);
        },
        (MembershipV::Left, MembershipV::Joined) => {
            assert((seq![1u8] + r1)[0] == 1u8 && (seq![0u8] + r2)[0] == 0u8);
        },
        (MembershipV::Left, MembershipV::Relocated(d2)) => {
            assert((seq![1u8] + r1)[0] == 1u8 && (seq![2u8] + (enc_bits(d2) + r2))[0] == 2u8);
            assert(seq![2u8] + (enc_bits(d2) + r2) =~= enc_membership(b) + r2);
        },
        (MembershipV::Relocated(d1), MembershipV::Joined) => {
            assert((seq![2u8] + (enc_bits(d1) + r1))[0] == 2u8 && (seq![0u8] + r2)[0] == 0u8);
            assert(seq![2u8] + (enc_bits(d1) + r1) =~= enc_membership(a) + r1);
        },
        (MembershipV::Relocated(d1), MembershipV::Left) => {
            assert((seq![2u8] + (enc_bits(d1) + r1))[0] == 2u8 && (seq![1u8] + r2)[0] == 1u8);
            assert(seq![2u8] + (enc_bits(d1) + r1) =~= enc_membership(a) + r1);
        },
    }
}

/// A member record's canonical bytes pin the record and the remainder: a
/// section signature over those bytes vouches for exactly one record.
pub proof fn lemma_enc_node_state_bind(a: NodeStateV, b: NodeStateV, r1: Seq<u8>, r2: Seq<u8>)
    requires
        node_state_v_bounded(a),
        node_state_v_bounded(b),
        enc_node_state(a) + r1 == enc_node_state(b) + r2,
    ensures
        a == b,
        r1 == r2,
{
    let ta1 = enc_addr(a.addr) + (seq![a.age] + (enc_membership(a.state) + r1));
    let tb1 = enc_addr(b.addr) + (seq![b.age] + (enc_membership(b.state) + r2));
    assert(enc_bits(a.name) + ta1 =~= enc_node_state(a) + r1);
    assert(enc_bits(b.name) + tb1 =~= enc_node_state(b) + r2);
    crate::codec::lemma_enc_bits_bind(a.name, b.name, ta1, tb1);
    assert(enc_addr(a.addr) + (seq![a.age] + (enc_membership(a.state) + r1)) =~= ta1);
    assert(enc_addr(b.addr) + (seq![b.age] + (enc_membership(b.state) + r2)) =~= tb1);
    lemma_enc_addr_bind(a.addr, b.addr, seq![a.age] + (enc_membership(a.state) + r1), seq![b.age]
        + (enc_membership(b.state) + r2));
    crate::codec::lemma_enc_tag_bind(a.age, b.age, enc_membership(a.state) + r1, enc_membership(
        b.state,
    ) + r2);
    lemma_enc_membership_bind(a.state, b.state, r1, r2);
    assert(a =~= b);
}

/// A member record's canonical bytes name one record: no two records share
/// them, so a signature over them never vouches for another record.
pub proof fn lemma_node_state_binding(a: NodeStateV, b: NodeStateV)
    requires
        node_state_v_bounded(a),
        node_state_v_bounded(b),
        enc_node_state(a) == enc_node_state(b),
    ensures
        a == b,
{
    assert(enc_node_state(a) + Seq::<u8>::empty() =~= enc_node_state(b) + Seq::<u8>::empty());
    lemma_enc_node_state_bind(a, b, Seq::empty(), Seq::empty());
}

/// A peer's canonical bytes pin the peer and the remainder.
pub proof fn lemma_enc_peer_bind(a: PeerV, b: PeerV, r1: Seq<u8>, r2: Seq<u8>)
    requires
        peer_v_bounded(a),
        peer_v_bounded(b),
        enc_peer(a) + r1 == enc_peer(b) + r2,
    ensures
        a == b,
        r1 == r2,
{
    assert(enc_bits(a.name) + (enc_addr(a.addr) + r1) =~= enc_peer(a) + r1);
    assert(enc_bits(b.name) + (enc_addr(b.addr) + r2) =~= enc_peer(b) + r2);
    crate::codec::lemma_enc_bits_bind(a.name, b.name, enc_addr(a.addr) + r1, enc_addr(b.addr) + r2);
    lemma_enc_addr_bind(a.addr, b.addr, r1, r2);
    assert(a =~= b);
}

/// An elder list's canonical bytes pin the list and the remainder, once the
/// count is known.
pub proof fn lemma_enc_peers_bind(x: Seq<PeerV>, y: Seq<PeerV>, r1: Seq<u8>, r2: Seq<u8>)
    requires
        x.len() == y.len(),
        forall|i: int| 0 <= i < x.len() ==> peer_v_bounded(#[trigger] x[i]),
        forall|i: int| 0 <= i < y.len() ==> peer_v_bounded(#[trigger] y[i]),
        enc_peers(x) + r1 == enc_peers(y) + r2,
    ensures
        x == y,
        r1 == r2,
    decreases x.len(),
{
    if x.len() == 0 {
        assert(enc_peers(x) + r1 =~= r1);
        assert(enc_peers(y) + r2 =~= r2);
        assert(x =~= y);
    } else {
        let xd = x.drop_last();
        let yd = y.drop_last();
        assert(enc_peers(xd) + (enc_peer(x.last()) + r1) =~= enc_peers(x) + r1);
        assert(enc_peers(yd) + (enc_peer(y.last()) + r2) =~= enc_peers(y) + r2);
        assert forall|i: int| 0 <= i < xd.len() implies peer_v_bounded(#[trigger] xd[i]) by {
            assert(xd[i] == x[i]);
        }
        assert forall|i: int| 0 <= i < yd.len() implies peer_v_bounded(#[trigger] yd[i]) by {
            assert(yd[i] == y[i]);
        }
        lemma_enc_peers_bind(xd, yd, enc_peer(x.last()) + r1, enc_peer(y.last()) + r2);
        assert(peer_v_bounded(x.last()));
        assert(peer_v_bounded(y.last()));
        lemma_enc_peer_bind(x.last(), y.last(), r1, r2);
        assert forall|i: int| 0 <= i < x.len() implies x[i] == y[i] by {
            if i < x.len() - 1 {
                assert(x[i] == xd[i]);
                assert(y[i] == yd[i]);
            } else {
                assert(x[i] == x.last());
                assert(y[i] == y.last());
            }
        }
        assert(x =~= y);
    }
}

/// An authority record's canonical bytes pin the record and the remainder.
pub proof fn lemma_enc_sap_bind(a: SapV, b: SapV, r1: Seq<u8>, r2: Seq<u8>)
    requires
        sap_v_bounded(a),
        sap_v_bounded(b),
        enc_sap(a) + r1 == enc_sap(b) + r2,
    ensures
        a == b,
        r1 == r2,
{
    let ta = enc_u64(a.elders.len() as u64) + (enc_peers(a.elders) + (enc_bytes(a.pk_set)
        + (enc_u64(a.generation) + r1)));
    let tb = enc_u64(b.elders.len() as u64) + (enc_peers(b.elders) + (enc_bytes(b.pk_set)
        + (enc_u64(b.generation) + r2)));
    assert(enc_bits(a.prefix) + ta =~= enc_sap(a) + r1);
    assert(enc_bits(b.prefix) + tb =~= enc_sap(b) + r2);
    crate::codec::lemma_enc_bits_bind(a.prefix, b.prefix, ta, tb);
    crate::codec::lemma_enc_u64_bind(
        a.elders.len() as u64,
        b.elders.len() as u64,
        enc_peers(a.elders) + (enc_bytes(a.pk_set) + (enc_u64(a.generation) + r1)),
        enc_peers(b.elders) + (enc_bytes(b.pk_set) + (enc_u64(b.generation) + r2)),
    );
    lemma_enc_peers_bind(
        a.elders,
        b.elders,
        enc_bytes(a.pk_set) + (enc_u64(a.generation) + r1),
        enc_bytes(b.pk_set) + (enc_u64(b.generation) + r2),
    );
    crate::codec::lemma_enc_bytes_bind(
        a.pk_set,
        b.pk_set,
        enc_u64(a.generation) + r1,
        enc_u64(b.generation) + r2,
    );
    crate::codec::lemma_enc_u64_bind(a.generation, b.generation, r1, r2);
    assert(a =~= b);
}

/// An authority record's canonical bytes name one record: no two records
/// share them, so a continuity signature over them endorses exactly one
/// successor authority.
pub proof fn lemma_sap_binding(a: SapV, b: SapV)
    requires
        sap_v_bounded(a),
        sap_v_bounded(b),
        enc_sap(a) == enc_sap(b),
    ensures
        a == b,
{
    assert(enc_sap(a) + Seq::<u8>::empty() =~= enc_sap(b) + Seq::<u8>::empty());
    lemma_enc_sap_bind(a, b, Seq::empty(), Seq::empty());
}

/// The canonical bytes of the elder list from position `i` on.
pub open spec fn enc_peers_from(s: Seq<PeerV>, i: int) -> Seq<u8>
    decreases s.len() - i,
{
    if i < 0 || i >= s.len() {
        Seq::empty()
    } else {
        enc_peer(s[i]) + enc_peers_from(s, i + 1)
    }
}

/// The whole elder list's bytes split at any position.
pub proof fn lemma_enc_peers_split(s: Seq<PeerV>, i: int)
    requires
        0 <= i <= s.len(),
    ensures
        enc_peers(s) == enc_peers(s.take(i)) + enc_peers_from(s, i),
    decreases s.len() - i,
{
    if i == s.len() {
        assert(s.take(i) =~= s);
        assert(enc_peers(s) =~= enc_peers(s.take(i)) + enc_peers_from(s, i));
    } else {
        lemma_enc_peers_split(s, i + 1);
        let t1 = s.take(i + 1);
        assert(t1.drop_last() =~= s.take(i));
        assert(t1.last() == s[i]);
        assert(enc_peers(t1) == enc_peers(s.take(i)) + enc_peer(s[i]));
        assert(enc_peers(s.take(i)) + enc_peer(s[i]) + enc_peers_from(s, i + 1) =~= enc_peers(
            s.take(i),
        ) + (enc_peer(s[i]) + enc_peers_from(s, i + 1)));
    }
}

/// An elder list's bytes hold at least one byte per elder.
pub proof fn lemma_enc_peers_len(s: Seq<PeerV>)
    ensures
        enc_peers(s).len() >= s.len(),
    decreases s.len(),
{
    if s.len() > 0 {
        lemma_enc_peers_len(s.drop_last());
    }
}

} // verus!
