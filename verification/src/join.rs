//! The join and admission protocol: a candidate asks the section whose
//! prefix covers its name. A relocating candidate with a valid, correctly
//! destined entitlement signed by a key this node trusts is admitted
//! directly; a brand-new candidate must first answer a resource-proof
//! challenge, a moderately expensive computation keyed to a seed of the
//! section's choosing, to make low-cost flooding attempts expensive. Every
//! rejection names its reason; nothing is dropped silently.

use vstd::prelude::*;
use crate::codec::{enc_bits, enc_u64, write_bits, write_u64};
use crate::crypto::{bls_master_key, bls_verified, digest, digest256};
use crate::name::{bits_of_bytes, copy_vec, Name};
use crate::prefix::prefix_matches;
use crate::prefix_map::PrefixMap;
use crate::relocation::{enc_relocate_details, RelocateDetails, RelocateDetailsV};
use crate::section::{NetAddr, NodeState, MembershipState, SapV, SectionAuthorityProvider};
use crate::signed::{SectionSigned, SignedV};

verus! {

/// The lowest age a candidate may join with.
pub const MIN_AGE: u8 = 5;

/// How many leading zero bits a resource proof must reach.
pub const PROOF_DIFFICULTY: u8 = 8;

/// Why a join request was turned away.
#[derive(Clone, Copy, Debug, PartialEq, Eq, Structural)]
pub enum JoinRejectionReason {
    /// The section has no room for another member.
    SectionFull,
    /// The candidate's name does not fall under this section's prefix; it
    /// must retry against the section that covers its name.
    PrefixMismatch,
    /// The resource proof, or a relocation entitlement, did not check out.
    InvalidProof,
    /// The resource proof arrived after its challenge expired.
    ProofTimeout,
    /// The candidate's age is below the minimum.
    AgeBelowMinimum,
}

/// A request to join the contacted section, optionally carrying the signed
/// relocation entitlement of a node sent here by its old section.
pub struct JoinRequest {
    pub name: Name,
    pub addr: NetAddr,
    pub age: u8,
    pub relocation: Option<SectionSigned<RelocateDetails>>,
}

/// A resource-proof challenge: find a nonce whose digest together with the
/// seed starts with enough zero bits, before the challenge expires.
pub struct ResourceChallenge {
    pub seed: Vec<u8>,
    pub difficulty: u8,
    pub expires_at: u64,
}

/// A candidate's answer to a resource-proof challenge.
pub struct ResourceProofResponse {
    pub nonce: u64,
}

/// The section's reply to a join request.
pub enum JoinResponse {
    /// The candidate is admitted: this member record now goes through the
    /// ordinary agreement before any elder treats it as a member.
    Approved(NodeState),
    /// A brand-new candidate must first answer this challenge.
    Challenge(ResourceChallenge),
    /// The request is refused, with the reason.
    Rejected(JoinRejectionReason),
}

/// How far a candidate has come.
pub enum CandidateState {
    /// The request was received and is being examined.
    Requesting,
    /// A challenge was issued and its answer is awaited.
    ChallengeIssued(ResourceChallenge),
    /// The candidate passed and its member record entered agreement.
    Approved,
    /// The candidate was turned away.
    Rejected(JoinRejectionReason),
}

impl CandidateState {
    /// Moves the candidate along on the section's reply: a challenge is
    /// awaited, approval and rejection are final and never left again.
    pub fn advance(self, response: JoinResponse) -> (r: CandidateState)
        ensures
            (self is Approved || self is Rejected) ==> r == self,
            (self is Requesting || self is ChallengeIssued) ==> r == (match response {
                JoinResponse::Approved(_) => CandidateState::Approved,
                JoinResponse::Challenge(c) => CandidateState::ChallengeIssued(c),
                JoinResponse::Rejected(why) => CandidateState::Rejected(why),
            }),
    {
        match self {
            CandidateState::Approved => CandidateState::Approved,
            CandidateState::Rejected(why) => CandidateState::Rejected(why),
            _ => match response {
                JoinResponse::Approved(_) => CandidateState::Approved,
                JoinResponse::Challenge(c) => CandidateState::ChallengeIssued(c),
                JoinResponse::Rejected(why) => CandidateState::Rejected(why),
            },
        }
    }
}

/// The number of leading zero bits of a bit string.
pub open spec fn leading_zeros(s: Seq<bool>) -> int
    decreases s.len(),
{
    if s.len() == 0 {
        0
    } else if s.first() {
        0
    } else {
        1 + leading_zeros(s.drop_first())
    }
}

/// Whether `nonce` answers the challenge `(seed, difficulty)`: the digest of
/// the seed followed by the nonce starts with at least `difficulty` zero
/// bits.
pub open spec fn proof_valid(seed: Seq<u8>, nonce: u64, difficulty: u8) -> bool {
    leading_zeros(bits_of_bytes(digest256(seed + enc_u64(nonce)))) >= difficulty
}

/// A prefix of zero bits, ended by a one bit, pins the count.
proof fn lemma_leading_zeros_exact(s: Seq<bool>, i: int)
    requires
        0 <= i <= s.len(),
        forall|k: int| 0 <= k < i ==> !s[k],
        i < s.len() ==> s[i],
    ensures
        leading_zeros(s) == i,
    decreases i,
{
    if i > 0 {
        assert(!s.first());
        lemma_leading_zeros_exact(s.drop_first(), i - 1);
        assert forall|k: int| 0 <= k < i - 1 implies !s.drop_first()[k] by {
            assert(s.drop_first()[k] == s[k + 1]);
        }
    }
}

/// How many zero bits the name starts with.
pub fn count_leading_zeros(name: &Name) -> (r: usize)
    ensures
        r == leading_zeros(name@),
{
    proof {
        use_type_invariant(name);
        name.wf_len();
    }
    let mut i: usize = 0;
    while i < 256
        invariant
            i <= 256,
            name@.len() == 256,
            forall|k: int| 0 <= k < i ==> !name@[k],
        decreases 256 - i,
    {
        if name.bit(i) {
            proof {
                lemma_leading_zeros_exact(name@, i as int);
            }
            return i;
        }
        i = i + 1;
    }
    proof {
        lemma_leading_zeros_exact(name@, 256);
    }
    256
}

/// Checks a resource proof: recomputes the digest of seed and nonce and
/// counts its leading zero bits.
pub fn check_proof(seed: &Vec<u8>, nonce: u64, difficulty: u8) -> (r: bool)
    ensures
        r == proof_valid(seed@, nonce, difficulty),
{
    let mut msg = copy_vec(seed);
    write_u64(&mut msg, nonce);
    let d = digest(&msg);
    let name = Name::from_bytes(&d).unwrap();
    let zeros = count_leading_zeros(&name);
    zeros >= difficulty as usize
}

/// Searches nonces from zero for one that answers the challenge; gives up
/// after `max_attempts`, since whether any given nonce answers is up to the
/// digest. It gives up only honestly: a miss means no nonce below the
/// bound answers.
pub fn solve_challenge(seed: &Vec<u8>, difficulty: u8, max_attempts: u64) -> (r: Option<u64>)
    ensures
        r matches Some(nonce) ==> proof_valid(seed@, nonce, difficulty),
        r is None ==> forall|n: u64| n < max_attempts ==> !proof_valid(seed@, n, difficulty),
{
    let mut nonce: u64 = 0;
    while nonce < max_attempts
        invariant
            nonce <= max_attempts,
            forall|n: u64| n < nonce ==> !proof_valid(seed@, n, difficulty),
        decreases max_attempts - nonce,
    {
        if check_proof(seed, nonce, difficulty) {
            return Some(nonce);
        }
        nonce = nonce + 1;
    }
    None
}

/// Whether the receiver trusts the signature on a relocation entitlement:
/// its routing table holds, for the region of the node's old name, a record
/// whose current master key is exactly the signing key, and the signature
/// verifies over the entitlement's canonical bytes.
pub open spec fn relocation_trusted(map: Seq<SapV>, d: RelocateDetailsV, sig: SignedV) -> bool {
    exists|i: int|
        {
            &&& 0 <= i < map.len()
            &&& prefix_matches((#[trigger] map[i]).prefix, d.previous_name)
            &&& sig.public_key == bls_master_key(map[i].pk_set)
            &&& bls_verified(sig.public_key, sig.signature, enc_relocate_details(d))
        }
}

/// Whether a relocation entitlement admits the candidate here: trusted as
/// above, destined for this very section, carrying the candidate's new name
/// as its destination.
pub open spec fn relocation_entitles(
    map: Seq<SapV>,
    our: SapV,
    name: Seq<bool>,
    d: RelocateDetailsV,
    sig: SignedV,
) -> bool {
    &&& relocation_trusted(map, d, sig)
    &&& d.destination == name
    &&& prefix_matches(our.prefix, d.destination)
}

/// Handles a join request addressed to our section, at tick `now`.
///
/// A candidate whose name does not fall under our prefix is always refused
/// with the prefix mismatch, never silently admitted. With the prefix right:
/// a full section refuses with its own reason; a candidate below the
/// minimum age is refused; a relocating candidate with a valid entitlement
/// is admitted directly, one with a bad entitlement is refused, and a
/// brand-new candidate is handed a resource-proof challenge that expires
/// `challenge_ttl` ticks from now.
pub fn handle_join_request(
    our: &SectionAuthorityProvider,
    map: &PrefixMap,
    member_count: usize,
    capacity: usize,
    req: &JoinRequest,
    now: u64,
    challenge_ttl: u64,
) -> (r: JoinResponse)
    requires
        now + challenge_ttl <= u64::MAX,
        crate::prefix_map::prefix_map_wf(map@),
    ensures
        !prefix_matches(our@.prefix, req.name@) <==> r == JoinResponse::Rejected(
            JoinRejectionReason::PrefixMismatch,
        ),
        prefix_matches(our@.prefix, req.name@) && member_count >= capacity ==> r
            == JoinResponse::Rejected(JoinRejectionReason::SectionFull),
        prefix_matches(our@.prefix, req.name@) && member_count < capacity && req.age < MIN_AGE
            ==> r == JoinResponse::Rejected(JoinRejectionReason::AgeBelowMinimum),
        prefix_matches(our@.prefix, req.name@) && member_count < capacity && req.age >= MIN_AGE
            ==> match req.relocation {
            Some(ref ss) => {
                if relocation_entitles(map@, our@, req.name@, ss.value@, ss.sig@) {
                    r matches JoinResponse::Approved(n) && n@.name == req.name@ && n@.addr
                        == req.addr@ && n@.age == ss.value@.age && n@.state is Joined
                } else {
                    r == JoinResponse::Rejected(JoinRejectionReason::InvalidProof)
                }
            },
            None => r matches JoinResponse::Challenge(c) && c.difficulty == PROOF_DIFFICULTY
                && c.expires_at == now + challenge_ttl && c.seed@ == digest256(
                enc_bits(req.name@) + enc_u64(now),
            ),
        },
{
    if !our.contains(&req.name) {
        return JoinResponse::Rejected(JoinRejectionReason::PrefixMismatch);
    }
    if member_count >= capacity {
        return JoinResponse::Rejected(JoinRejectionReason::SectionFull);
    }
    if req.age < MIN_AGE {
        return JoinResponse::Rejected(JoinRejectionReason::AgeBelowMinimum);
    }
    match &req.relocation {
        Some(ss) => {
            if !ss.value.destination.equals(&req.name) {
                return JoinResponse::Rejected(JoinRejectionReason::InvalidProof);
            }
            if !our.contains(&ss.value.destination) {
                return JoinResponse::Rejected(JoinRejectionReason::InvalidProof);
            }
            match map.section_by_name(&ss.value.previous_name) {
                Some(src) => {
                    let src_key = src.section_key();
                    if !crate::codec::bytes_eq(&src_key, &ss.sig.public_key) {
                        proof {
                            lemma_untrusted_source(map@, src@, ss.value@, ss.sig@);
                        }
                        return JoinResponse::Rejected(JoinRejectionReason::InvalidProof);
                    }
                    if !ss.verify() {
                        return JoinResponse::Rejected(JoinRejectionReason::InvalidProof);
                    }
                    proof {
                        let i0 = choose|i: int| 0 <= i < map@.len() && #[trigger] map@[i] == src@;
                        assert(prefix_matches(map@[i0].prefix, ss.value@.previous_name));
                        assert(ss.sig@.public_key == bls_master_key(map@[i0].pk_set));
                        assert(bls_verified(
                            ss.sig@.public_key,
                            ss.sig@.signature,
                            enc_relocate_details(ss.value@),
                        ));
                        assert(relocation_trusted(map@, ss.value@, ss.sig@));
                    }
                    JoinResponse::Approved(
                        NodeState {
                            name: req.name.clone(),
                            addr: req.addr.clone(),
                            age: ss.value.age,
                            state: MembershipState::Joined,
                        },
                    )
                },
                None => {
                    return JoinResponse::Rejected(JoinRejectionReason::InvalidProof);
                },
            }
        },
        None => {
            let mut seed_input: Vec<u8> = Vec::new();
            let name_bits = req.name.to_bits();
            write_bits(&mut seed_input, &name_bits);
            write_u64(&mut seed_input, now);
            proof {
                assert(seed_input@ =~= enc_bits(req.name@) + enc_u64(now));
            }
            let seed = digest(&seed_input);
            JoinResponse::Challenge(
                ResourceChallenge {
                    seed,
                    difficulty: PROOF_DIFFICULTY,
                    expires_at: now + challenge_ttl,
                },
            )
        },
    }
}

/// In a well-formed table the record found for the old name is the only one
/// for its region, so a signing key differing from its master key is
/// trusted by nobody.
proof fn lemma_untrusted_source(map: Seq<SapV>, src: SapV, d: RelocateDetailsV, sig: SignedV)
    requires
        crate::prefix_map::prefix_map_wf(map),
        exists|i: int| 0 <= i < map.len() && #[trigger] map[i] == src,
        prefix_matches(src.prefix, d.previous_name),
        sig.public_key != bls_master_key(src.pk_set),
    ensures
        !relocation_trusted(map, d, sig),
{
    if relocation_trusted(map, d, sig) {
        let i = choose|i: int|
            {
                &&& 0 <= i < map.len()
                &&& prefix_matches((#[trigger] map[i]).prefix, d.previous_name)
                &&& sig.public_key == bls_master_key(map[i].pk_set)
                &&& bls_verified(sig.public_key, sig.signature, enc_relocate_details(d))
            };
        let j = choose|j: int| 0 <= j < map.len() && #[trigger] map[j] == src;
        crate::prefix_map::lemma_at_most_one_match(map, d.previous_name, i, j);
    }
}

/// Judges the answer to a resource-proof challenge at tick `now`: an answer
/// after the deadline times out whatever it holds, and an answer in time is
/// accepted exactly when its nonce meets the challenge.
pub fn handle_resource_proof(
    challenge: &ResourceChallenge,
    response: &ResourceProofResponse,
    now: u64,
) -> (r: Result<(), JoinRejectionReason>)
    ensures
        now > challenge.expires_at ==> r == Result::<(), JoinRejectionReason>::Err(
            JoinRejectionReason::ProofTimeout,
        ),
        now <= challenge.expires_at ==> (r is Ok <==> proof_valid(
            challenge.seed@,
            response.nonce,
            challenge.difficulty,
        )),
        now <= challenge.expires_at && !proof_valid(
            challenge.seed@,
            response.nonce,
            challenge.difficulty,
        ) ==> r == Result::<(), JoinRejectionReason>::Err(JoinRejectionReason::InvalidProof),
    {
    if now > challenge.expires_at {
        return Err(JoinRejectionReason::ProofTimeout);
    }
    if check_proof(&challenge.seed, response.nonce, challenge.difficulty) {
        Ok(())
    } else {
        Err(JoinRejectionReason::InvalidProof)
    }
}

} // verus!
