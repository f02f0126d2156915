//! The join protocol, the resource proof, and relocation selection.

use sn_routing::error::Error;
use sn_routing::join::{
    check_proof, handle_join_request, handle_resource_proof, solve_challenge, CandidateState,
    JoinRejectionReason, JoinRequest, JoinResponse, ResourceChallenge, ResourceProofResponse,
    MIN_AGE,
};
use sn_routing::name::Name;
use sn_routing::prefix::Prefix;
use sn_routing::prefix_map::PrefixMap;
use sn_routing::relocation::{
    check_relocation, destination, relocation_candidates, PromiseBook, RelocateDetails,
};
use sn_routing::section::{
    MembershipState, NetAddr, NodeState, Peer, SectionAuthorityProvider, SectionPeers,
};
use sn_routing::signed::{Payload, SectionSigned, Signed};

fn name_with_first_bit(first: bool, seed: u8) -> Name {
    let mut bits = vec![false; 256];
    bits[0] = first;
    for i in 1..200 {
        bits[i] = (i * 31 + (seed as usize) * 7 + i / 9) % 5 == 0;
    }
    for b in 0..8 {
        bits[200 + b] = (seed >> b) & 1 == 1;
    }
    Name::from_bits(bits).unwrap()
}

fn name_from_bits(f: impl Fn(usize) -> bool) -> Name {
    Name::from_bits((0..256).map(f).collect()).unwrap()
}

fn test_addr(i: u8) -> NetAddr {
    NetAddr { ip: vec![10, 0, 0, i], port: 1000 + i as u16 }
}

fn sk_set(threshold: usize, seed: u8) -> blsttc::SecretKeySet {
    let mut bytes = Vec::new();
    for k in 0..=threshold {
        let mut c = [0u8; 32];
        c[31] = (k as u8) + 1;
        c[30] = seed;
        bytes.extend_from_slice(&c);
    }
    blsttc::SecretKeySet::from_bytes(bytes).unwrap()
}

fn sap_for(first_bit: bool, sk: &blsttc::SecretKeySet, generation: u64) -> SectionAuthorityProvider {
    let prefix = Prefix::new(vec![first_bit]).unwrap();
    let elders = vec![
        Peer { name: name_with_first_bit(first_bit, 1), addr: test_addr(1) },
        Peer { name: name_with_first_bit(first_bit, 2), addr: test_addr(2) },
    ];
    SectionAuthorityProvider::new(prefix, elders, sk.public_keys().to_bytes(), generation).unwrap()
}

#[test]
fn wrong_prefix_always_rejected() {
    // A candidate whose name does not fall under the contacted section's
    // prefix is always rejected with the prefix mismatch, never silently
    // admitted — whatever else the request carries.
    let sk = sk_set(1, 1);
    let our = sap_for(false, &sk, 1);
    let mut map = PrefixMap::new();
    map.insert(our.clone()).unwrap();
    let our = map.section_by_name(&name_with_first_bit(false, 9)).unwrap();

    let outsider = JoinRequest {
        name: name_with_first_bit(true, 5),
        addr: test_addr(9),
        age: MIN_AGE + 2,
        relocation: None,
    };
    let r = handle_join_request(&our, &map, 0, 100, &outsider, 0, 50);
    assert!(matches!(
        r,
        JoinResponse::Rejected(JoinRejectionReason::PrefixMismatch)
    ));
}

#[test]
fn full_section_and_young_candidates_rejected() {
    let sk = sk_set(1, 2);
    let our = sap_for(false, &sk, 1);
    let map = PrefixMap::new();

    let candidate = JoinRequest {
        name: name_with_first_bit(false, 5),
        addr: test_addr(9),
        age: MIN_AGE,
        relocation: None,
    };
    let r = handle_join_request(&our, &map, 100, 100, &candidate, 0, 50);
    assert!(matches!(r, JoinResponse::Rejected(JoinRejectionReason::SectionFull)));

    let young = JoinRequest {
        name: name_with_first_bit(false, 6),
        addr: test_addr(9),
        age: MIN_AGE - 1,
        relocation: None,
    };
    let r = handle_join_request(&our, &map, 0, 100, &young, 0, 50);
    assert!(matches!(
        r,
        JoinResponse::Rejected(JoinRejectionReason::AgeBelowMinimum)
    ));
}

#[test]
fn new_candidate_gets_challenge_and_proof_is_judged() {
    let sk = sk_set(1, 3);
    let our = sap_for(false, &sk, 1);
    let map = PrefixMap::new();

    let candidate = JoinRequest {
        name: name_with_first_bit(false, 7),
        addr: test_addr(9),
        age: MIN_AGE + 1,
        relocation: None,
    };
    let r = handle_join_request(&our, &map, 0, 100, &candidate, 10, 50);
    let challenge = match r {
        JoinResponse::Challenge(c) => c,
        _ => panic!("a brand-new candidate gets a challenge"),
    };
    assert_eq!(challenge.expires_at, 60);

    // An easier copy of the challenge keeps the search cheap.
    let easy = ResourceChallenge {
        seed: challenge.seed.clone(),
        difficulty: 4,
        expires_at: challenge.expires_at,
    };
    let nonce = solve_challenge(&easy.seed, easy.difficulty, 1_000_000).expect(
        "a four-bit challenge is quickly solved",
    );
    assert!(check_proof(&easy.seed, nonce, easy.difficulty));

    let response = ResourceProofResponse { nonce };
    assert!(handle_resource_proof(&easy, &response, 60).is_ok());
    // Past the deadline the same answer times out.
    assert!(matches!(
        handle_resource_proof(&easy, &response, 61),
        Err(JoinRejectionReason::ProofTimeout)
    ));
    // A wrong nonce in time is an invalid proof, unless it happens to
    // answer too; this one does not.
    let wrong = ResourceProofResponse { nonce: nonce.wrapping_add(1) };
    if !check_proof(&easy.seed, wrong.nonce, easy.difficulty) {
        assert!(matches!(
            handle_resource_proof(&easy, &wrong, 60),
            Err(JoinRejectionReason::InvalidProof)
        ));
    }
}

#[test]
fn relocated_candidate_admitted_without_challenge() {
    // The relocating node moves from the `1` region into the `0` region.
    let src_keys = sk_set(1, 4);
    let dst_keys = sk_set(1, 5);
    let src_sap = sap_for(true, &src_keys, 1);
    let dst_sap = sap_for(false, &dst_keys, 1);

    let mut map = PrefixMap::new();
    map.insert(src_sap).unwrap();
    map.insert(dst_sap).unwrap();
    let our = map.section_by_name(&name_with_first_bit(false, 9)).unwrap();

    let new_name = name_with_first_bit(false, 8);
    let details = RelocateDetails {
        previous_name: name_with_first_bit(true, 8),
        destination: new_name.clone(),
        age: MIN_AGE + 3,
    };
    let bytes = details.encode_payload();
    let sig = Signed {
        public_key: src_keys.public_keys().public_key().to_bytes().to_vec(),
        signature: src_keys.secret_key().sign(&bytes).to_bytes().to_vec(),
    };
    let entitlement = SectionSigned { value: details, sig };

    let req = JoinRequest {
        name: new_name,
        addr: test_addr(9),
        age: MIN_AGE + 3,
        relocation: Some(entitlement),
    };
    let r = handle_join_request(&our, &map, 0, 100, &req, 0, 50);
    match r {
        JoinResponse::Approved(node) => {
            assert_eq!(node.age, MIN_AGE + 3);
            assert!(matches!(node.state, MembershipState::Joined));
        },
        _ => panic!("a valid entitlement admits directly"),
    }

    // The same entitlement signed by a key nobody trusts is refused.
    let forger = sk_set(1, 6);
    let details = RelocateDetails {
        previous_name: name_with_first_bit(true, 8),
        destination: name_with_first_bit(false, 8),
        age: MIN_AGE + 3,
    };
    let bytes = details.encode_payload();
    let sig = Signed {
        public_key: forger.public_keys().public_key().to_bytes().to_vec(),
        signature: forger.secret_key().sign(&bytes).to_bytes().to_vec(),
    };
    let req = JoinRequest {
        name: name_with_first_bit(false, 8),
        addr: test_addr(9),
        age: MIN_AGE + 3,
        relocation: Some(SectionSigned { value: details, sig }),
    };
    let r = handle_join_request(&our, &map, 0, 100, &req, 0, 50);
    assert!(matches!(r, JoinResponse::Rejected(JoinRejectionReason::InvalidProof)));
}

#[test]
fn relocation_selection_deterministic_and_age_damped() {
    // A member name and an event hash whose XOR ends in exactly ten zero
    // bits: selected at age ten, no longer selected at age eleven.
    let member_name = name_from_bits(|i| i % 2 == 0);
    let event = name_from_bits(|i| {
        let m = i % 2 == 0;
        if i == 245 {
            !m
        } else if i >= 246 {
            m
        } else {
            (i / 3) % 2 == 0
        }
    });

    assert!(check_relocation(10, &event, &member_name));
    assert!(!check_relocation(11, &event, &member_name));

    // Selection and destination are deterministic: rerunning yields the
    // same verdict and the same destination name.
    let d1 = destination(&event, &member_name);
    let d2 = destination(&event, &member_name);
    assert!(d1.equals(&d2));
    assert_eq!(check_relocation(10, &event, &member_name), check_relocation(10, &event, &member_name));

    // The roster-level selection picks exactly the eligible joined members.
    let mut peers = SectionPeers::new();
    peers.insert(NodeState {
        name: member_name.clone(),
        addr: test_addr(1),
        age: 10,
        state: MembershipState::Joined,
    });
    peers.insert(NodeState {
        name: name_with_first_bit(false, 40),
        addr: test_addr(2),
        age: 200,
        state: MembershipState::Joined,
    });
    let picked = relocation_candidates(&peers, &event);
    assert_eq!(picked.len(), 1);
    assert!(picked[0].previous_name.equals(&member_name));
    assert_eq!(picked[0].age, 11);
    assert!(picked[0].destination.equals(&d1));
}

#[test]
fn candidate_states_move_forward_only() {
    let challenge = ResourceChallenge { seed: vec![1, 2], difficulty: 4, expires_at: 9 };
    let state = CandidateState::Requesting;
    let state = state.advance(JoinResponse::Challenge(challenge));
    assert!(matches!(state, CandidateState::ChallengeIssued(_)));

    // A rejection is final: later replies change nothing.
    let state = state.advance(JoinResponse::Rejected(JoinRejectionReason::InvalidProof));
    assert!(matches!(
        state,
        CandidateState::Rejected(JoinRejectionReason::InvalidProof)
    ));
    let state = state.advance(JoinResponse::Rejected(JoinRejectionReason::SectionFull));
    assert!(matches!(
        state,
        CandidateState::Rejected(JoinRejectionReason::InvalidProof)
    ));
}

#[test]
fn unsolvable_challenge_reported_honestly() {
    // Giving up means no nonce below the bound answers: with the hardest
    // difficulty and a few attempts, the search comes back empty.
    let seed = vec![9u8, 9, 9];
    assert!(solve_challenge(&seed, 255, 32).is_none());
    for nonce in 0..32u64 {
        assert!(!check_proof(&seed, nonce, 255));
    }
}

#[test]
fn promises_issued_and_honored_once() {
    let mut book = PromiseBook::new();
    let n = name_with_first_bit(false, 3);
    assert!(book.issue(&n));
    assert!(!book.issue(&n));
    assert!(book.honor(&n));
    assert!(!book.honor(&n));
    let other = name_with_first_bit(true, 3);
    assert!(book.issue(&other));
}

#[test]
fn stale_generation_error_reported() {
    let sk = sk_set(1, 7);
    let mut map = PrefixMap::new();
    map.insert(sap_for(false, &sk, 3)).unwrap();
    let stale = sap_for(false, &sk_set(1, 8), 3);
    assert!(matches!(map.insert(stale), Err(Error::StaleGeneration)));
}
