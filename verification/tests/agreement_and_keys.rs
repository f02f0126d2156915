//! Threshold aggregation, section signatures, authority replacement and key
//! generation bookkeeping, run against the real threshold crypto.

use sn_routing::aggregator::{ShareOutcome, SignatureAggregator};
use sn_routing::agreement::Proposal;
use sn_routing::dkg::{DkgFailureSet, DkgFailureSigned, DkgKey, DkgOutcome, DkgSession};
use sn_routing::error::Error;
use sn_routing::name::Name;
use sn_routing::prefix::Prefix;
use sn_routing::section::{
    MembershipState, NetAddr, NodeState, Peer, Section, SectionAuthorityProvider,
};
use sn_routing::signed::{Payload, SectionSigned, Signed};

fn name_with_first_bit(first: bool, seed: u8) -> Name {
    let mut bits = vec![false; 256];
    bits[0] = first;
    for i in 1..200 {
        bits[i] = (i * 31 + (seed as usize) * 7 + i / 9) % 5 == 0;
    }
    for b in 0..8 {
        bits[200 + b] = (seed >> b) & 1 == 1;
    }
    Name::from_bits(bits).unwrap()
}

fn test_addr(i: u8) -> NetAddr {
    NetAddr { ip: vec![10, 0, 0, i], port: 1000 + i as u16 }
}

fn sk_set(threshold: usize, seed: u8) -> blsttc::SecretKeySet {
    let mut bytes = Vec::new();
    for k in 0..=threshold {
        let mut c = [0u8; 32];
        c[31] = (k as u8) + 1;
        c[30] = seed;
        bytes.extend_from_slice(&c);
    }
    blsttc::SecretKeySet::from_bytes(bytes).unwrap()
}

fn seven_elder_sap(sk: &blsttc::SecretKeySet, generation: u64) -> SectionAuthorityProvider {
    let prefix = Prefix::new(vec![false]).unwrap();
    let elders: Vec<Peer> = (0..7u8)
        .map(|i| Peer { name: name_with_first_bit(false, i), addr: test_addr(i) })
        .collect();
    SectionAuthorityProvider::new(prefix, elders, sk.public_keys().to_bytes(), generation).unwrap()
}

fn node_state(seed: u8) -> NodeState {
    NodeState {
        name: name_with_first_bit(false, seed),
        addr: test_addr(seed),
        age: 6,
        state: MembershipState::Joined,
    }
}

fn master_sign(sk: &blsttc::SecretKeySet, msg: &[u8]) -> Signed {
    Signed {
        public_key: sk.public_keys().public_key().to_bytes().to_vec(),
        signature: sk.secret_key().sign(msg).to_bytes().to_vec(),
    }
}

#[test]
fn five_of_seven_shares_aggregate() {
    // Seven elders, threshold four: five valid shares over a membership
    // proposal combine into a signature that verifies under the master key.
    let sk = sk_set(4, 1);
    let pk_bytes = sk.public_keys().to_bytes();
    let proposal = Proposal::OnlineNode(node_state(30));
    let msg = proposal.encode_payload();

    let mut agg = SignatureAggregator::new(100);
    for signer in 0..4usize {
        let share = sk.secret_key_share(signer).sign(&msg).to_bytes().to_vec();
        let outcome = agg.add_share(&msg, &pk_bytes, signer, &share, 0);
        assert!(matches!(outcome, ShareOutcome::Pending));
    }
    let share = sk.secret_key_share(4usize).sign(&msg).to_bytes().to_vec();
    match agg.add_share(&msg, &pk_bytes, 4, &share, 0) {
        ShareOutcome::Aggregated(signed) => {
            assert!(signed.verify(&msg));
            assert_eq!(
                signed.public_key,
                sk.public_keys().public_key().to_bytes().to_vec()
            );
        },
        _ => panic!("five shares must finish the aggregation"),
    }
    // The collection is discarded with the delivery: nothing is delivered
    // twice for the same identity.
    assert_eq!(agg.len(), 0);
}

#[test]
fn invalid_share_never_counts_and_replay_is_noop() {
    let sk = sk_set(4, 2);
    let other = sk_set(4, 9);
    let pk_bytes = sk.public_keys().to_bytes();
    let msg = Proposal::JoinsAllowed(true).encode_payload();

    let mut agg = SignatureAggregator::new(100);

    // A share signed under the wrong key set is rejected outright.
    let bad = other.secret_key_share(0usize).sign(&msg).to_bytes().to_vec();
    assert!(matches!(
        agg.add_share(&msg, &pk_bytes, 0, &bad, 0),
        ShareOutcome::ShareInvalid
    ));
    assert_eq!(agg.len(), 0);

    // A replayed share from the same signer does not move the count.
    let good = sk.secret_key_share(0usize).sign(&msg).to_bytes().to_vec();
    assert!(matches!(agg.add_share(&msg, &pk_bytes, 0, &good, 0), ShareOutcome::Pending));
    for _ in 0..5 {
        assert!(matches!(
            agg.add_share(&msg, &pk_bytes, 0, &good, 0),
            ShareOutcome::Pending
        ));
    }
    // Four more distinct signers finish it: the replay contributed nothing.
    for signer in 1..4usize {
        let share = sk.secret_key_share(signer).sign(&msg).to_bytes().to_vec();
        assert!(matches!(
            agg.add_share(&msg, &pk_bytes, signer, &share, 0),
            ShareOutcome::Pending
        ));
    }
    let share = sk.secret_key_share(4usize).sign(&msg).to_bytes().to_vec();
    assert!(matches!(
        agg.add_share(&msg, &pk_bytes, 4, &share, 0),
        ShareOutcome::Aggregated(_)
    ));
}

#[test]
fn aggregation_is_order_blind() {
    // The same five shares, fed in two different orders, yield a combined
    // signature both times, and both verify under the master key.
    let sk = sk_set(4, 3);
    let pk_bytes = sk.public_keys().to_bytes();
    let msg = Proposal::JoinsAllowed(false).encode_payload();
    let shares: Vec<Vec<u8>> = (0..5usize)
        .map(|i| sk.secret_key_share(i).sign(&msg).to_bytes().to_vec())
        .collect();

    for order in [[0usize, 1, 2, 3, 4], [4usize, 2, 0, 3, 1]] {
        let mut agg = SignatureAggregator::new(100);
        let mut finished = None;
        for signer in order {
            match agg.add_share(&msg, &pk_bytes, signer, &shares[signer], 0) {
                ShareOutcome::Aggregated(signed) => finished = Some(signed),
                ShareOutcome::Pending => assert!(finished.is_none()),
                ShareOutcome::ShareInvalid => panic!("all shares are valid"),
            }
        }
        let signed = finished.expect("five valid shares must aggregate");
        assert!(signed.verify(&msg));
    }
}

#[test]
fn rogue_key_set_refused() {
    // A key set whose constant coefficient is zero has the identity element
    // as its master key: every share verifies individually, yet nothing
    // could ever verify under the combined key, so the aggregator refuses
    // such shares outright.
    let mut bytes = vec![0u8; 32];
    let mut c = [0u8; 32];
    c[31] = 7;
    bytes.extend_from_slice(&c);
    let rogue = blsttc::SecretKeySet::from_bytes(bytes).expect("a zero constant is a valid poly");
    let pk_bytes = rogue.public_keys().to_bytes();
    let msg = Proposal::JoinsAllowed(true).encode_payload();

    let share = rogue.secret_key_share(0usize).sign(&msg).to_bytes().to_vec();
    // The share itself verifies under its (non-zero) key share.
    assert!(rogue.public_keys().public_key_share(0usize).verify(
        &blsttc::SignatureShare::from_bytes(share.clone().try_into().unwrap()).unwrap(),
        &msg
    ));

    let mut agg = SignatureAggregator::new(100);
    assert!(matches!(
        agg.add_share(&msg, &pk_bytes, 0, &share, 0),
        ShareOutcome::ShareInvalid
    ));
    assert_eq!(agg.len(), 0);
}

#[test]
fn agreed_proposal_lands_in_the_section() {
    // A five-of-seven agreement over an online-member proposal, applied to
    // the section: the member enters the roster exactly once.
    let sk = sk_set(4, 15);
    let pk_bytes = sk.public_keys().to_bytes();
    let mut section = Section::new(seven_elder_sap(&sk, 1));

    let proposal = Proposal::OnlineNode(node_state(36));
    let msg = proposal.encode_payload();
    let mut agg = SignatureAggregator::new(100);
    let mut signed = None;
    for signer in 0..5usize {
        let share = sk.secret_key_share(signer).sign(&msg).to_bytes().to_vec();
        if let ShareOutcome::Aggregated(s) = agg.add_share(&msg, &pk_bytes, signer, &share, 0) {
            signed = Some(s);
        }
    }
    let agreed = SectionSigned { value: proposal, sig: signed.expect("five shares aggregate") };
    let is_new = section.handle_proposal_agreement(&agreed).unwrap();
    assert!(is_new);
    assert_eq!(section.peers().len(), 1);
    let again = section.handle_proposal_agreement(&agreed).unwrap();
    assert!(!again);
    assert_eq!(section.peers().len(), 1);

    // A joins-allowed agreement is accepted and changes no section state.
    let joins = Proposal::JoinsAllowed(false);
    let jmsg = joins.encode_payload();
    let jsig = master_sign(&sk, &jmsg);
    let agreed = SectionSigned { value: joins, sig: jsig };
    assert!(!section.handle_proposal_agreement(&agreed).unwrap());
    assert_eq!(section.peers().len(), 1);
}

#[test]
fn idle_collections_expire() {
    let sk = sk_set(4, 4);
    let pk_bytes = sk.public_keys().to_bytes();
    let msg = Proposal::JoinsAllowed(true).encode_payload();
    let share = sk.secret_key_share(0usize).sign(&msg).to_bytes().to_vec();

    let mut agg = SignatureAggregator::new(10);
    assert!(matches!(agg.add_share(&msg, &pk_bytes, 0, &share, 5), ShareOutcome::Pending));
    assert_eq!(agg.len(), 1);
    agg.prune(14);
    assert_eq!(agg.len(), 1);
    agg.prune(16);
    assert_eq!(agg.len(), 0);
}

#[test]
fn distinct_payloads_have_distinct_bytes() {
    // Canonical bytes bind their payload: different records, proposals and
    // instructions never share an encoding, so a signature over one can
    // never be replayed for another.
    assert_ne!(node_state(1).encode_payload(), node_state(2).encode_payload());
    assert_ne!(
        Proposal::OnlineNode(node_state(1)).encode_payload(),
        Proposal::OfflineNode(node_state(1)).encode_payload()
    );
    assert_ne!(
        Proposal::JoinsAllowed(true).encode_payload(),
        Proposal::JoinsAllowed(false).encode_payload()
    );
    let sk = sk_set(1, 29);
    assert_ne!(
        seven_elder_sap(&sk, 1).encode_payload(),
        seven_elder_sap(&sk, 2).encode_payload()
    );
}

#[test]
fn tampered_section_signed_fails() {
    // An untampered value verifies; tampering with the payload or with the
    // signature makes verification fail.
    let sk = sk_set(4, 5);
    let node = node_state(31);
    let bytes = node.encode_payload();
    let sig = master_sign(&sk, &bytes);

    let good = SectionSigned { value: node, sig };
    assert!(good.verify());

    let mut tampered_payload = SectionSigned {
        value: node_state(32),
        sig: good.sig.clone(),
    };
    assert!(!tampered_payload.verify());
    tampered_payload.value = node_state(31);
    assert!(tampered_payload.verify());

    let mut broken_sig = SectionSigned { value: node_state(31), sig: good.sig.clone() };
    broken_sig.sig.signature[0] ^= 0xff;
    assert!(!broken_sig.verify());

    let wrong_key = SectionSigned {
        value: node_state(31),
        sig: Signed {
            public_key: sk_set(4, 6).public_keys().public_key().to_bytes().to_vec(),
            signature: good.sig.signature.clone(),
        },
    };
    assert!(!wrong_key.verify());
}

#[test]
fn membership_recorded_exactly_once() {
    // An agreed member record signed by the section key enters the roster
    // exactly once, however often the agreement is replayed.
    let sk = sk_set(4, 7);
    let sap = seven_elder_sap(&sk, 1);
    let mut section = Section::new(sap);

    let node = node_state(33);
    let bytes = node.encode_payload();
    let agreed = SectionSigned { value: node, sig: master_sign(&sk, &bytes) };

    let is_new = section.handle_node_agreement(&agreed).unwrap();
    assert!(is_new);
    assert_eq!(section.peers().len(), 1);

    let again = SectionSigned { value: node_state(33), sig: agreed.sig.clone() };
    let is_new = section.handle_node_agreement(&again).unwrap();
    assert!(!is_new);
    assert_eq!(section.peers().len(), 1);

    // A record signed by a stranger's key is refused and changes nothing.
    let stranger = sk_set(4, 8);
    let foreign = SectionSigned {
        value: node_state(34),
        sig: master_sign(&stranger, &node_state(34).encode_payload()),
    };
    assert!(section.handle_node_agreement(&foreign).is_err());
    assert_eq!(section.peers().len(), 1);
}

#[test]
fn authority_replaced_only_with_continuity() {
    // A successor record is accepted only when the previous key signed it
    // with a strictly newer generation; of two rivals for the same
    // generation, only the first can enter.
    let old_keys = sk_set(4, 10);
    let new_keys = sk_set(4, 11);
    let rival_keys = sk_set(4, 12);

    let mut section = Section::new(seven_elder_sap(&old_keys, 1));

    let successor = seven_elder_sap(&new_keys, 2);
    let successor_bytes = successor.encode_payload();
    let signed_successor = SectionSigned {
        value: successor,
        sig: master_sign(&old_keys, &successor_bytes),
    };

    // A rival for the same generation, also signed by the old key.
    let rival = seven_elder_sap(&rival_keys, 2);
    let rival_bytes = rival.encode_payload();
    let signed_rival = SectionSigned { value: rival, sig: master_sign(&old_keys, &rival_bytes) };

    // A record without a valid continuity signature is never accepted.
    let unsigned = seven_elder_sap(&new_keys, 2);
    let forged = SectionSigned {
        value: unsigned,
        sig: master_sign(&rival_keys, &signed_successor.value.encode_payload()),
    };
    assert!(matches!(section.update_authority(&forged), Err(Error::InvalidSignature)));

    // A stale generation is refused.
    let stale = seven_elder_sap(&new_keys, 1);
    let stale_bytes = stale.encode_payload();
    let signed_stale = SectionSigned { value: stale, sig: master_sign(&old_keys, &stale_bytes) };
    assert!(matches!(section.update_authority(&signed_stale), Err(Error::StaleGeneration)));

    // The first valid successor enters.
    section.update_authority(&signed_successor).unwrap();
    assert_eq!(section.authority().generation(), 2);

    // The rival, though signed by the superseded key, is now stale: the two
    // concurrent rounds never both enter.
    assert!(section.update_authority(&signed_rival).is_err());
    assert_eq!(section.authority().generation(), 2);
}

#[test]
fn dkg_session_concludes_exactly_once() {
    let key = DkgKey {
        participants: (0..3u8).map(|i| name_with_first_bit(false, i)).collect(),
        generation: 0,
    };
    let mut session = DkgSession::start(key, 100);

    assert!(session.add_contribution(0, vec![1, 2, 3]).unwrap());
    // The same participant cannot contribute twice.
    assert!(!session.add_contribution(0, vec![9]).unwrap());
    // An index outside the candidate set is refused.
    assert!(session.add_contribution(7, vec![4]).is_err());
    assert!(session.add_contribution(1, vec![4]).unwrap());
    assert!(!session.is_complete());
    // Success needs every contribution in.
    assert!(session.conclude_success(sk_set(1, 13).public_keys().to_bytes()).is_err());
    assert!(session.add_contribution(2, vec![5]).unwrap());
    assert!(session.is_complete());

    // Bytes that encode no key set cannot conclude a round.
    assert!(matches!(
        session.conclude_success(vec![1, 2, 3]),
        Err(Error::InvalidKeySet)
    ));

    session.conclude_success(sk_set(1, 13).public_keys().to_bytes()).unwrap();
    assert!(matches!(session.outcome(), Some(DkgOutcome::Succeeded(_))));
    // Once concluded, neither outcome can be recorded again: never both.
    assert!(session.conclude_failure().is_err());
    assert!(session.conclude_success(sk_set(1, 14).public_keys().to_bytes()).is_err());
    assert!(session.add_contribution(1, vec![6]).is_err());
}

#[test]
fn dkg_failure_quorum() {
    let participants: Vec<Name> = (0..3u8).map(|i| name_with_first_bit(false, i)).collect();
    let key = DkgKey { participants, generation: 1 };

    // Each participant holds an individual key pair here.
    let voter_sks: Vec<blsttc::SecretKeySet> = (0..3u8).map(|i| sk_set(0, 20 + i)).collect();
    let voter_keys: Vec<Vec<u8>> = voter_sks
        .iter()
        .map(|sk| sk.public_keys().public_key().to_bytes().to_vec())
        .collect();

    // What a failure vote signs: the failure bytes of this round.
    let mut failure_bytes = vec![4u8];
    let mut enc = {
        let mut out = Vec::new();
        let again = DkgKey {
            participants: (0..3u8).map(|i| name_with_first_bit(false, i)).collect(),
            generation: 1,
        };
        again.write(&mut out);
        out
    };
    failure_bytes.append(&mut enc);

    let mut set = DkgFailureSet::new(key);
    assert!(!set.has_quorum());

    let vote0 = DkgFailureSigned {
        participant: 0,
        signature: voter_sks[0].secret_key().sign(&failure_bytes).to_bytes().to_vec(),
    };
    assert!(set.add_vote(&vote0, &voter_keys));
    // A repeated voter and a bad signature change nothing.
    assert!(!set.add_vote(&vote0, &voter_keys));
    let bad = DkgFailureSigned {
        participant: 1,
        signature: voter_sks[2].secret_key().sign(&failure_bytes).to_bytes().to_vec(),
    };
    assert!(!set.add_vote(&bad, &voter_keys));
    assert!(!set.has_quorum());

    let vote1 = DkgFailureSigned {
        participant: 1,
        signature: voter_sks[1].secret_key().sign(&failure_bytes).to_bytes().to_vec(),
    };
    assert!(set.add_vote(&vote1, &voter_keys));
    // Two of three is exactly two thirds, not past it.
    assert!(!set.has_quorum());

    let vote2 = DkgFailureSigned {
        participant: 2,
        signature: voter_sks[2].secret_key().sign(&failure_bytes).to_bytes().to_vec(),
    };
    assert!(set.add_vote(&vote2, &voter_keys));
    // All three is more than two thirds: the round is abandoned.
    assert!(set.has_quorum());
}
