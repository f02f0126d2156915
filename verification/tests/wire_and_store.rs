//! The wire envelope: serializing, parsing back, validating the source
//! authority and resolving destinations; and the store error translation.

use sn_routing::agreement::Proposal;
use sn_routing::chunks::{BlobRead, MsgEnvelope, Reading};
use sn_routing::dbs;
use sn_routing::dkg::DkgKey;
use sn_routing::error::Error;
use sn_routing::messages::{
    Aggregation, DstLocation, MsgDisposition, RoutingMsg, SrcAuthority, Variant, resolve_dst,
    validate_src,
};
use sn_routing::name::Name;
use sn_routing::prefix::Prefix;
use sn_routing::prefix_map::PrefixMap;
use sn_routing::relocation::RelocateDetails;
use sn_routing::section::{
    MembershipState, NetAddr, NodeState, Peer, SectionAuthorityProvider,
};
use sn_routing::signed::{Payload, SectionSigned, Signed};

fn name_with_first_bit(first: bool, seed: u8) -> Name {
    let mut bits = vec![false; 256];
    bits[0] = first;
    for i in 1..200 {
        bits[i] = (i * 31 + (seed as usize) * 7 + i / 9) % 5 == 0;
    }
    for b in 0..8 {
        bits[200 + b] = (seed >> b) & 1 == 1;
    }
    Name::from_bits(bits).unwrap()
}

fn test_addr(i: u8) -> NetAddr {
    NetAddr { ip: vec![10, 0, 0, i], port: 1000 + i as u16 }
}

fn sk_set(threshold: usize, seed: u8) -> blsttc::SecretKeySet {
    let mut bytes = Vec::new();
    for k in 0..=threshold {
        let mut c = [0u8; 32];
        c[31] = (k as u8) + 1;
        c[30] = seed;
        bytes.extend_from_slice(&c);
    }
    blsttc::SecretKeySet::from_bytes(bytes).unwrap()
}

fn sap_for(first_bit: bool, sk: &blsttc::SecretKeySet, generation: u64) -> SectionAuthorityProvider {
    let prefix = Prefix::new(vec![first_bit]).unwrap();
    let elders = vec![
        Peer { name: name_with_first_bit(first_bit, 1), addr: test_addr(1) },
        Peer { name: name_with_first_bit(first_bit, 2), addr: test_addr(2) },
    ];
    SectionAuthorityProvider::new(prefix, elders, sk.public_keys().to_bytes(), generation).unwrap()
}

fn node_src(sk: &blsttc::SecretKeySet, variant: &Variant) -> SrcAuthority {
    let mut body = Vec::new();
    variant.write(&mut body);
    SrcAuthority::Node {
        name: name_with_first_bit(false, 3),
        public_key: sk.public_keys().public_key().to_bytes().to_vec(),
        signature: sk.secret_key().sign(&body).to_bytes().to_vec(),
    }
}

fn roundtrip(msg: RoutingMsg) {
    let dest = name_with_first_bit(true, 4);
    let dest_pk = sk_set(1, 9).public_keys().public_key().to_bytes().to_vec();
    let wire = msg.serialize(&dest, &dest_pk);
    let back = RoutingMsg::from(wire).expect("a serialized message parses back");
    assert!(back.equals(&msg));
    let rewire = back.serialize(&dest, &dest_pk);
    assert_eq!(msg.serialize(&dest, &dest_pk), rewire);
}

#[test]
fn serialize_then_parse_every_body() {
    let sk = sk_set(1, 1);
    let pk = sk.public_keys().public_key().to_bytes().to_vec();

    let bodies = vec![
        Variant::UserMsg(vec![1, 2, 3, 4]),
        Variant::Propose {
            index: 2,
            share: vec![9; 96],
            proposal: Proposal::OnlineNode(NodeState {
                name: name_with_first_bit(false, 5),
                addr: test_addr(5),
                age: 7,
                state: MembershipState::Relocated(name_with_first_bit(true, 6)),
            }),
        },
        Variant::Propose {
            index: 0,
            share: vec![8; 96],
            proposal: Proposal::JoinsAllowed(true),
        },
        Variant::Propose {
            index: 1,
            share: vec![6; 96],
            proposal: Proposal::SectionInfo(sap_for(false, &sk, 4)),
        },
        Variant::Relocate(SectionSigned {
            value: RelocateDetails {
                previous_name: name_with_first_bit(false, 7),
                destination: name_with_first_bit(true, 7),
                age: 9,
            },
            sig: Signed { public_key: pk.clone(), signature: vec![7; 96] },
        }),
        Variant::DkgStart(DkgKey {
            participants: (0..3u8).map(|i| name_with_first_bit(false, i)).collect(),
            generation: 5,
        }),
    ];

    for variant in bodies {
        let src = node_src(&sk, &variant);
        let msg = RoutingMsg {
            id: 42,
            src,
            dst: DstLocation::ToSection(name_with_first_bit(true, 8)),
            aggregation: Aggregation::AtDestination,
            variant,
            section_pk: pk.clone(),
        };
        roundtrip(msg);
    }
}

#[test]
fn message_equality_ignores_aggregation_only() {
    let sk = sk_set(1, 7);
    let pk = sk.public_keys().public_key().to_bytes().to_vec();
    let variant = Variant::UserMsg(vec![1, 2]);
    let msg = RoutingMsg {
        id: 5,
        src: node_src(&sk, &variant),
        dst: DstLocation::ToNode(name_with_first_bit(false, 9)),
        aggregation: Aggregation::NoAggregation,
        variant,
        section_pk: pk.clone(),
    };
    let variant = Variant::UserMsg(vec![1, 2]);
    let same_but_aggregation = RoutingMsg {
        id: 5,
        src: node_src(&sk, &variant),
        dst: DstLocation::ToNode(name_with_first_bit(false, 9)),
        aggregation: Aggregation::AtDestination,
        variant,
        section_pk: pk.clone(),
    };
    assert!(msg.equals(&same_but_aggregation));

    let variant = Variant::UserMsg(vec![1, 3]);
    let different_body = RoutingMsg {
        id: 5,
        src: node_src(&sk, &variant),
        dst: DstLocation::ToNode(name_with_first_bit(false, 9)),
        aggregation: Aggregation::NoAggregation,
        variant: Variant::UserMsg(vec![1, 3]),
        section_pk: pk,
    };
    assert!(!msg.equals(&different_body));
    let mut other_id = same_but_aggregation;
    other_id.id = 6;
    assert!(!msg.equals(&other_id));
}

#[test]
fn malformed_bytes_fail_to_parse() {
    assert!(matches!(RoutingMsg::from(vec![]), Err(Error::FailedToParse)));
    assert!(matches!(RoutingMsg::from(vec![0u8; 7]), Err(Error::FailedToParse)));

    // A good message with trailing garbage is refused too.
    let sk = sk_set(1, 2);
    let pk = sk.public_keys().public_key().to_bytes().to_vec();
    let variant = Variant::UserMsg(vec![5, 6]);
    let msg = RoutingMsg {
        id: 1,
        src: node_src(&sk, &variant),
        dst: DstLocation::ToNode(name_with_first_bit(false, 9)),
        aggregation: Aggregation::NoAggregation,
        variant,
        section_pk: pk,
    };
    let mut wire = msg.serialize(&name_with_first_bit(true, 4), &vec![1, 2, 3]);
    assert!(RoutingMsg::from(wire.clone()).is_ok());
    wire.push(0);
    assert!(matches!(RoutingMsg::from(wire), Err(Error::FailedToParse)));
}

#[test]
fn node_signed_source_validated() {
    let sk = sk_set(1, 3);
    let pk = sk.public_keys().public_key().to_bytes().to_vec();
    let variant = Variant::UserMsg(vec![1, 1, 2, 3, 5]);
    let map = PrefixMap::new();

    let msg = RoutingMsg {
        id: 2,
        src: node_src(&sk, &variant),
        dst: DstLocation::ToNode(name_with_first_bit(false, 9)),
        aggregation: Aggregation::NoAggregation,
        variant,
        section_pk: pk.clone(),
    };
    assert!(validate_src(&msg, &map));

    // Any change to the body invalidates the carried signature.
    let mut tampered = msg;
    tampered.variant = Variant::UserMsg(vec![1, 1, 2, 3, 6]);
    assert!(!validate_src(&tampered, &map));
}

#[test]
fn section_signed_source_needs_a_trusted_key() {
    let src_keys = sk_set(1, 4);
    let variant = Variant::UserMsg(vec![2, 4, 6]);
    let mut body = Vec::new();
    variant.write(&mut body);

    let master = src_keys.public_keys().public_key().to_bytes().to_vec();
    let signed = Signed {
        public_key: master.clone(),
        signature: src_keys.secret_key().sign(&body).to_bytes().to_vec(),
    };
    let msg = RoutingMsg {
        id: 3,
        src: SrcAuthority::Section {
            prefix: Prefix::new(vec![true]).unwrap(),
            signed,
        },
        dst: DstLocation::ToSection(name_with_first_bit(false, 9)),
        aggregation: Aggregation::AtSource,
        variant,
        section_pk: master,
    };

    // With no record of the source region, the key is trusted by nobody.
    let empty = PrefixMap::new();
    assert!(!validate_src(&msg, &empty));

    // Once the table holds the source section's record, the same message
    // checks out.
    let mut map = PrefixMap::new();
    map.insert(sap_for(true, &src_keys, 1)).unwrap();
    assert!(validate_src(&msg, &map));

    // After the source region's key moves on, the old key is refused.
    map.insert(sap_for(true, &sk_set(1, 5), 2)).unwrap();
    assert!(!validate_src(&msg, &map));
}

#[test]
fn destinations_resolved_against_the_table() {
    let our_prefix = Prefix::new(vec![false]).unwrap();
    let mut map = PrefixMap::new();
    map.insert(sap_for(true, &sk_set(1, 6), 1)).unwrap();

    let local = DstLocation::ToNode(name_with_first_bit(false, 1));
    assert_eq!(resolve_dst(&our_prefix, &map, &local), MsgDisposition::AcceptLocal);

    let neighbour = DstLocation::ToSection(name_with_first_bit(true, 1));
    assert_eq!(resolve_dst(&our_prefix, &map, &neighbour), MsgDisposition::Relay);

    let empty = PrefixMap::new();
    assert_eq!(
        resolve_dst(&our_prefix, &empty, &neighbour),
        MsgDisposition::RejectOutOfSection
    );
}

#[test]
fn store_errors_translate() {
    let n = name_with_first_bit(false, 1);
    assert!(matches!(
        dbs::convert_to_error_message(dbs::Error::NotEnoughSpace),
        dbs::ErrorMessage::FailedToWriteFile
    ));
    assert!(matches!(
        dbs::convert_to_error_message(dbs::Error::DataIdNotFound(n.clone())),
        dbs::ErrorMessage::DataNotFound(_)
    ));
    assert!(matches!(
        dbs::convert_to_error_message(dbs::Error::ChunkNotFound(n.clone())),
        dbs::ErrorMessage::ChunkNotFound(_)
    ));
    assert!(matches!(
        dbs::convert_to_error_message(dbs::Error::DataExists),
        dbs::ErrorMessage::DataExists
    ));
    assert!(matches!(
        dbs::convert_to_error_message(dbs::Error::InvalidStore),
        dbs::ErrorMessage::InvalidOperation(_)
    ));

    // A network-data fault still reports what is missing, and any other
    // fault carries its description through.
    match dbs::convert_to_error_message(dbs::Error::NetworkData(dbs::DataError::NoSuchData(
        n.clone(),
    ))) {
        dbs::ErrorMessage::DataNotFound(found) => assert!(found == n),
        _ => panic!("a missing-data fault reports data-not-found"),
    }
    match dbs::convert_to_error_message(dbs::Error::NetworkData(dbs::DataError::NoSuchChunk(
        n.clone(),
    ))) {
        dbs::ErrorMessage::ChunkNotFound(found) => assert!(found == n),
        _ => panic!("a missing-chunk fault reports chunk-not-found"),
    }
    match dbs::convert_to_error_message(dbs::Error::Io(String::from("disk gone"))) {
        dbs::ErrorMessage::InvalidOperation(text) => assert_eq!(text, "disk gone"),
        _ => panic!("a local fault reports a failed operation"),
    }
}

#[test]
fn chunk_reads_need_a_section_signature() {
    let sk = sk_set(1, 10);
    let payload = vec![3u8, 1, 4, 1, 5];
    let chunk = name_with_first_bit(false, 2);

    let section_sender = SrcAuthority::Section {
        prefix: Prefix::new(vec![false]).unwrap(),
        signed: Signed {
            public_key: sk.public_keys().public_key().to_bytes().to_vec(),
            signature: sk.secret_key().sign(&payload).to_bytes().to_vec(),
        },
    };
    let reading = Reading::new(
        BlobRead::Get(chunk.clone()),
        MsgEnvelope { id: 7, message: payload.clone(), sender: section_sender },
    );
    let grant = reading.get_result().expect("a verified section read is granted");
    assert!(grant.address == chunk);
    assert_eq!(grant.msg_id, 7);

    // A single node's request, and a broken section signature, earn nothing.
    let node_sender = SrcAuthority::Node {
        name: name_with_first_bit(true, 2),
        public_key: sk.public_keys().public_key().to_bytes().to_vec(),
        signature: sk.secret_key().sign(&payload).to_bytes().to_vec(),
    };
    let reading = Reading::new(
        BlobRead::Get(chunk.clone()),
        MsgEnvelope { id: 8, message: payload.clone(), sender: node_sender },
    );
    assert!(reading.get_result().is_none());

    let broken = SrcAuthority::Section {
        prefix: Prefix::new(vec![false]).unwrap(),
        signed: Signed {
            public_key: sk.public_keys().public_key().to_bytes().to_vec(),
            signature: sk.secret_key().sign(&vec![9u8]).to_bytes().to_vec(),
        },
    };
    let reading = Reading::new(
        BlobRead::Get(chunk),
        MsgEnvelope { id: 9, message: payload, sender: broken },
    );
    assert!(reading.get_result().is_none());
}

#[test]
fn neighbour_record_with_key_endorsement() {
    // A sibling-signed record carries the signing key endorsed by a key we
    // trust; both signatures must check out.
    let our_keys = sk_set(1, 7);
    let sibling_keys = sk_set(1, 8);

    let sap = sap_for(true, &sibling_keys, 1);
    let bytes = sap.encode_payload();
    let sibling_master = sibling_keys.public_keys().public_key().to_bytes().to_vec();
    let section_auth = SectionSigned {
        value: sap,
        sig: Signed {
            public_key: sibling_master.clone(),
            signature: sibling_keys.secret_key().sign(&bytes).to_bytes().to_vec(),
        },
    };
    let key_signed = Signed {
        public_key: our_keys.public_keys().public_key().to_bytes().to_vec(),
        signature: our_keys.secret_key().sign(&sibling_master).to_bytes().to_vec(),
    };
    let other = sn_routing::network::OtherSection {
        section_auth,
        key_signed: Some(key_signed),
    };
    assert!(other.verify());

    // An endorsement by an unrelated key fails.
    let forged = sn_routing::network::OtherSection {
        section_auth: other.section_auth,
        key_signed: Some(Signed {
            public_key: sk_set(1, 9).public_keys().public_key().to_bytes().to_vec(),
            signature: our_keys.secret_key().sign(&sibling_master).to_bytes().to_vec(),
        }),
    };
    assert!(!forged.verify());
}
