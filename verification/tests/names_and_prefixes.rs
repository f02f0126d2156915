//! Names, prefixes, the routing table's partition behaviour, and the data
//! manager's ledger.

use sha3::{Digest, Sha3_256};
use sn_routing::data_manager::DataManagerDatabase;
use sn_routing::error::Error;
use sn_routing::name::Name;
use sn_routing::prefix::Prefix;
use sn_routing::prefix_map::PrefixMap;
use sn_routing::section::{NetAddr, Peer, SectionAuthorityProvider};

fn name_from_seed(seed: u8) -> Name {
    let bytes: Vec<u8> = (0..32u8).map(|i| seed.wrapping_mul(37).wrapping_add(i)).collect();
    Name::from_bytes(&bytes).unwrap()
}

fn name_with_first_bit(first: bool, seed: u8) -> Name {
    let mut bits = vec![false; 256];
    bits[0] = first;
    for i in 1..200 {
        bits[i] = (i * 31 + (seed as usize) * 7 + i / 9) % 5 == 0;
    }
    for b in 0..8 {
        bits[200 + b] = (seed >> b) & 1 == 1;
    }
    Name::from_bits(bits).unwrap()
}

fn data_name(value: &Vec<u8>) -> Name {
    let digest = Sha3_256::digest(value.as_slice()).to_vec();
    Name::from_bytes(&digest).unwrap()
}

fn test_addr(i: u8) -> NetAddr {
    NetAddr { ip: vec![10, 0, 0, i], port: 1000 + i as u16 }
}

fn sk_set(threshold: usize, seed: u8) -> blsttc::SecretKeySet {
    let mut bytes = Vec::new();
    for k in 0..=threshold {
        let mut c = [0u8; 32];
        c[31] = (k as u8) + 1;
        c[30] = seed;
        bytes.extend_from_slice(&c);
    }
    blsttc::SecretKeySet::from_bytes(bytes).unwrap()
}

fn sap_for(first_bit: bool, generation: u64, seed: u8) -> SectionAuthorityProvider {
    let prefix = Prefix::new(vec![first_bit]).unwrap();
    let elders = vec![
        Peer { name: name_with_first_bit(first_bit, seed), addr: test_addr(seed) },
        Peer { name: name_with_first_bit(first_bit, seed.wrapping_add(1)), addr: test_addr(2) },
    ];
    let pk_set = sk_set(1, seed).public_keys().to_bytes();
    SectionAuthorityProvider::new(prefix, elders, pk_set, generation).unwrap()
}

#[test]
fn prefix_matching_and_siblings() {
    let empty = Prefix::empty();
    let n = name_from_seed(9);
    assert!(empty.matches(&n));

    let zero = Prefix::new(vec![false]).unwrap();
    let one = Prefix::new(vec![true]).unwrap();
    let under_zero = name_with_first_bit(false, 3);
    let under_one = name_with_first_bit(true, 3);
    assert!(zero.matches(&under_zero));
    assert!(!zero.matches(&under_one));
    assert!(one.matches(&under_one));
    assert!(!one.matches(&under_zero));

    let sibling = zero.sibling();
    assert!(sibling.equals(&one));
    assert!(zero.overlaps(&empty));
    assert!(!zero.overlaps(&one));

    let too_long = vec![false; 257];
    assert!(matches!(Prefix::new(too_long), Err(Error::MalformedPrefix)));
}

#[test]
fn partition_exactly_one_region_matches() {
    // A table holding the two sibling regions `0` and `1` partitions the
    // whole space: every name falls under exactly one of them.
    let mut map = PrefixMap::new();
    map.insert(sap_for(false, 3, 1)).unwrap();
    map.insert(sap_for(true, 3, 7)).unwrap();
    assert_eq!(map.len(), 2);

    for seed in 0..20u8 {
        for first in [false, true] {
            let n = name_with_first_bit(first, seed);
            let hit = map.section_by_name(&n).expect("the space is covered");
            let mut matching = 0;
            for i in 0..map.len() {
                if map.get_at(i).prefix().matches(&n) {
                    matching += 1;
                }
            }
            assert_eq!(matching, 1);
            assert!(hit.prefix().matches(&n));
        }
    }
}

#[test]
fn stale_generation_rejected_newer_replaces() {
    // Holding generation 3 for region `0`, an update at generation 2 is
    // stale and refused; generation 4 replaces the record.
    let mut map = PrefixMap::new();
    map.insert(sap_for(false, 3, 1)).unwrap();
    map.insert(sap_for(true, 3, 7)).unwrap();

    let stale = sap_for(false, 2, 4);
    assert!(matches!(map.insert(stale), Err(Error::StaleGeneration)));
    assert_eq!(map.len(), 2);

    let newer = sap_for(false, 4, 5);
    map.insert(newer).unwrap();
    assert_eq!(map.len(), 2);
    let n = name_with_first_bit(false, 2);
    let hit = map.section_by_name(&n).unwrap();
    assert_eq!(hit.generation(), 4);
    let other = map.section_by_name(&name_with_first_bit(true, 2)).unwrap();
    assert_eq!(other.generation(), 3);
}

#[test]
fn closest_sections_orders_by_distance() {
    let mut map = PrefixMap::new();
    map.insert(sap_for(false, 3, 1)).unwrap();
    map.insert(sap_for(true, 3, 7)).unwrap();

    let under_zero = name_with_first_bit(false, 11);
    let closest = map.closest_sections(&under_zero, 2);
    assert_eq!(closest.len(), 2);
    // The region the name belongs to is the nearer of the two.
    assert!(closest[0].prefix().matches(&under_zero));
    let only_one = map.closest_sections(&under_zero, 1);
    assert_eq!(only_one.len(), 1);
    assert!(only_one[0].prefix().matches(&under_zero));
}

#[test]
fn exist() {
    let mut db = DataManagerDatabase::new();
    let value: Vec<u8> = (0..1024u32).map(|i| (i % 251) as u8).collect();
    let mut pmid_nodes: Vec<Name> = vec![];

    for i in 0..4u8 {
        pmid_nodes.push(name_from_seed(i.wrapping_add(40)));
    }

    let data_name = data_name(&value);
    assert_eq!(db.exist(&data_name), false);
    db.put_pmid_nodes(&data_name, pmid_nodes);
    assert_eq!(db.exist(&data_name), true);
}

#[test]
fn put() {
    let mut db = DataManagerDatabase::new();
    let value: Vec<u8> = (0..1024u32).map(|i| (i % 241) as u8).collect();
    let data_name = data_name(&value);
    let mut pmid_nodes: Vec<Name> = vec![];

    for i in 0..4u8 {
        pmid_nodes.push(name_from_seed(i.wrapping_add(80)));
    }

    let result = db.get_pmid_nodes(&data_name);
    assert_eq!(result.len(), 0);

    db.put_pmid_nodes(&data_name, pmid_nodes.clone());

    let result = db.get_pmid_nodes(&data_name);
    assert_eq!(result.len(), pmid_nodes.len());
}

#[test]
fn remove_pmid() {
    let mut db = DataManagerDatabase::new();
    let value: Vec<u8> = (0..1024u32).map(|i| (i % 239) as u8).collect();
    let data_name = data_name(&value);
    let mut pmid_nodes: Vec<Name> = vec![];

    for i in 0..4u8 {
        pmid_nodes.push(name_from_seed(i.wrapping_add(120)));
    }

    db.put_pmid_nodes(&data_name, pmid_nodes.clone());
    let result = db.get_pmid_nodes(&data_name);
    assert_eq!(result, pmid_nodes);

    db.remove_pmid_node(&data_name, pmid_nodes[0].clone());

    let result = db.get_pmid_nodes(&data_name);
    assert_eq!(result.len(), 3);
    for index in 0..result.len() {
        assert!(result[index] != pmid_nodes[0]);
    }
}

#[test]
fn replace_pmids() {
    let mut db = DataManagerDatabase::new();
    let value: Vec<u8> = (0..1024u32).map(|i| (i % 233) as u8).collect();
    let data_name = data_name(&value);
    let mut pmid_nodes: Vec<Name> = vec![];
    let mut new_pmid_nodes: Vec<Name> = vec![];

    for i in 0..4u8 {
        pmid_nodes.push(name_from_seed(i.wrapping_add(160)));
        new_pmid_nodes.push(name_from_seed(i.wrapping_add(200)));
    }

    db.put_pmid_nodes(&data_name, pmid_nodes.clone());
    let result = db.get_pmid_nodes(&data_name);
    assert_eq!(result, pmid_nodes);
    assert!(result != new_pmid_nodes);

    for index in 0..4 {
        db.remove_pmid_node(&data_name, pmid_nodes[index].clone());
        db.add_pmid_node(&data_name, new_pmid_nodes[index].clone());
    }

    let result = db.get_pmid_nodes(&data_name);
    assert_eq!(result, new_pmid_nodes);
    assert!(result != pmid_nodes);
}

#[test]
fn retrieve_all_and_reset_hands_out_orders() {
    let mut db = DataManagerDatabase::new();
    let chunk = name_from_seed(5);
    let holders = vec![name_from_seed(50), name_from_seed(51)];
    db.put_pmid_nodes(&chunk, holders);

    let mut close_group = vec![
        name_from_seed(60),
        name_from_seed(61),
        name_from_seed(62),
        name_from_seed(63),
    ];
    let actions = db.retrieve_all_and_reset(&mut close_group);

    // One order per record and close node; the ledger is empty afterwards.
    assert_eq!(actions.len(), 4);
    assert_eq!(db.len(), 0);
    assert_eq!(close_group.len(), 4);
    for action in &actions {
        let sn_routing::data_manager::NodeAction::Put { destination, content } = action;
        assert!(close_group.iter().any(|n| n == destination));
        assert_eq!(content.type_tag, 1);
        assert!(content.name == chunk);
        assert!(!content.content.is_empty());
    }
}
