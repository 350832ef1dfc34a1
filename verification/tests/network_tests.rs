//! Tests of the knowledge kept about other sections.

use section_trust::elders_info::EldersInfo;
use section_trust::member_info::Peer;
use section_trust::network::{KnowledgeRecord, Network, SectionKeyRecord};
use section_trust::prefix::Prefix;
use section_trust::proven::{Proof, Proven};
use section_trust::xor_name::XorName;

fn prefix_from_bits(bits: &[bool]) -> Prefix {
    let mut p = Prefix::empty();
    for &b in bits {
        p = p.pushed(b);
    }
    p
}

fn name_from_lead(byte: u8) -> XorName {
    let mut bytes = vec![0u8; 32];
    bytes[0] = byte;
    XorName::new(bytes)
}

fn neighbour(bits: &[bool], elder_lead: u8) -> Proven<EldersInfo> {
    let info = EldersInfo::new(
        vec![Peer::new(name_from_lead(elder_lead), 6)],
        prefix_from_bits(bits),
    );
    Proven::new(info, Proof::new(Vec::new(), Vec::new()))
}

fn key_record(bits: &[bool], lead: u8) -> Proven<SectionKeyRecord> {
    Proven::new(
        SectionKeyRecord { prefix: prefix_from_bits(bits), key: vec![lead; 4] },
        Proof::new(Vec::new(), Vec::new()),
    )
}

#[test]
fn empty_network_answers_nothing() {
    let network = Network::new();
    assert!(network.all().is_empty());
    assert!(network.closest(&name_from_lead(0)).is_none());
    assert!(network.key_by_name(&name_from_lead(0)).is_none());
    let (key, info) = network.section_by_name(&name_from_lead(0));
    assert!(key.is_none());
    assert!(info.is_none());
}

#[test]
fn closest_picks_nearest_prefix() {
    let mut network = Network::new();
    assert!(network.neighbours.insert(neighbour(&[false, false], 10)).is_none());
    assert!(network.neighbours.insert(neighbour(&[false, true], 11)).is_none());
    assert!(network.neighbours.insert(neighbour(&[true], 12)).is_none());
    assert_eq!(network.all().len(), 3);

    // names on the one half go to the one-prefix section even though
    // none of the prefixes match exactly
    let hit = network.closest(&name_from_lead(0b1100_0000)).unwrap();
    assert!(hit.prefix.equals(&prefix_from_bits(&[true])));
    let hit = network.closest(&name_from_lead(0b0100_0000)).unwrap();
    assert!(hit.prefix.equals(&prefix_from_bits(&[false, true])));
    let hit = network.closest(&name_from_lead(0b0000_0000)).unwrap();
    assert!(hit.prefix.equals(&prefix_from_bits(&[false, false])));
}

#[test]
fn key_lookups_use_longest_matching_prefix() {
    let mut network = Network::new();
    assert!(network.keys.insert(key_record(&[true], 1)).is_none());
    assert!(network.keys.insert(key_record(&[true, true], 2)).is_none());

    let key = network.key_by_name(&name_from_lead(0b1100_0000)).unwrap();
    assert_eq!(key, &vec![2u8; 4]);
    let key = network.key_by_name(&name_from_lead(0b1000_0000)).unwrap();
    assert_eq!(key, &vec![1u8; 4]);
    assert!(network.key_by_name(&name_from_lead(0)).is_none());
}

#[test]
fn section_by_name_returns_both_parts() {
    let mut network = Network::new();
    assert!(network.neighbours.insert(neighbour(&[true], 9)).is_none());
    assert!(network.keys.insert(key_record(&[true], 7)).is_none());
    let (key, info) = network.section_by_name(&name_from_lead(0b1000_0000));
    assert_eq!(key.unwrap(), vec![7u8; 4]);
    assert!(info.unwrap().prefix.equals(&prefix_from_bits(&[true])));
    let (key, info) = network.section_by_name(&name_from_lead(0));
    assert!(key.is_none());
    assert!(info.is_none());
}

#[test]
fn knowledge_records_prune_like_any_prefix_map() {
    let mut network = Network::new();
    let record = |bits: &[bool], index| {
        Proven::new(
            KnowledgeRecord { prefix: prefix_from_bits(bits), index },
            Proof::new(Vec::new(), Vec::new()),
        )
    };
    assert!(network.knowledge.insert(record(&[false], 1)).is_none());
    assert!(network.knowledge.insert(record(&[false, false], 2)).is_none());
    assert!(network.knowledge.insert(record(&[false, true], 3)).is_none());
    assert!(network.knowledge.get(&prefix_from_bits(&[false])).is_none());
    assert_eq!(network.knowledge.len(), 2);
}
