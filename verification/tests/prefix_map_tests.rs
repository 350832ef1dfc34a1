//! Tests of the pruning prefix map.

use section_trust::network::KnowledgeRecord;
use section_trust::prefix::Prefix;
use section_trust::prefix_map::PrefixMap;
use section_trust::proven::{Proof, Proven};
use section_trust::xor_name::XorName;

fn prefix_from_bits(bits: &[bool]) -> Prefix {
    let mut p = Prefix::empty();
    for &b in bits {
        p = p.pushed(b);
    }
    p
}

fn entry(bits: &[bool], index: u64) -> Proven<KnowledgeRecord> {
    Proven::new(
        KnowledgeRecord { prefix: prefix_from_bits(bits), index },
        Proof::new(Vec::new(), Vec::new()),
    )
}

fn name_from_lead(byte: u8) -> XorName {
    let mut bytes = vec![0u8; 32];
    bytes[0] = byte;
    XorName::new(bytes)
}

#[test]
fn insert_prunes_covered_parent() {
    // inserting both children of a prefix removes the entry at the
    // prefix itself
    let mut map: PrefixMap<Proven<KnowledgeRecord>> = PrefixMap::new();
    assert!(map.insert(entry(&[false], 1)).is_none());
    assert!(map.get(&prefix_from_bits(&[false])).is_some());
    assert!(map.insert(entry(&[false, false], 2)).is_none());
    // the parent is still there: one child does not cover it
    assert!(map.get(&prefix_from_bits(&[false])).is_some());
    assert!(map.insert(entry(&[false, true], 3)).is_none());
    // now both children are present and the parent is gone
    assert!(map.get(&prefix_from_bits(&[false])).is_none());
    assert_eq!(map.len(), 2);
    assert_eq!(map.get(&prefix_from_bits(&[false, false])).unwrap().value.index, 2);
    assert_eq!(map.get(&prefix_from_bits(&[false, true])).unwrap().value.index, 3);
}

#[test]
fn insert_replaces_same_prefix() {
    let mut map: PrefixMap<Proven<KnowledgeRecord>> = PrefixMap::new();
    assert!(map.insert(entry(&[true], 1)).is_none());
    let old = map.insert(entry(&[true], 9));
    assert_eq!(old.unwrap().value.index, 1);
    assert_eq!(map.len(), 1);
    assert_eq!(map.get(&prefix_from_bits(&[true])).unwrap().value.index, 9);
}

#[test]
fn insert_rejects_when_descendant_present() {
    let mut map: PrefixMap<Proven<KnowledgeRecord>> = PrefixMap::new();
    assert!(map.insert(entry(&[true, false], 1)).is_none());
    // inserting the ancestor is a no-op: more specific knowledge wins
    let rejected = map.insert(entry(&[true], 7));
    assert_eq!(rejected.unwrap().value.index, 7);
    assert_eq!(map.len(), 1);
    assert!(map.get(&prefix_from_bits(&[true])).is_none());
}

#[test]
fn get_matching_returns_most_specific() {
    let mut map: PrefixMap<Proven<KnowledgeRecord>> = PrefixMap::new();
    assert!(map.insert(entry(&[true], 1)).is_none());
    assert!(map.insert(entry(&[true, true], 2)).is_none());
    // 0b11... matches both stored prefixes; the longer one wins
    let found = map.get_matching(&name_from_lead(0b1100_0000)).unwrap();
    assert_eq!(found.value.index, 2);
    assert_eq!(found.value.prefix.bit_count(), 2);
    // 0b10... matches only the one-bit prefix
    let found = map.get_matching(&name_from_lead(0b1000_0000)).unwrap();
    assert_eq!(found.value.index, 1);
    // nothing matches the other half of the space
    assert!(map.get_matching(&name_from_lead(0)).is_none());
    // the two matching prefixes are nested, never overlapping siblings
    let p1 = prefix_from_bits(&[true]);
    let p11 = prefix_from_bits(&[true, true]);
    assert!(p11.is_extension_of(&p1));
}

#[test]
fn get_equal_or_ancestor_walks_up() {
    let mut map: PrefixMap<Proven<KnowledgeRecord>> = PrefixMap::new();
    assert!(map.insert(entry(&[true], 1)).is_none());
    let deep = prefix_from_bits(&[true, false, true]);
    let found = map.get_equal_or_ancestor(&deep).unwrap();
    assert_eq!(found.value.index, 1);
    let elsewhere = prefix_from_bits(&[false, false]);
    assert!(map.get_equal_or_ancestor(&elsewhere).is_none());
}

#[test]
fn remove_takes_out_exact_prefix() {
    let mut map: PrefixMap<Proven<KnowledgeRecord>> = PrefixMap::new();
    assert!(map.insert(entry(&[true], 1)).is_none());
    assert!(map.remove(&prefix_from_bits(&[true, true])).is_none());
    let removed = map.remove(&prefix_from_bits(&[true])).unwrap();
    assert_eq!(removed.value.index, 1);
    assert_eq!(map.len(), 0);
}

#[test]
fn iteration_and_descendants() {
    let mut map: PrefixMap<Proven<KnowledgeRecord>> = PrefixMap::new();
    assert!(map.insert(entry(&[false, false], 1)).is_none());
    assert!(map.insert(entry(&[true], 2)).is_none());
    assert_eq!(map.iter().len(), 2);
    assert_eq!(map.prefixes().len(), 2);
    let p0 = prefix_from_bits(&[false]);
    let ds = map.descendants(&p0);
    assert_eq!(ds.len(), 1);
    assert_eq!(ds[0].value.index, 1);
    let mut it = map.into_iter();
    let mut seen: usize = 0;
    while let Some(e) = it.next() {
        assert!(e.value.index == 1 || e.value.index == 2);
        seen += 1;
    }
    assert_eq!(seen, 2);
}
