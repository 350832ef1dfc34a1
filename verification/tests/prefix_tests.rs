//! Tests of names and prefixes.

use section_trust::prefix::Prefix;
use section_trust::xor_name::XorName;

fn name_from_lead(byte: u8) -> XorName {
    let mut bytes = vec![0u8; 32];
    bytes[0] = byte;
    XorName::new(bytes)
}

fn prefix_from_bits(bits: &[bool]) -> Prefix {
    let mut p = Prefix::empty();
    for &b in bits {
        p = p.pushed(b);
    }
    p
}

#[test]
fn name_bits() {
    let name = name_from_lead(0b1010_0000);
    assert!(name.bit(0));
    assert!(!name.bit(1));
    assert!(name.bit(2));
    assert!(!name.bit(3));
    assert!(!name.bit(8));
    let same = name_from_lead(0b1010_0000);
    let other = name_from_lead(0b1010_0001);
    assert!(name.equals(&same));
    assert!(!name.equals(&other));
}

#[test]
fn prefix_construction() {
    let name = name_from_lead(0b1100_0000);
    let p = Prefix::new(3, &name);
    assert_eq!(p.bit_count(), 3);
    assert!(!p.is_empty());
    assert!(p.equals(&prefix_from_bits(&[true, true, false])));
    // the bit count is capped at the address width
    let long = Prefix::new(1000, &name);
    assert_eq!(long.bit_count(), 256);
    // popping and pushing bits
    let popped = p.popped();
    assert!(popped.equals(&prefix_from_bits(&[true, true])));
    assert!(Prefix::empty().popped().is_empty());
    // pushing onto a full-width prefix changes nothing
    let full = Prefix::new(256, &name);
    let still_full = full.pushed(true);
    assert_eq!(still_full.bit_count(), 256);
    assert!(still_full.equals(&full));
}

#[test]
fn prefix_name_is_lower_bound() {
    let p = prefix_from_bits(&[true, false, true]);
    let name = p.name();
    assert_eq!(name.0[0], 0b1010_0000);
    for i in 1..32 {
        assert_eq!(name.0[i], 0);
    }
}

#[test]
fn prefix_matches_names() {
    let p = prefix_from_bits(&[true, false]);
    assert!(p.matches(&name_from_lead(0b1000_0000)));
    assert!(p.matches(&name_from_lead(0b1011_1111)));
    assert!(!p.matches(&name_from_lead(0b1100_0000)));
    assert!(Prefix::empty().matches(&name_from_lead(0xff)));
}

#[test]
fn prefix_relations() {
    let p0 = prefix_from_bits(&[false]);
    let p00 = prefix_from_bits(&[false, false]);
    let p01 = prefix_from_bits(&[false, true]);
    let p1 = prefix_from_bits(&[true]);
    assert!(p00.is_extension_of(&p0));
    assert!(!p0.is_extension_of(&p00));
    assert!(!p00.is_extension_of(&p00));
    assert!(!p01.is_extension_of(&p00));
    assert!(p0.is_compatible(&p00));
    assert!(p00.is_compatible(&p0));
    assert!(!p00.is_compatible(&p01));
    assert!(!p0.is_compatible(&p1));
}

#[test]
fn prefix_coverage() {
    let p0 = prefix_from_bits(&[false]);
    let p00 = prefix_from_bits(&[false, false]);
    let p01 = prefix_from_bits(&[false, true]);
    let p1 = prefix_from_bits(&[true]);
    // both children cover their parent
    assert!(p0.is_covered_by(&vec![p00.duplicate(), p01.duplicate()]));
    // one child alone does not
    assert!(!p0.is_covered_by(&vec![p00.duplicate()]));
    // an ancestor covers its descendant
    assert!(p00.is_covered_by(&vec![p0.duplicate()]));
    // a disjoint prefix covers nothing here
    assert!(!p0.is_covered_by(&vec![p1.duplicate()]));
    // deeper split still covers: 00, 010, 011 cover 0
    let p010 = prefix_from_bits(&[false, true, false]);
    let p011 = prefix_from_bits(&[false, true, true]);
    assert!(p0.is_covered_by(&vec![p00.duplicate(), p010, p011]));
}

#[test]
fn prefix_distance_ordering() {
    let target = name_from_lead(0b1100_0000);
    let close = prefix_from_bits(&[true, true]);
    let far = prefix_from_bits(&[false]);
    assert_eq!(close.cmp_distance(&far, &target), core::cmp::Ordering::Less);
    assert_eq!(far.cmp_distance(&close, &target), core::cmp::Ordering::Greater);
    // overlapping prefixes order by bit count for determinism
    let shorter = prefix_from_bits(&[true]);
    assert_eq!(shorter.cmp_distance(&close, &target), core::cmp::Ordering::Less);
    assert_eq!(close.cmp_distance(&close, &target), core::cmp::Ordering::Equal);
}
