//! Tests of the key-generation session identifier.

use section_trust::dkg::DkgKey;
use section_trust::elders_info::EldersInfo;
use section_trust::member_info::Peer;
use section_trust::messages::{NodeMessage, NodeTransferQuery};
use section_trust::prefix::Prefix;
use section_trust::relocation::{RelocateDetails, RelocatePromise};
use section_trust::xor_name::XorName;

fn name_from_lead(byte: u8) -> XorName {
    let mut bytes = vec![0u8; 32];
    bytes[0] = byte;
    XorName::new(bytes)
}

fn elders_with_age(age: u8) -> EldersInfo {
    EldersInfo::new(vec![Peer::new(name_from_lead(5), age)], Prefix::empty())
}

#[test]
fn dkg_key_is_deterministic() {
    let a = DkgKey::new(&elders_with_age(6));
    let b = DkgKey::new(&elders_with_age(6));
    assert_eq!(a.0, b.0);
    assert_eq!(a.0.len(), 32);
}

#[test]
fn dkg_key_is_affected_by_ages() {
    let a = DkgKey::new(&elders_with_age(6));
    let b = DkgKey::new(&elders_with_age(7));
    assert_ne!(a.0, b.0);
}

#[test]
fn dkg_key_is_affected_by_prefix() {
    let base = elders_with_age(6);
    let shifted = EldersInfo::new(
        vec![Peer::new(name_from_lead(5), 6)],
        Prefix::new(1, &name_from_lead(0)),
    );
    let a = DkgKey::new(&base);
    let b = DkgKey::new(&shifted);
    assert_ne!(a.0, b.0);
}

#[test]
fn plain_shells_carry_their_values() {
    let msg = NodeMessage::new(vec![1, 2, 3]);
    assert_eq!(msg.0, vec![1, 2, 3]);
    let query = NodeTransferQuery::GetReplicaEvents;
    assert_eq!(query, NodeTransferQuery::GetReplicaEvents);
    let details = RelocateDetails {
        pub_id: name_from_lead(1),
        destination: name_from_lead(2),
        destination_key: vec![4, 5],
        age: 6,
    };
    assert!(details.pub_id.equals(&name_from_lead(1)));
    assert_eq!(details.age, 6);
    let promise = RelocatePromise { name: name_from_lead(1), destination: name_from_lead(2) };
    assert!(promise.destination.equals(&name_from_lead(2)));
}
