//! Tests of the section state and its membership ledger, with real BLS
//! signatures.

use section_trust::Error;
use section_trust::elders_info::EldersInfo;
use section_trust::member_info::{MemberInfo, Peer, PeerState};
use section_trust::prefix::Prefix;
use section_trust::proven::{Proof, Proven};
use section_trust::section::Section;
use section_trust::section_proof_chain::SectionProofChain;
use section_trust::xor_name::XorName;

fn keypair() -> (threshold_crypto::SecretKey, Vec<u8>) {
    let sk = threshold_crypto::SecretKey::random();
    let pk_bytes = bincode::serialize(&sk.public_key()).expect("serialize public key");
    (sk, pk_bytes)
}

fn sign(sk: &threshold_crypto::SecretKey, msg: &[u8]) -> Vec<u8> {
    bincode::serialize(&sk.sign(msg)).expect("serialize signature")
}

fn name_from_lead(byte: u8) -> XorName {
    let mut bytes = vec![0u8; 32];
    bytes[0] = byte;
    XorName::new(bytes)
}

fn prefix_from_bits(bits: &[bool]) -> Prefix {
    let mut p = Prefix::empty();
    for &b in bits {
        p = p.pushed(b);
    }
    p
}

fn proven_elders(
    sk: &threshold_crypto::SecretKey,
    pk_bytes: &[u8],
    elders: Vec<Peer>,
    prefix: Prefix,
) -> Proven<EldersInfo> {
    let info = EldersInfo::new(elders, prefix);
    let signature = sign(sk, &info.encode());
    Proven::new(info, Proof::new(pk_bytes.to_vec(), signature))
}

fn proven_member(
    sk: &threshold_crypto::SecretKey,
    pk_bytes: &[u8],
    name: XorName,
    age: u8,
    state: PeerState,
) -> Proven<MemberInfo> {
    let info = MemberInfo { peer: Peer::new(name, age), state };
    let signature = sign(sk, &info.encode());
    Proven::new(info, Proof::new(pk_bytes.to_vec(), signature))
}

#[test]
fn new_rejects_unknown_signing_key() {
    let (sk0, pk0) = keypair();
    let (_stranger_sk, stranger_pk) = keypair();
    let chain = SectionProofChain::new(pk0.clone());
    let elders = proven_elders(&sk0, &stranger_pk, Vec::new(), Prefix::empty());
    match Section::new(chain, elders) {
        Err(e) => assert_eq!(e, Error::InvalidMessage),
        Ok(_) => panic!("a key absent from the chain must be rejected"),
    }
    let chain = SectionProofChain::new(pk0.clone());
    let elders = proven_elders(&sk0, &pk0, Vec::new(), Prefix::empty());
    assert!(Section::new(chain, elders).is_ok());
}

#[test]
fn update_member_requires_chain_key_and_valid_signature() {
    let (sk0, pk0) = keypair();
    let chain = SectionProofChain::new(pk0.clone());
    let elders = proven_elders(&sk0, &pk0, Vec::new(), Prefix::empty());
    let mut section = Section::new(chain, elders).expect("section");

    // attested by a key the chain does not hold: dropped
    let (stranger_sk, stranger_pk) = keypair();
    let bad = proven_member(&stranger_sk, &stranger_pk, name_from_lead(1), 5, PeerState::Joined);
    assert!(!section.update_member(bad));

    // wrong signature under a known key: dropped
    let mut forged = proven_member(&sk0, &pk0, name_from_lead(1), 5, PeerState::Joined);
    forged.proof.signature = sign(&stranger_sk, b"other payload");
    assert!(!section.update_member(forged));

    // properly attested: adopted
    let good = proven_member(&sk0, &pk0, name_from_lead(1), 5, PeerState::Joined);
    assert!(section.update_member(good));
}

#[test]
fn membership_lattice() {
    // a repeated joined record is rejected the second time; a joined
    // member may leave; re-joining after leaving is rejected even with
    // a greater age
    let (sk0, pk0) = keypair();
    let chain = SectionProofChain::new(pk0.clone());
    let elders = proven_elders(&sk0, &pk0, Vec::new(), Prefix::empty());
    let mut section = Section::new(chain, elders).expect("section");

    let joined5 = proven_member(&sk0, &pk0, name_from_lead(42), 5, PeerState::Joined);
    assert!(section.update_member(joined5));
    let joined5_again = proven_member(&sk0, &pk0, name_from_lead(42), 5, PeerState::Joined);
    assert!(!section.update_member(joined5_again));

    // a strictly greater age moves forward
    let joined6 = proven_member(&sk0, &pk0, name_from_lead(42), 6, PeerState::Joined);
    assert!(section.update_member(joined6));
    // an age regression is rejected
    let joined4 = proven_member(&sk0, &pk0, name_from_lead(42), 4, PeerState::Joined);
    assert!(!section.update_member(joined4));

    let left = proven_member(&sk0, &pk0, name_from_lead(42), 6, PeerState::Left);
    assert!(section.update_member(left));
    let rejoin = proven_member(&sk0, &pk0, name_from_lead(42), 7, PeerState::Joined);
    assert!(!section.update_member(rejoin));
}

#[test]
fn update_elders_pushes_key_and_prunes_members() {
    let (sk0, pk0) = keypair();
    let (sk1, pk1) = keypair();
    let chain = SectionProofChain::new(pk0.clone());
    let elders = proven_elders(&sk0, &pk0, Vec::new(), Prefix::empty());
    let mut section = Section::new(chain, elders).expect("section");

    // two members, one on each half of the address space
    assert!(section.update_member(proven_member(
        &sk0,
        &pk0,
        name_from_lead(0b0000_0001),
        6,
        PeerState::Joined
    )));
    assert!(section.update_member(proven_member(
        &sk0,
        &pk0,
        name_from_lead(0b1000_0001),
        6,
        PeerState::Joined
    )));
    assert_eq!(section.members.joined().len(), 2);

    // a new elder set for the zero half, attested by the new key K1,
    // whose admission into the chain is signed by K0
    let new_elders = proven_elders(
        &sk1,
        &pk1,
        vec![Peer::new(name_from_lead(3), 6)],
        prefix_from_bits(&[false]),
    );
    let admission = Proof::new(pk0.clone(), sign(&sk0, &pk1));
    assert!(section.update_elders(new_elders, admission));

    // the chain grew and the member outside the new prefix is gone
    assert_eq!(section.chain().len(), 2);
    assert_eq!(section.chain().last_key(), &pk1);
    assert_eq!(section.members.joined().len(), 1);
    assert!(section.prefix().equals(&prefix_from_bits(&[false])));

    // a set whose own attestation does not verify is rejected
    let mut bogus = proven_elders(
        &sk1,
        &pk1,
        Vec::new(),
        prefix_from_bits(&[false]),
    );
    bogus.proof.signature = sign(&sk0, b"unrelated");
    let admission = Proof::new(pk1.clone(), sign(&sk1, &pk1));
    assert!(!section.update_elders(bogus, admission));
}

#[test]
fn trimmed_keeps_latest_keys_only() {
    let (sk0, pk0) = keypair();
    let (sk1, pk1) = keypair();
    let (sk2, pk2) = keypair();
    let mut chain = SectionProofChain::new(pk0.clone());
    assert!(chain.push(pk1.clone(), sign(&sk0, &pk1)));
    assert!(chain.push(pk2.clone(), sign(&sk1, &pk2)));
    let elders = proven_elders(&sk2, &pk2, Vec::new(), Prefix::empty());
    let mut section = Section::new(chain, elders).expect("section");
    assert!(section.update_member(proven_member(
        &sk2,
        &pk2,
        name_from_lead(9),
        6,
        PeerState::Joined
    )));

    let compact = section.trimmed(2);
    assert_eq!(compact.chain().len(), 2);
    assert_eq!(compact.chain().first_key(), &pk1);
    assert_eq!(compact.chain().last_key(), &pk2);
    assert_eq!(compact.members.joined().len(), 0);
    // a zero length still keeps the latest key
    let minimal = section.trimmed(0);
    assert_eq!(minimal.chain().len(), 1);
    assert_eq!(minimal.chain().first_key(), &pk2);
}

#[test]
fn elders_and_adults() {
    let (sk0, pk0) = keypair();
    let elder_peer = Peer::new(name_from_lead(1), 6);
    let chain = SectionProofChain::new(pk0.clone());
    let elders = proven_elders(&sk0, &pk0, vec![elder_peer], Prefix::empty());
    let mut section = Section::new(chain, elders).expect("section");

    assert!(section.is_elder(&name_from_lead(1)));
    assert!(!section.is_elder(&name_from_lead(2)));

    // the elder, a mature member and an infant join
    for (lead, age) in [(1u8, 6u8), (2, 6), (3, 4)] {
        assert!(section.update_member(proven_member(
            &sk0,
            &pk0,
            name_from_lead(lead),
            age,
            PeerState::Joined
        )));
    }
    // adults are the mature joined members that are not elders
    let adults = section.adults();
    assert_eq!(adults.len(), 1);
    assert!(adults[0].name.equals(&name_from_lead(2)));
    assert_eq!(adults[0].age, 6);
    // the mature scan includes the elder, the infant stays out
    assert_eq!(section.members.mature().len(), 2);
}
