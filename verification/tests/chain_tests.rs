//! Tests of the section proof chain against real BLS signatures.

use section_trust::section_proof_chain::{SectionProofChain, TrustStatus, ExtendError, MergeError};

fn keypair() -> (threshold_crypto::SecretKey, Vec<u8>) {
    let sk = threshold_crypto::SecretKey::random();
    let pk_bytes = bincode::serialize(&sk.public_key()).expect("serialize public key");
    (sk, pk_bytes)
}

fn sign(sk: &threshold_crypto::SecretKey, msg: &[u8]) -> Vec<u8> {
    bincode::serialize(&sk.sign(msg)).expect("serialize signature")
}

fn chain_keys(chain: &SectionProofChain) -> Vec<Vec<u8>> {
    chain.keys()
}

/// A valid three-key chain together with its secret keys.
fn three_key_chain() -> (SectionProofChain, Vec<threshold_crypto::SecretKey>, Vec<Vec<u8>>) {
    let (sk0, pk0) = keypair();
    let (sk1, pk1) = keypair();
    let (sk2, pk2) = keypair();
    let mut chain = SectionProofChain::new(pk0.clone());
    assert!(chain.push(pk1.clone(), sign(&sk0, &pk1)));
    assert!(chain.push(pk2.clone(), sign(&sk1, &pk2)));
    (chain, vec![sk0, sk1, sk2], vec![pk0, pk1, pk2])
}

#[test]
fn push_rejects_bad_signature() {
    let (_sk0, pk0) = keypair();
    let (other_sk, pk1) = keypair();
    let mut chain = SectionProofChain::new(pk0.clone());
    let before = chain_keys(&chain);
    // signature by an unrelated key, not by the current last key
    let bad_sig = sign(&other_sk, &pk1);
    assert!(!chain.push(pk1, bad_sig));
    assert_eq!(chain_keys(&chain), before);
    assert_eq!(chain.len(), 1);
}

#[test]
fn push_accepts_valid_signature_and_rejects_duplicates() {
    // end-to-end scenario: chain [K0]; a valid push of K1 succeeds;
    // a repeated push of K1 is rejected whatever the signature.
    let (sk0, pk0) = keypair();
    let (_sk1, pk1) = keypair();
    let mut chain = SectionProofChain::new(pk0.clone());
    assert!(chain.push(pk1.clone(), sign(&sk0, &pk1)));
    assert_eq!(chain_keys(&chain), vec![pk0.clone(), pk1.clone()]);
    assert!(!chain.push(pk1.clone(), sign(&sk0, &pk1)));
    assert_eq!(chain_keys(&chain), vec![pk0, pk1]);
}

#[test]
fn extend_moves_first_key_backward() {
    // extend a chain [K1] using the full chain [K0, K1, K2] with
    // new first key K0: the current last key K1 sits at position 1,
    // K0 at position 0, so the result is [K0, K1].
    let (full, _sks, pks) = three_key_chain();
    let mut short = full.slice(1, 1);
    assert_eq!(chain_keys(&short), vec![pks[1].clone()]);
    assert!(short.extend(&pks[0], &full).is_ok());
    assert_eq!(chain_keys(&short), vec![pks[0].clone(), pks[1].clone()]);
    assert!(short.self_verify());
}

#[test]
fn extend_errors() {
    let (full, _sks, pks) = three_key_chain();
    let (_stranger_sk, stranger_pk) = keypair();

    // already sufficient: the chain already holds the requested key
    let mut chain = full.slice(0, 2);
    assert!(matches!(
        chain.extend(&pks[0], &full),
        Err(ExtendError::AlreadySufficient)
    ));

    // invalid first key: the reference chain does not hold it
    let mut chain = full.slice(1, 2);
    assert!(matches!(
        chain.extend(&stranger_pk, &full),
        Err(ExtendError::InvalidFirstKey)
    ));

    // invalid first key: the requested key comes after our last key
    let mut chain = full.slice(0, 1);
    let reference = full.slice(0, 2);
    assert!(matches!(
        chain.extend(&pks[2], &reference),
        Err(ExtendError::InvalidFirstKey)
    ));

    // invalid last key: the reference chain does not hold our last key
    let mut chain = SectionProofChain::new(stranger_pk.clone());
    assert!(matches!(
        chain.extend(&pks[0], &full),
        Err(ExtendError::InvalidLastKey)
    ));
}

#[test]
fn slice_clamps_out_of_range_and_inverted_bounds() {
    let (full, _sks, pks) = three_key_chain();
    // out of range collapses to the last key
    let tail = full.slice(5, 99);
    assert_eq!(chain_keys(&tail), vec![pks[2].clone()]);
    // inverted bounds keep a single key at the start position
    let single = full.slice(1, 0);
    assert_eq!(chain_keys(&single), vec![pks[1].clone()]);
    // an unbounded tail keeps everything from the start position on
    let rest = full.slice_from(1);
    assert_eq!(chain_keys(&rest), vec![pks[1].clone(), pks[2].clone()]);
}

#[test]
fn complementary_slices_merge_back() {
    // slices [1..] and [0..=1] of the same chain overlap at position 1
    // and merge back into the original chain
    let (full, _sks, pks) = three_key_chain();
    let mut left = full.slice_from(1);
    let right = full.slice(0, 1);
    assert!(left.merge(right).is_ok());
    assert_eq!(chain_keys(&left), vec![pks[0].clone(), pks[1].clone(), pks[2].clone()]);
    assert_eq!(left.self_verify(), full.self_verify());
    assert!(left.self_verify());
}

#[test]
fn merge_absorbs_in_both_directions() {
    let (full, _sks, pks) = three_key_chain();
    // the receiving chain already holds everything: unchanged
    let mut whole = full.slice(0, 2);
    let inner = full.slice(1, 1);
    assert!(whole.merge(inner).is_ok());
    assert_eq!(chain_keys(&whole), vec![pks[0].clone(), pks[1].clone(), pks[2].clone()]);
    // the other chain reaches past the receiving chain's end: spliced on
    let mut front = full.slice(0, 1);
    let back = full.slice(1, 2);
    assert!(front.merge(back).is_ok());
    assert_eq!(chain_keys(&front), vec![pks[0].clone(), pks[1].clone(), pks[2].clone()]);
    assert!(front.self_verify());
}

#[test]
fn merge_rejects_disjoint_chains() {
    let (mut chain, _sks, _pks) = three_key_chain();
    let (_other_sk, other_pk) = keypair();
    let other = SectionProofChain::new(other_pk);
    assert_eq!(chain.merge(other), Err(MergeError));
}

#[test]
fn check_trust_classifies() {
    let (chain, _sks, pks) = three_key_chain();

    // a trusted-key set holding the chain's first key: trusted
    assert_eq!(chain.check_trust(&vec![pks[0].clone()]), TrustStatus::Trusted);
    // a trusted-key set holding a later key: still trusted
    assert_eq!(chain.check_trust(&vec![pks[1].clone()]), TrustStatus::Trusted);

    // a disjoint trusted-key set over a self-consistent chain: unknown
    let (_stranger_sk, stranger_pk) = keypair();
    assert_eq!(chain.check_trust(&vec![stranger_pk.clone()]), TrustStatus::Unknown);

    // a corrupted block makes the chain invalid either way
    let (sk0, pk0) = keypair();
    let (_sk1, pk1) = keypair();
    let (_sk2, pk2) = keypair();
    let mut broken = SectionProofChain::new(pk0.clone());
    assert!(broken.push(pk1.clone(), sign(&sk0, &pk1)));
    broken.push_without_validation(pk2.clone(), sign(&sk0, &pk2));
    assert!(!broken.self_verify());
    assert_eq!(broken.check_trust(&vec![pk0.clone()]), TrustStatus::Invalid);
    assert_eq!(broken.check_trust(&vec![stranger_pk]), TrustStatus::Invalid);
}

#[test]
fn lookup_accessors() {
    let (chain, _sks, pks) = three_key_chain();
    assert_eq!(chain.len(), 3);
    assert_eq!(chain.last_key_index(), 2);
    assert_eq!(chain.first_key(), &pks[0]);
    assert_eq!(chain.last_key(), &pks[2]);
    assert!(chain.has_key(&pks[1]));
    assert_eq!(chain.index_of(&pks[1]), Some(1));
    let (_stranger_sk, stranger_pk) = keypair();
    assert!(!chain.has_key(&stranger_pk));
    assert_eq!(chain.index_of(&stranger_pk), None);
}
