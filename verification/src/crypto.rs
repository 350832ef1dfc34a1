//! Trusted boundary to the outside cryptographic primitives.
//!
//! Keys, signatures and digests travel through this crate as plain byte
//! vectors: a BLS public key or signature is held in its canonical
//! serialized form.  The two functions here are the only places where the
//! outside cryptographic crates are called; everything that depends on
//! their results is verified against the named result of each call.

use vstd::prelude::*;

verus! {

/// Whether `signature` is a valid BLS signature on `message` by the key
/// whose serialized form is `public_key`.  The result depends on the three
/// byte strings alone.
pub uninterp spec fn bls_verify(public_key: Seq<u8>, signature: Seq<u8>, message: Seq<u8>) -> bool;

/// The SHA3-256 digest of `data`.  The result depends on `data` alone.
pub uninterp spec fn sha3_256_of(data: Seq<u8>) -> Seq<u8>;

/// Relies on threshold_crypto's `PublicKey::verify` (deterministic pairing
/// check) after bincode-deserializing the key and the signature from their
/// canonical byte forms; any malformed input verifies as `false`.
#[verifier::external_body]
pub(crate) fn verify_bls_signature(public_key: &Vec<u8>, signature: &Vec<u8>, message: &Vec<u8>) -> (r:
    bool)
    ensures
        r == bls_verify(public_key@, signature@, message@),
{
    let pk: threshold_crypto::PublicKey = match bincode::deserialize(public_key) {
        Ok(pk) => pk,
        Err(_) => return false,
    };
    let sig: threshold_crypto::Signature = match bincode::deserialize(signature) {
        Ok(sig) => sig,
        Err(_) => return false,
    };
    pk.verify(&sig, message)
}

/// Relies on tiny_keccak's `Sha3::v256` hasher: one `update` over all of
/// `data` followed by `finalize` yields the 32-byte SHA3-256 digest.
#[verifier::external_body]
pub(crate) fn sha3_256(data: &Vec<u8>) -> (r: Vec<u8>)
    ensures
        r@ == sha3_256_of(data@),
        r@.len() == 32,
{
    let mut hasher = tiny_keccak::Sha3::v256();
    tiny_keccak::Hasher::update(&mut hasher, data);
    let mut output = [0u8; 32];
    tiny_keccak::Hasher::finalize(hasher, &mut output);
    output.to_vec()
}

} // verus!
