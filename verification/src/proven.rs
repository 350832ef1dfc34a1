//! Values attested by a section key.

use vstd::prelude::*;
use crate::crypto::{bls_verify, verify_bls_signature};
use crate::member_info::{MemberInfo, MemberInfoV, member_encoding};
use crate::elders_info::{EldersInfo, EldersInfoV, elders_encoding};
use crate::section_proof_chain::SectionProofChain;
use crate::xor_name::clone_bytes;

verus! {

/// The plain value of a proof: key bytes and signature bytes.
pub struct ProofV {
    pub public_key: Seq<u8>,
    pub signature: Seq<u8>,
}

/// Proof that a quorum of a section's elders signed something: the
/// section's BLS public key and the combined signature, both in their
/// canonical serialized form.
pub struct Proof {
    /// The serialized BLS public key of the signing section.
    pub public_key: Vec<u8>,
    /// The serialized BLS signature over the attested bytes.
    pub signature: Vec<u8>,
}

impl View for Proof {
    type V = ProofV;

    open spec fn view(&self) -> ProofV {
        ProofV { public_key: self.public_key@, signature: self.signature@ }
    }
}

impl Proof {
    /// Creates a proof from its key and signature bytes.
    pub fn new(public_key: Vec<u8>, signature: Vec<u8>) -> (r: Proof)
        ensures
            r@ == (ProofV { public_key: public_key@, signature: signature@ }),
    {
        Proof { public_key, signature }
    }

    /// Whether this proof's signature is valid over `payload` under its
    /// own public key.
    pub fn verify(&self, payload: &Vec<u8>) -> (r: bool)
        ensures
            r == bls_verify(self@.public_key, self@.signature, payload@),
    {
        verify_bls_signature(&self.public_key, &self.signature, payload)
    }

    /// A copy of this proof.
    pub fn duplicate(&self) -> (r: Proof)
        ensures
            r@ == self@,
    {
        Proof {
            public_key: clone_bytes(&self.public_key),
            signature: clone_bytes(&self.signature),
        }
    }
}

/// The plain value of a proven record.
pub struct ProvenV<V> {
    pub value: V,
    pub proof: ProofV,
}

/// A value together with the proof that a section signed it.
pub struct Proven<T> {
    /// The attested value.
    pub value: T,
    /// The section key and signature attesting it.
    pub proof: Proof,
}

impl<T: View> View for Proven<T> {
    type V = ProvenV<<T as View>::V>;

    open spec fn view(&self) -> ProvenV<<T as View>::V> {
        ProvenV { value: self.value@, proof: self.proof@ }
    }
}

impl<T> Proven<T> {
    /// Bundles a value with its proof.
    pub fn new(value: T, proof: Proof) -> (r: Proven<T>)
        ensures
            r.value == value,
            r.proof == proof,
    {
        Proven { value, proof }
    }
}

/// Whether a proven member record is signed by its own embedded key.
pub open spec fn member_self_verified(p: ProvenV<MemberInfoV>) -> bool {
    bls_verify(p.proof.public_key, p.proof.signature, member_encoding(p.value))
}

/// Whether a proven elder set is signed by its own embedded key.
pub open spec fn elders_self_verified(p: ProvenV<EldersInfoV>) -> bool {
    bls_verify(p.proof.public_key, p.proof.signature, elders_encoding(p.value))
}

impl Proven<MemberInfo> {
    /// Whether the embedded signature is valid over the record under the
    /// embedded key.
    pub fn self_verify(&self) -> (r: bool)
        requires
            self.value.wf(),
        ensures
            r == member_self_verified(self@),
    {
        let payload = self.value.encode();
        self.proof.verify(&payload)
    }

    /// Whether this record is attested by a key of the given chain: the
    /// chain holds the embedded key and the signature is valid.
    pub fn verify(&self, chain: &SectionProofChain) -> (r: bool)
        requires
            self.value.wf(),
        ensures
            r == (chain.keys_seq().contains(self@.proof.public_key) && member_self_verified(
                self@,
            )),
    {
        chain.has_key(&self.proof.public_key) && self.self_verify()
    }

    /// A copy of this proven record.
    pub fn duplicate(&self) -> (r: Proven<MemberInfo>)
        ensures
            r@ == self@,
            self.value.wf() ==> r.value.wf(),
    {
        Proven { value: self.value.duplicate(), proof: self.proof.duplicate() }
    }
}

impl Proven<EldersInfo> {
    /// Whether the embedded signature is valid over the elder set under
    /// the embedded key.
    pub fn self_verify(&self) -> (r: bool)
        requires
            self.value.wf(),
        ensures
            r == elders_self_verified(self@),
    {
        let payload = self.value.encode();
        self.proof.verify(&payload)
    }

    /// Whether this elder set is attested by a key of the given chain.
    pub fn verify(&self, chain: &SectionProofChain) -> (r: bool)
        requires
            self.value.wf(),
        ensures
            r == (chain.keys_seq().contains(self@.proof.public_key) && elders_self_verified(
                self@,
            )),
    {
        chain.has_key(&self.proof.public_key) && self.self_verify()
    }

    /// A copy of this proven elder set.
    pub fn duplicate(&self) -> (r: Proven<EldersInfo>)
        ensures
            r@ == self@,
            self.value.wf() ==> r.value.wf(),
    {
        Proven { value: self.value.duplicate(), proof: self.proof.duplicate() }
    }
}

} // verus!
