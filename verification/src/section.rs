//! The node's own section: elders, proof chain and membership.

use vstd::prelude::*;
use crate::Error;
use crate::crypto::bls_verify;
use crate::elders_info::EldersInfo;
use crate::member_info::MemberInfo;
use crate::prefix::{Prefix, prefix_matches};
use crate::proven::{Proven, Proof, elders_self_verified, member_self_verified};
use crate::section_peers::{SectionPeers, matching_members, update_outcome};
use crate::section_proof_chain::{SectionProofChain, ExtendError, is_first_index, clamp_start};
use crate::xor_name::{XorName, clone_bytes};

verus! {

/// The state a node keeps about its own section: the membership ledger,
/// the attested elder set, and the chain of section keys.  The chain
/// always holds the key that attests the elder set.
pub struct Section {
    /// The member records of the section.
    pub members: SectionPeers,
    /// The current elder set, attested by a section key.
    pub elders_info: Proven<EldersInfo>,
    /// The chain of the section's signing keys.
    pub chain: SectionProofChain,
}

impl Section {
    /// The section state is well formed when its parts are.
    pub open spec fn wf(&self) -> bool {
        self.members.wf() && self.elders_info.value.wf()
    }

    /// Creates a minimal section from a chain and an attested elder set;
    /// rejected when the chain does not hold the key that attests the
    /// elder set.
    pub fn new(chain: SectionProofChain, elders_info: Proven<EldersInfo>) -> (r: Result<
        Section,
        Error,
    >)
        requires
            elders_info.value.wf(),
        ensures
            match r {
                Ok(s) => chain.keys_seq().contains(elders_info@.proof.public_key) && s.wf()
                    && s.chain.keys_seq() == chain.keys_seq() && s.chain.sigs_seq()
                    == chain.sigs_seq() && s.elders_info == elders_info && s.members@.len() == 0,
                Err(e) => e == Error::InvalidMessage && !chain.keys_seq().contains(
                    elders_info@.proof.public_key,
                ),
            },
    {
        if !chain.has_key(&elders_info.proof.public_key) {
            return Err(Error::InvalidMessage);
        }
        Ok(Section { members: SectionPeers::new(), elders_info, chain })
    }

    /// The current elder set.
    pub fn elders_info(&self) -> (r: &EldersInfo)
        ensures
            r == self.elders_info.value,
    {
        &self.elders_info.value
    }

    /// The section's proof chain.
    pub fn chain(&self) -> (r: &SectionProofChain)
        ensures
            r == self.chain,
    {
        &self.chain
    }

    /// The prefix of the address range the section owns.
    pub fn prefix(&self) -> (r: &Prefix)
        ensures
            r@ == self.elders_info@.value.prefix,
    {
        &self.elders_info.value.prefix
    }

    /// Whether a peer with the given name is one of the current elders.
    pub fn is_elder(&self, name: &XorName) -> (r: bool)
        ensures
            r == exists|i: int|
                0 <= i < self.elders_info.value@.elders.len() && (
                #[trigger] self.elders_info.value@.elders[i]).name == name@,
    {
        self.elders_info.value.contains_elder(name)
    }

    /// Replaces the elder set after a churn: the new attested elder set
    /// must verify under its own embedded key, and that key must extend
    /// the chain under the signature carried by `new_key_proof`.  On
    /// success the membership ledger is pruned to the (possibly changed)
    /// prefix.  Returns whether anything changed.
    pub fn update_elders(&mut self, new_elders_info: Proven<EldersInfo>, new_key_proof: Proof) -> (
        r: bool)
        requires
            old(self).wf(),
            new_elders_info.value.wf(),
        ensures
            final(self).wf(),
            r == (elders_self_verified(new_elders_info@) && !old(self).chain.keys_seq().contains(
                new_elders_info@.proof.public_key,
            ) && bls_verify(
                old(self).chain.keys_seq().last(),
                new_key_proof@.signature,
                new_elders_info@.proof.public_key,
            )),
            !r ==> final(self).members@ == old(self).members@
                && final(self).elders_info == old(self).elders_info
                && final(self).chain.keys_seq() == old(self).chain.keys_seq()
                && final(self).chain.sigs_seq() == old(self).chain.sigs_seq(),
            r ==> final(self).elders_info == new_elders_info
                && final(self).chain.keys_seq() == old(self).chain.keys_seq().push(new_elders_info@.proof.public_key)
                && final(self).chain.sigs_seq() == old(self).chain.sigs_seq().push(new_key_proof@.signature)
                && final(self).members.records() == matching_members(
                old(self).members.records(),
                new_elders_info@.value.prefix,
            ),
    {
        if !new_elders_info.self_verify() {
            return false;
        }
        let key = clone_bytes(&new_elders_info.proof.public_key);
        let signature = clone_bytes(&new_key_proof.signature);
        if !self.chain.push(key, signature) {
            return false;
        }
        self.elders_info = new_elders_info;
        let prefix = self.elders_info.value.prefix.duplicate();
        self.members.prune_not_matching(&prefix);
        true
    }

    /// Folds one member record into the ledger, provided it is attested
    /// by a key of the section's own chain.  Returns whether anything
    /// changed.
    pub fn update_member(&mut self, member_info: Proven<MemberInfo>) -> (r: bool)
        requires
            old(self).wf(),
            member_info.value.wf(),
        ensures
            final(self).wf(),
            final(self).elders_info == old(self).elders_info,
            final(self).chain.keys_seq() == old(self).chain.keys_seq(),
            final(self).chain.sigs_seq() == old(self).chain.sigs_seq(),
            !(old(self).chain.keys_seq().contains(member_info@.proof.public_key)
                && member_self_verified(member_info@)) ==> r == false && final(self).members@
                == old(self).members@,
            (old(self).chain.keys_seq().contains(member_info@.proof.public_key)
                && member_self_verified(member_info@)) ==> (r, final(self).members@)
                == update_outcome(old(self).members@, member_info@),
    {
        if !member_info.verify(&self.chain) {
            return false;
        }
        self.members.update(member_info)
    }

    /// Extends the section chain backward to `new_first_key` using a
    /// fuller reference chain, keeping the current last key.
    pub fn extend_chain(&mut self, new_first_key: &Vec<u8>, full_chain: &SectionProofChain) -> (r:
        Result<(), ExtendError>)
        requires
            full_chain.keys_seq().len() <= usize::MAX,
        ensures
            final(self).members@ == old(self).members@,
            final(self).elders_info == old(self).elders_info,
            ({
                let ak = old(self).chain.keys_seq();
                let fk = full_chain.keys_seq();
                let unchanged = final(self).chain.keys_seq() == ak && final(self).chain.sigs_seq()
                    == old(self).chain.sigs_seq();
                &&& ak.contains(new_first_key@) ==> r == Err::<(), ExtendError>(
                    ExtendError::AlreadySufficient,
                ) && unchanged
                &&& !ak.contains(new_first_key@) && !fk.contains(new_first_key@) ==> r == Err::<
                    (),
                    ExtendError,
                >(ExtendError::InvalidFirstKey) && unchanged
                &&& !ak.contains(new_first_key@) && fk.contains(new_first_key@) && !fk.contains(
                    ak.last(),
                ) ==> r == Err::<(), ExtendError>(ExtendError::InvalidLastKey) && unchanged
                &&& !ak.contains(new_first_key@) && fk.contains(new_first_key@) && fk.contains(
                    ak.last(),
                ) ==> forall|a: int, b: int|
                    #![trigger is_first_index(fk, new_first_key@, a), is_first_index(fk, ak.last(), b)]
                    is_first_index(fk, new_first_key@, a) && is_first_index(
                        fk,
                        ak.last(),
                        b,
                    ) ==> if a > b {
                        r == Err::<(), ExtendError>(ExtendError::InvalidFirstKey) && unchanged
                    } else {
                        r == Ok::<(), ExtendError>(()) && final(self).chain.keys_seq()
                            == fk.subrange(a, b + 1) && final(self).chain.sigs_seq()
                            == full_chain.sigs_seq().subrange(a, b)
                    }
            }),
    {
        self.chain.extend(new_first_key, full_chain)
    }

    /// A compact copy of this section for peers who already share recent
    /// history: the attested elder set, no members, and only the last
    /// `chain_len` keys of the chain (at least one).
    pub fn trimmed(&self, chain_len: usize) -> (r: Section)
        requires
            self.wf(),
            self.chain.keys_seq().len() <= usize::MAX,
        ensures
            r.wf(),
            r.members@.len() == 0,
            r.elders_info@ == self.elders_info@,
            ({
                let n = self.chain.keys_seq().len() as int;
                let keep = if chain_len > 0 {
                    chain_len as int
                } else {
                    1int
                };
                let first = if n - keep > 0 {
                    n - keep
                } else {
                    0int
                };
                r.chain.keys_seq() == self.chain.keys_seq().subrange(
                    clamp_start(first, n),
                    n,
                ) && r.chain.sigs_seq() == self.chain.sigs_seq().subrange(clamp_start(first, n), n - 1)
            }),
    {
        let last_index: u64 = self.chain.last_key_index();
        let back: u64 = if chain_len > 0 {
            (chain_len - 1) as u64
        } else {
            0
        };
        let first_index: u64 = if last_index > back {
            last_index - back
        } else {
            0
        };
        Section {
            members: SectionPeers::new(),
            elders_info: self.elders_info.duplicate(),
            chain: self.chain.slice_from(first_index),
        }
    }

    /// The joined members past the infant age that are not elders.
    pub fn adults(&self) -> (r: Vec<crate::member_info::Peer>)
        ensures
            forall|k: int|
                #![trigger r@[k]]
                0 <= k < r@.len() ==> crate::section_peers::is_mature_record(
                    self.members@,
                    r@[k]@,
                ) && !exists|i: int|
                    0 <= i < self.elders_info.value@.elders.len() && (
                    #[trigger] self.elders_info.value@.elders[i]).name == r@[k]@.name,
            forall|i: int|
                0 <= i < self.members@.len() && (#[trigger] self.members@[i]).value.state
                    == crate::member_info::PeerStateV::Joined && self.members@[i].value.peer.age
                    > crate::member_info::MIN_AGE && !(exists|m: int|
                    0 <= m < self.elders_info.value@.elders.len() && (
                    #[trigger] self.elders_info.value@.elders[m]).name
                        == self.members@[i].value.peer.name) ==> exists|k: int|
                    0 <= k < r@.len() && (#[trigger] r@[k])@ == self.members@[i].value.peer,
    {
        let mature = self.members.mature();
        let mut r: Vec<crate::member_info::Peer> = Vec::new();
        let mut i: usize = 0;
        while i < mature.len()
            invariant
                i <= mature@.len(),
                forall|k: int|
                    #![trigger mature@[k]]
                    0 <= k < mature@.len() ==> crate::section_peers::is_mature_record(
                        self.members@,
                        mature@[k]@,
                    ),
                forall|m: int|
                    0 <= m < self.members@.len() && (#[trigger] self.members@[m]).value.state
                        == crate::member_info::PeerStateV::Joined
                        && self.members@[m].value.peer.age > crate::member_info::MIN_AGE
                        ==> exists|k: int|
                        0 <= k < mature@.len() && (#[trigger] mature@[k])@
                            == self.members@[m].value.peer,
                forall|k: int|
                    #![trigger r@[k]]
                    0 <= k < r@.len() ==> crate::section_peers::is_mature_record(
                        self.members@,
                        r@[k]@,
                    ) && !exists|m: int|
                        0 <= m < self.elders_info.value@.elders.len() && (
                        #[trigger] self.elders_info.value@.elders[m]).name == r@[k]@.name,
                forall|j: int|
                    #![trigger mature@[j]]
                    0 <= j < i && !(exists|m: int|
                        0 <= m < self.elders_info.value@.elders.len() && (
                        #[trigger] self.elders_info.value@.elders[m]).name == (
                        mature@[j])@.name) ==> exists|k: int|
                        0 <= k < r@.len() && (#[trigger] r@[k])@ == mature@[j]@,
            decreases mature@.len() - i,
        {
            let ghost old_r = r@;
            let is_an_elder = self.elders_info.value.contains_elder(&mature[i].name);
            if !is_an_elder {
                r.push(mature[i].duplicate());
            }
            proof {
                if !is_an_elder {
                    assert(r@[r@.len() - 1]@ == mature@[i as int]@);
                }
                assert forall|k: int| #![trigger r@[k]] 0 <= k < r@.len() implies
                    crate::section_peers::is_mature_record(self.members@, r@[k]@) && !exists|
                    m: int,
                |
                    0 <= m < self.elders_info.value@.elders.len() && (
                    #[trigger] self.elders_info.value@.elders[m]).name == r@[k]@.name by {
                    if k < old_r.len() {
                        assert(r@[k] == old_r[k]);
                    } else {
                        assert(r@[k]@ == mature@[i as int]@);
                    }
                }
                assert forall|j: int|
                    #![trigger mature@[j]]
                    0 <= j < i + 1 && !(exists|m: int|
                        0 <= m < self.elders_info.value@.elders.len() && (
                        #[trigger] self.elders_info.value@.elders[m]).name == (
                        mature@[j])@.name) implies exists|k: int|
                    0 <= k < r@.len() && (#[trigger] r@[k])@ == mature@[j]@ by {
                    if j < i {
                        let k0 = choose|k: int|
                            0 <= k < old_r.len() && (#[trigger] old_r[k])@ == mature@[j]@;
                        assert(r@[k0]@ == mature@[j]@);
                    } else {
                        assert(r@[r@.len() - 1]@ == mature@[j]@);
                    }
                }
            }
            i += 1;
        }
        proof {
            assert forall|m: int|
                0 <= m < self.members@.len() && (#[trigger] self.members@[m]).value.state
                    == crate::member_info::PeerStateV::Joined && self.members@[m].value.peer.age
                    > crate::member_info::MIN_AGE && !(exists|e: int|
                    0 <= e < self.elders_info.value@.elders.len() && (
                    #[trigger] self.elders_info.value@.elders[e]).name
                        == self.members@[m].value.peer.name) implies exists|k: int|
                0 <= k < r@.len() && (#[trigger] r@[k])@ == self.members@[m].value.peer by {
                let j = choose|j: int|
                    0 <= j < mature@.len() && (#[trigger] mature@[j])@
                        == self.members@[m].value.peer;
                assert(mature@[j]@.name == self.members@[m].value.peer.name);
                let k0 = choose|k: int| 0 <= k < r@.len() && (#[trigger] r@[k])@ == mature@[j]@;
                assert(r@[k0]@ == self.members@[m].value.peer);
            }
        }
        r
    }
}

} // verus!
