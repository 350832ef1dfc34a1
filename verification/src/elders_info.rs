//! The elder set of a section.

use vstd::prelude::*;
use crate::prefix::{Prefix, prefix_name_bytes};
use crate::member_info::{Peer, PeerV};
use crate::xor_name::{XorName, u64_le_bytes, clone_bytes, bytes_equal};

verus! {

/// The plain value of an elder set: the section prefix bits and the
/// elder peers in their listed order.
pub struct EldersInfoV {
    pub prefix: Seq<bool>,
    pub elders: Seq<PeerV>,
}

/// The governing peers of one section.  Callers keep the list in one
/// canonical order, sorted by name, so that independent nodes derive
/// identical bytes from the same elder set.
pub struct EldersInfo {
    /// The prefix of the address range the section owns.
    pub prefix: Prefix,
    /// The elder peers, in canonical order.
    pub elders: Vec<Peer>,
}

impl View for EldersInfo {
    type V = EldersInfoV;

    open spec fn view(&self) -> EldersInfoV {
        EldersInfoV { prefix: self.prefix@, elders: self.elders@.map_values(|p: Peer| p@) }
    }
}

/// The name-and-age bytes of the listed elders, in order.
pub open spec fn elders_blob(elders: Seq<PeerV>) -> Seq<u8>
    decreases elders.len(),
{
    if elders.len() == 0 {
        Seq::empty()
    } else {
        elders_blob(elders.drop_last()) + elders.last().name + seq![elders.last().age]
    }
}

/// The canonical bytes of an elder set that a section key signs: each
/// elder's name and age in order, then the prefix's smallest address and
/// its bit count as a little-endian 64-bit value.
pub open spec fn elders_encoding(e: EldersInfoV) -> Seq<u8> {
    elders_blob(e.elders) + prefix_name_bytes(e.prefix) + u64_le_bytes(e.prefix.len() as u64)
}

impl EldersInfo {
    /// An elder set is well formed when its prefix fits the address
    /// width and every elder's name does.
    pub open spec fn wf(&self) -> bool {
        self.prefix.wf() && forall|i: int|
            0 <= i < self.elders@.len() ==> (#[trigger] self.elders@[i]).wf()
    }

    /// Creates the info for a section under `prefix` governed by the
    /// given elders.
    pub fn new(elders: Vec<Peer>, prefix: Prefix) -> (r: EldersInfo)
        ensures
            r@.prefix == prefix@,
            r@.elders == elders@.map_values(|p: Peer| p@),
            r.prefix == prefix,
            r.elders == elders,
    {
        EldersInfo { prefix, elders }
    }

    /// Whether a peer with the given name is one of the elders.
    pub fn contains_elder(&self, name: &XorName) -> (r: bool)
        ensures
            r == exists|i: int|
                0 <= i < self@.elders.len() && (#[trigger] self@.elders[i]).name == name@,
    {
        let mut i: usize = 0;
        while i < self.elders.len()
            invariant
                i <= self.elders@.len(),
                forall|j: int| 0 <= j < i ==> (#[trigger] self@.elders[j]).name != name@,
            decreases self.elders@.len() - i,
        {
            if bytes_equal(&self.elders[i].name.0, &name.0) {
                proof {
                    assert(self@.elders[i as int].name == name@);
                }
                return true;
            }
            i += 1;
        }
        false
    }

    /// The canonical bytes of this elder set, the message that a section
    /// key signs to attest it.
    pub fn encode(&self) -> (r: Vec<u8>)
        requires
            self.wf(),
        ensures
            r@ == elders_encoding(self@),
    {
        let mut out: Vec<u8> = Vec::new();
        let mut i: usize = 0;
        while i < self.elders.len()
            invariant
                self.wf(),
                i <= self.elders@.len(),
                out@ == elders_blob(self@.elders.subrange(0, i as int)),
            decreases self.elders@.len() - i,
        {
            let ghost prev = self@.elders.subrange(0, i as int);
            let mut name_bytes = clone_bytes(&self.elders[i].name.0);
            out.append(&mut name_bytes);
            out.push(self.elders[i].age);
            proof {
                let next = self@.elders.subrange(0, i + 1);
                assert(next.drop_last() =~= prev);
                assert(next.last() == self@.elders[i as int]);
                assert(out@ =~= elders_blob(next));
            }
            i += 1;
        }
        proof {
            assert(self@.elders.subrange(0, self@.elders.len() as int) =~= self@.elders);
        }
        let prefix_name = self.prefix.name();
        let mut name_bytes = prefix_name.0;
        out.append(&mut name_bytes);
        crate::xor_name::push_u64_le(&mut out, self.prefix.bit_count() as u64);
        proof {
            assert(out@ =~= elders_encoding(self@));
        }
        out
    }

    /// A copy of this elder set.
    pub fn duplicate(&self) -> (r: EldersInfo)
        ensures
            r@ == self@,
            self.wf() ==> r.wf(),
    {
        let mut elders: Vec<Peer> = Vec::new();
        let mut i: usize = 0;
        while i < self.elders.len()
            invariant
                i <= self.elders@.len(),
                elders@.len() == i,
                forall|j: int| 0 <= j < i ==> (#[trigger] elders@[j])@ == self.elders@[j]@,
                forall|j: int| 0 <= j < i ==> (#[trigger] elders@[j]).wf() == self.elders@[j].wf(),
            decreases self.elders@.len() - i,
        {
            elders.push(self.elders[i].duplicate());
            i += 1;
        }
        let r = EldersInfo { prefix: self.prefix.duplicate(), elders };
        proof {
            assert(r@.elders =~= self@.elders);
            if self.wf() {
                assert forall|j: int| 0 <= j < r.elders@.len() implies (#[trigger] r.elders@[j]).wf() by {
                    assert(self.elders@[j].wf());
                }
            }
        }
        r
    }
}

} // verus!
