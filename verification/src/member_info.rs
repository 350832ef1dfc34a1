//! Members of a section and their lifecycle state.

use vstd::prelude::*;
use crate::xor_name::{XorName, clone_bytes};

verus! {

/// Age up to which a joined member is still considered an infant; only
/// members strictly older count as mature.
pub const MIN_AGE: u8 = 4;

/// The plain value of a peer: its name bytes and its age.
pub struct PeerV {
    pub name: Seq<u8>,
    pub age: u8,
}

/// A network peer: a name in the address space and an age that grows
/// with each relocation.
pub struct Peer {
    pub name: XorName,
    pub age: u8,
}

impl View for Peer {
    type V = PeerV;

    open spec fn view(&self) -> PeerV {
        PeerV { name: self.name@, age: self.age }
    }
}

impl Peer {
    /// A peer is well formed when its name is.
    pub open spec fn wf(&self) -> bool {
        self.name.wf()
    }

    /// Creates a peer from its name and age.
    pub fn new(name: XorName, age: u8) -> (r: Peer)
        ensures
            r@ == (PeerV { name: name@, age }),
    {
        Peer { name, age }
    }

    /// The peer's name.
    pub fn name(&self) -> (r: &XorName)
        ensures
            r@ == self@.name,
    {
        &self.name
    }

    /// The peer's age.
    pub fn age(&self) -> (r: u8)
        ensures
            r == self@.age,
    {
        self.age
    }

    /// A copy of this peer.
    pub fn duplicate(&self) -> (r: Peer)
        ensures
            r@ == self@,
            r.wf() == self.wf(),
    {
        Peer { name: XorName(clone_bytes(&self.name.0)), age: self.age }
    }
}

/// The plain value of a member's lifecycle state.
pub enum PeerStateV {
    /// The member currently belongs to the section.
    Joined,
    /// The member was relocated to the section owning the given name.
    Relocated(Seq<u8>),
    /// The member left the section.
    Left,
}

/// Lifecycle state of a section member.
pub enum PeerState {
    /// The member currently belongs to the section.
    Joined,
    /// The member was relocated to the section owning the given name.
    Relocated(XorName),
    /// The member left the section.
    Left,
}

impl View for PeerState {
    type V = PeerStateV;

    open spec fn view(&self) -> PeerStateV {
        match self {
            PeerState::Joined => PeerStateV::Joined,
            PeerState::Relocated(dest) => PeerStateV::Relocated(dest@),
            PeerState::Left => PeerStateV::Left,
        }
    }
}

impl PeerState {
    /// A relocation destination must be a well-formed name.
    pub open spec fn wf(&self) -> bool {
        match self {
            PeerState::Relocated(dest) => dest.wf(),
            _ => true,
        }
    }

    /// A copy of this state.
    pub fn duplicate(&self) -> (r: PeerState)
        ensures
            r@ == self@,
            r.wf() == self.wf(),
    {
        match self {
            PeerState::Joined => PeerState::Joined,
            PeerState::Relocated(dest) => PeerState::Relocated(XorName(clone_bytes(&dest.0))),
            PeerState::Left => PeerState::Left,
        }
    }
}

/// The plain value of a member record.
pub struct MemberInfoV {
    pub peer: PeerV,
    pub state: PeerStateV,
}

/// One member's record: who the peer is and where it stands in its
/// lifecycle.
pub struct MemberInfo {
    pub peer: Peer,
    pub state: PeerState,
}

impl View for MemberInfo {
    type V = MemberInfoV;

    open spec fn view(&self) -> MemberInfoV {
        MemberInfoV { peer: self.peer@, state: self.state@ }
    }
}

/// The canonical bytes of a member record that a section key signs: the
/// 32 name bytes, the age, and a state byte followed by the destination
/// name for a relocated member.
pub open spec fn member_encoding(m: MemberInfoV) -> Seq<u8> {
    m.peer.name + seq![m.peer.age] + match m.state {
        PeerStateV::Joined => seq![0u8],
        PeerStateV::Relocated(dest) => seq![1u8] + dest,
        PeerStateV::Left => seq![2u8],
    }
}

impl MemberInfo {
    /// A member record is well formed when its names are.
    pub open spec fn wf(&self) -> bool {
        self.peer.wf() && self.state.wf()
    }

    /// Creates the record of a freshly joined peer.
    pub fn joined(peer: Peer) -> (r: MemberInfo)
        ensures
            r@ == (MemberInfoV { peer: peer@, state: PeerStateV::Joined }),
            r.wf() == peer.wf(),
    {
        MemberInfo { peer, state: PeerState::Joined }
    }

    /// Whether the member is old enough to count as an adult.
    pub fn is_mature(&self) -> (r: bool)
        ensures
            r == (self@.peer.age > MIN_AGE),
    {
        self.peer.age > MIN_AGE
    }

    /// The canonical bytes of this record, the message that a section
    /// key signs to attest it.
    pub fn encode(&self) -> (r: Vec<u8>)
        requires
            self.wf(),
        ensures
            r@ == member_encoding(self@),
    {
        let mut out = clone_bytes(&self.peer.name.0);
        out.push(self.peer.age);
        match &self.state {
            PeerState::Joined => {
                out.push(0u8);
            },
            PeerState::Relocated(dest) => {
                out.push(1u8);
                let mut dest_bytes = clone_bytes(&dest.0);
                out.append(&mut dest_bytes);
            },
            PeerState::Left => {
                out.push(2u8);
            },
        }
        proof {
            assert(out@ =~= member_encoding(self@));
        }
        out
    }

    /// A copy of this record.
    pub fn duplicate(&self) -> (r: MemberInfo)
        ensures
            r@ == self@,
            r.wf() == self.wf(),
    {
        MemberInfo { peer: self.peer.duplicate(), state: self.state.duplicate() }
    }
}

} // verus!
