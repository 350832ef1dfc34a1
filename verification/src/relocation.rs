//! Relocation of a node to another section.

use vstd::prelude::*;
use crate::xor_name::XorName;

verus! {

/// The facts of one relocation: which node moves, where to, under which
/// destination key, and the age it will have afterwards.
pub struct RelocateDetails {
    /// The name of the node to relocate.
    pub pub_id: XorName,
    /// The node moves to the section whose prefix matches this name.
    pub destination: XorName,
    /// The serialized BLS key of the destination section, used by the
    /// relocated node to verify messages.
    pub destination_key: Vec<u8>,
    /// The age the node will have after the relocation.
    pub age: u8,
}

/// A relocation order as received from the network: the serialized
/// signed message whose content carries the relocation.
pub struct SignedRelocateDetails {
    /// The serialized signed routing message.
    pub signed_msg: Vec<u8>,
}

/// What a relocating node presents to its destination section: the
/// order it received, plus a signature over its new name made with its
/// old key to prove that both identities belong to the same node.
pub struct RelocatePayload {
    /// The relocation order.
    pub details: SignedRelocateDetails,
    /// The serialized signature over the node's new name, made with its
    /// old key.
    pub signature_of_new_name_with_old_key: Vec<u8>,
}

/// A lightweight promise that the named node will be relocated towards
/// the given destination once it is no longer an elder.
pub struct RelocatePromise {
    /// The name of the node to relocate.
    pub name: XorName,
    /// The destination name.
    pub destination: XorName,
}

} // verus!
