//! Trust-and-topology core of a sharded peer-to-peer network.
//!
//! A network section is a set of nodes responsible for one bit-prefix of a
//! fixed 256-bit address space.  This crate provides the machinery a node
//! uses to decide, without any central authority, which keys speak for a
//! section, whether a received chain of key rotations can be trusted, and
//! which section is authoritative for an address:
//!
//! * `SectionProofChain`: an append-only chain of section BLS public keys,
//!   each key (except the first) signed by its predecessor.
//! * `PrefixMap`: a prefix-keyed container that keeps only the minimal
//!   covering set of entries, pruning knowledge superseded by more specific
//!   entries.
//! * `Section` and `SectionPeers`: the node's own section state and its
//!   monotonic membership ledger.
//! * `Network`: knowledge about other sections, built from prefix maps.
//! * `DkgKey`: the deterministic identifier of a key-generation session.

use vstd::prelude::*;

pub mod crypto;
pub mod xor_name;
pub mod prefix;
pub mod prefix_map;
pub mod section_proof_chain;
pub mod member_info;
pub mod elders_info;
pub mod proven;
pub mod section_peers;
pub mod section;
pub mod network;
pub mod dkg;
pub mod relocation;
pub mod messages;

verus! {

/// Error raised when a composite value fails validation at construction.
#[derive(Clone, Copy, PartialEq, Eq, Structural, Debug)]
pub enum Error {
    /// The supplied parts do not form a consistent, verifiable whole.
    InvalidMessage,
}

} // verus!
