//! Identifiers for distributed key generation sessions.
//!
//! When a new elder set is decided, its members jointly generate the
//! next section key.  Every participant derives the same session
//! identifier locally, without any message exchange, by hashing the
//! canonical bytes of the candidate elder set: each elder's name and
//! age in order, then the section prefix's smallest address and its bit
//! count.

use vstd::prelude::*;
use crate::crypto::{sha3_256, sha3_256_of};
use crate::elders_info::{EldersInfo, elders_encoding};

verus! {

/// Unique identifier of a key-generation session: the SHA3-256 digest of
/// the candidate elder set's canonical bytes.
pub struct DkgKey(pub Vec<u8>);

impl View for DkgKey {
    type V = Seq<u8>;

    open spec fn view(&self) -> Seq<u8> {
        self.0@
    }
}

impl DkgKey {
    /// Derives the session identifier of the given candidate elder set.
    /// Everyone who derives an identifier from the same elder set, in
    /// the same canonical order, obtains the same 32 bytes.
    pub fn new(elders_info: &EldersInfo) -> (r: DkgKey)
        requires
            elders_info.wf(),
        ensures
            r@ == sha3_256_of(elders_encoding(elders_info@)),
            r@.len() == 32,
    {
        let input = elders_info.encode();
        DkgKey(sha3_256(&input))
    }
}

/// One elder's signed testimony that a key-generation session failed,
/// carried as plain key and signature bytes.
pub struct DkgFailureProof {
    /// The serialized public key of the testifying elder.
    pub public_key: Vec<u8>,
    /// The serialized signature over the failed session's identifier.
    pub signature: Vec<u8>,
}

/// The testimonies collected about one failed session.
pub type DkgFailureProofSet = Vec<DkgFailureProof>;

} // verus!
