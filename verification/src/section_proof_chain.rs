//! The chain of a section's signing keys.
//!
//! A section rotates its BLS key on every elder churn.  The chain records
//! the succession: its first key stands unsigned, and every later key
//! carries a signature over its serialized form made by the holder of the
//! key immediately before it.  A key is held as its canonical serialized
//! bytes, and the signed message of each link is exactly those bytes, so
//! the whole chain is a plain value that any peer can replay and check.

use vstd::prelude::*;
use crate::crypto::{bls_verify, verify_bls_signature};
use crate::xor_name::{bytes_equal, clone_bytes};

verus! {

/// One link of the chain: a section key together with the signature over
/// it by the previous key.
pub struct Block {
    /// The serialized BLS public key introduced by this link.
    pub key: Vec<u8>,
    /// The signature over `key` made by the key of the previous link.
    pub signature: Vec<u8>,
}

/// The byte strings viewed by a sequence of byte vectors.
pub open spec fn byte_views(s: Seq<Vec<u8>>) -> Seq<Seq<u8>> {
    s.map_values(|v: Vec<u8>| v@)
}

/// Every link's signature verifies under the key preceding it.
pub open spec fn chain_verified(keys: Seq<Seq<u8>>, sigs: Seq<Seq<u8>>) -> bool {
    forall|i: int| 0 <= i < sigs.len() ==> bls_verify(keys[i], #[trigger] sigs[i], keys[i + 1])
}

/// No key occurs twice.
pub open spec fn distinct_keys(keys: Seq<Seq<u8>>) -> bool {
    forall|i: int, j: int| 0 <= i < j < keys.len() ==> keys[i] != keys[j]
}

/// The first position of a sub-chain slice: the requested start, clamped
/// to the position of the last key of a chain of `n` keys.
pub open spec fn clamp_start(first: int, n: int) -> int {
    if first < n - 1 {
        first
    } else {
        n - 1
    }
}

/// The position one past the last key of a sub-chain slice: the requested
/// inclusive end plus one, clamped into the chain and forced past the
/// start so that the slice keeps at least one key.
pub open spec fn clamp_end(last: int, start: int, n: int) -> int {
    let e = if last + 1 < n {
        last + 1
    } else {
        n
    };
    if e > start + 1 {
        e
    } else {
        start + 1
    }
}

/// A chain built by valid pushes keeps its keys pairwise distinct: a
/// push only succeeds on a key the chain does not hold yet.
pub proof fn lemma_distinct_after_push(keys: Seq<Seq<u8>>, k: Seq<u8>)
    requires
        distinct_keys(keys),
        !keys.contains(k),
    ensures
        distinct_keys(keys.push(k)),
{
    let keys2 = keys.push(k);
    assert forall|i: int, j: int| 0 <= i < j < keys2.len() implies keys2[i] != keys2[j] by {
        if j == keys2.len() - 1 {
            if keys2[i] == k {
                assert(keys.contains(k)) by {
                    assert(keys[i] == k);
                }
            }
        }
    }
}

/// Any slice of a chain with pairwise distinct keys keeps its keys
/// pairwise distinct.
pub proof fn lemma_distinct_subrange(keys: Seq<Seq<u8>>, a: int, b: int)
    requires
        distinct_keys(keys),
        0 <= a <= b <= keys.len(),
    ensures
        distinct_keys(keys.subrange(a, b)),
{
}

/// `i` is the position of the first occurrence of `k` in `keys`.
pub open spec fn is_first_index(keys: Seq<Seq<u8>>, k: Seq<u8>, i: int) -> bool {
    0 <= i < keys.len() && keys[i] == k && forall|j: int| 0 <= j < i ==> keys[j] != k
}

/// A key has at most one first occurrence.
pub proof fn lemma_first_index_unique(keys: Seq<Seq<u8>>, k: Seq<u8>, a: int, b: int)
    requires
        is_first_index(keys, k, a),
        is_first_index(keys, k, b),
    ensures
        a == b,
{
    if a < b {
        assert(keys[a] != k);
    }
    if b < a {
        assert(keys[b] != k);
    }
}

/// The position of the first occurrence of `k` in `keys`, or the length
/// of `keys` when it does not occur.
pub open spec fn find_first(keys: Seq<Seq<u8>>, k: Seq<u8>) -> int
    decreases keys.len(),
{
    if keys.len() == 0 {
        0
    } else if keys[0] == k {
        0
    } else {
        1 + find_first(keys.subrange(1, keys.len() as int), k)
    }
}

/// `find_first` yields the first occurrence when the key occurs, and the
/// length of the sequence when it does not.
pub proof fn lemma_find_first(keys: Seq<Seq<u8>>, k: Seq<u8>)
    ensures
        keys.contains(k) ==> is_first_index(keys, k, find_first(keys, k)),
        !keys.contains(k) ==> find_first(keys, k) == keys.len(),
    decreases keys.len(),
{
    if keys.len() > 0 && keys[0] != k {
        let rest = keys.subrange(1, keys.len() as int);
        lemma_find_first(rest, k);
        if keys.contains(k) {
            let j = choose|j: int| 0 <= j < keys.len() && keys[j] == k;
            assert(rest[j - 1] == k);
            assert(rest.contains(k));
            let f = find_first(rest, k);
            assert(keys[1 + f] == rest[f]);
            assert forall|m: int| 0 <= m < 1 + f implies keys[m] != k by {
                if m >= 1 {
                    assert(keys[m] == rest[m - 1]);
                }
            }
        } else {
            if rest.contains(k) {
                let j = choose|j: int| 0 <= j < rest.len() && rest[j] == k;
                assert(keys[j + 1] == k);
                assert(keys.contains(k));
            }
        }
    }
}

/// The two key sequences agree on every position where both are defined.
pub open spec fn zip_eq(a: Seq<Seq<u8>>, b: Seq<Seq<u8>>) -> bool {
    forall|i: int| 0 <= i < a.len() && i < b.len() ==> a[i] == #[trigger] b[i]
}

/// The outcome of reconciling two chains that are expected to overlap on
/// a contiguous run of keys.  The chain that holds the other's first key
/// absorbs it: the overlapping runs must agree, and whichever part of
/// the other chain reaches past the end is spliced on.  `None` when the
/// chains share no first key or their overlap disagrees.
pub open spec fn merge_spec(
    ak: Seq<Seq<u8>>,
    asg: Seq<Seq<u8>>,
    bk: Seq<Seq<u8>>,
    bsg: Seq<Seq<u8>>,
) -> Option<(Seq<Seq<u8>>, Seq<Seq<u8>>)> {
    if ak.contains(bk[0]) {
        let f = find_first(ak, bk[0]);
        if zip_eq(ak.subrange(f + 1, ak.len() as int), bk.subrange(1, bk.len() as int)) {
            if ak.contains(bk.last()) {
                Some((ak, asg))
            } else {
                Some(
                    (
                        ak.subrange(0, f + 1) + bk.subrange(1, bk.len() as int),
                        asg.subrange(0, f) + bsg,
                    ),
                )
            }
        } else {
            None
        }
    } else if bk.contains(ak[0]) {
        let f = find_first(bk, ak[0]);
        if zip_eq(ak.subrange(1, ak.len() as int), bk.subrange(f + 1, bk.len() as int)) {
            if bk.contains(ak.last()) {
                Some((bk, bsg))
            } else {
                Some(
                    (
                        bk.subrange(0, f + 1) + ak.subrange(1, ak.len() as int),
                        bsg.subrange(0, f) + asg,
                    ),
                )
            }
        } else {
            None
        }
    } else {
        None
    }
}

/// `i` is the position of the latest key of the chain that the given set
/// trusts, and no later key is trusted.
pub open spec fn is_latest_trusted(keys: Seq<Seq<u8>>, trusted: Seq<Seq<u8>>, i: int) -> bool {
    0 <= i < keys.len() && trusted.contains(keys[i]) && forall|j: int|
        i < j < keys.len() ==> !trusted.contains(#[trigger] keys[j])
}

/// As soon as any chain key is trusted, some position is the latest
/// trusted one; paired with the contract of the trust check, this is
/// what lets a caller who trusts the first key of a fully verifying
/// chain conclude that the verdict is `Trusted`.
pub proof fn lemma_latest_trusted_exists(keys: Seq<Seq<u8>>, trusted: Seq<Seq<u8>>)
    requires
        exists|i: int| 0 <= i < keys.len() && trusted.contains(#[trigger] keys[i]),
    ensures
        exists|i: int| is_latest_trusted(keys, trusted, i),
    decreases keys.len(),
{
    if trusted.contains(keys[keys.len() - 1]) {
        assert(is_latest_trusted(keys, trusted, keys.len() - 1));
    } else {
        let w = choose|i: int| 0 <= i < keys.len() && trusted.contains(#[trigger] keys[i]);
        let front = keys.drop_last();
        assert(front[w] == keys[w]);
        lemma_latest_trusted_exists(front, trusted);
        let i = choose|i: int| is_latest_trusted(front, trusted, i);
        assert(keys[i] == front[i]);
        assert forall|j: int| i < j < keys.len() implies !trusted.contains(
            #[trigger] keys[j],
        ) by {
            if j < keys.len() - 1 {
                assert(front[j] == keys[j]);
            }
        }
        assert(is_latest_trusted(keys, trusted, i));
    }
}

/// Verdict of checking a proof chain against a set of trusted keys.
#[derive(Clone, Copy, PartialEq, Eq, Structural, Debug)]
pub enum TrustStatus {
    /// Some trusted key occurs in the chain and every link after it is
    /// validly signed.
    Trusted,
    /// A link that had to be checked carries an invalid signature.
    Invalid,
    /// The chain is internally consistent but shares no key with the
    /// trusted set, so its trust cannot be decided.
    Unknown,
}

/// Whether some vector in `list` holds exactly the bytes of `x`.
pub fn list_contains(list: &Vec<Vec<u8>>, x: &Vec<u8>) -> (r: bool)
    ensures
        r == byte_views(list@).contains(x@),
{
    let mut i: usize = 0;
    while i < list.len()
        invariant
            i <= list@.len(),
            forall|j: int| 0 <= j < i ==> byte_views(list@)[j] != x@,
        decreases list@.len() - i,
    {
        if bytes_equal(&list[i], x) {
            proof {
                assert(byte_views(list@)[i as int] == x@);
            }
            return true;
        }
        i += 1;
    }
    proof {
        if byte_views(list@).contains(x@) {
            let j = choose|j: int|
                0 <= j < byte_views(list@).len() && byte_views(list@)[j] == x@;
            assert(false);
        }
    }
    false
}

/// Why a chain could not be extended backward.
#[derive(Clone, Copy, PartialEq, Eq, Structural, Debug)]
pub enum ExtendError {
    /// The requested first key is unknown to the reference chain, or
    /// comes after this chain's last key there.
    InvalidFirstKey,
    /// The reference chain does not hold this chain's last key.
    InvalidLastKey,
    /// This chain already starts at or before the requested first key.
    AlreadySufficient,
}

/// Two chains whose key sequences do not overlap cannot be merged.
#[derive(Clone, Copy, PartialEq, Eq, Structural, Debug)]
pub struct MergeError;

/// Whether the keys of `a` from position `a_from` on agree with the keys
/// of `b` from position `b_from` on, as far as both run.
fn keys_zip_eq(a: &SectionProofChain, a_from: u64, b: &SectionProofChain, b_from: u64) -> (r: bool)
    requires
        a_from <= a.keys_seq().len() <= usize::MAX,
        b_from <= b.keys_seq().len() <= usize::MAX,
    ensures
        r == zip_eq(
            a.keys_seq().subrange(a_from as int, a.keys_seq().len() as int),
            b.keys_seq().subrange(b_from as int, b.keys_seq().len() as int),
        ),
{
    let ghost xa = a.keys_seq().subrange(a_from as int, a.keys_seq().len() as int);
    let ghost xb = b.keys_seq().subrange(b_from as int, b.keys_seq().len() as int);
    let alen: usize = a.len();
    let blen: usize = b.len();
    let af: usize = a_from as usize;
    let bf: usize = b_from as usize;
    let mut i: usize = 0;
    while af + i < alen && bf + i < blen
        invariant
            af == a_from && bf == b_from,
            alen == a.keys_seq().len() && blen == b.keys_seq().len(),
            af + i <= alen,
            bf + i <= blen,
            xa == a.keys_seq().subrange(a_from as int, a.keys_seq().len() as int),
            xb == b.keys_seq().subrange(b_from as int, b.keys_seq().len() as int),
            forall|j: int| 0 <= j < i ==> xa[j] == #[trigger] xb[j],
        decreases alen - (af + i),
    {
        if !bytes_equal(a.key_at(af + i), b.key_at(bf + i)) {
            proof {
                assert(xa[i as int] != xb[i as int]);
            }
            return false;
        }
        proof {
            assert(xa[i as int] == xb[i as int]);
        }
        i += 1;
    }
    true
}

/// Chain of section keys where every key is signed by the previous one,
/// except the first.
pub struct SectionProofChain {
    head: Vec<u8>,
    tail: Vec<Block>,
}

impl SectionProofChain {
    /// The keys of the chain, first to last.
    pub closed spec fn keys_seq(&self) -> Seq<Seq<u8>> {
        seq![self.head@] + self.tail@.map_values(|b: Block| b.key@)
    }

    /// The signatures of the chain; the one at position `i` signs the key
    /// at position `i + 1` under the key at position `i`.
    pub closed spec fn sigs_seq(&self) -> Seq<Seq<u8>> {
        self.tail@.map_values(|b: Block| b.signature@)
    }

    /// Creates a chain holding the single key `first`.
    pub fn new(first: Vec<u8>) -> (r: SectionProofChain)
        ensures
            r.keys_seq() =~= seq![first@],
            r.sigs_seq() =~= Seq::<Seq<u8>>::empty(),
    {
        SectionProofChain { head: first, tail: Vec::new() }
    }

    /// The number of keys in the chain.
    pub fn len(&self) -> (r: usize)
        requires
            self.keys_seq().len() <= usize::MAX,
        ensures
            r == self.keys_seq().len(),
    {
        1 + self.tail.len()
    }

    /// The position of the last key.
    pub fn last_key_index(&self) -> (r: u64)
        requires
            self.keys_seq().len() <= u64::MAX,
        ensures
            r == self.keys_seq().len() - 1,
    {
        self.tail.len() as u64
    }

    /// The first key of the chain.
    pub fn first_key(&self) -> (r: &Vec<u8>)
        ensures
            r@ == self.keys_seq()[0],
    {
        &self.head
    }

    /// The last key of the chain.
    pub fn last_key(&self) -> (r: &Vec<u8>)
        ensures
            r@ == self.keys_seq().last(),
    {
        if self.tail.len() == 0 {
            &self.head
        } else {
            &self.tail[self.tail.len() - 1].key
        }
    }

    /// All keys of the chain as owned byte vectors, first to last.
    pub fn keys(&self) -> (r: Vec<Vec<u8>>)
        ensures
            byte_views(r@) =~= self.keys_seq(),
    {
        let mut r: Vec<Vec<u8>> = Vec::new();
        r.push(clone_bytes(&self.head));
        let mut i: usize = 0;
        while i < self.tail.len()
            invariant
                i <= self.tail@.len(),
                r@.len() == i + 1,
                forall|j: int| 0 <= j < r@.len() ==> (#[trigger] r@[j])@ == self.keys_seq()[j],
            decreases self.tail@.len() - i,
        {
            r.push(clone_bytes(&self.tail[i].key));
            i += 1;
        }
        proof {
            assert(byte_views(r@) =~= self.keys_seq());
        }
        r
    }

    /// Whether the chain holds the given key.
    pub fn has_key(&self, key: &Vec<u8>) -> (r: bool)
        ensures
            r == self.keys_seq().contains(key@),
    {
        match self.index_of(key) {
            Some(_) => true,
            None => false,
        }
    }

    /// The position of the first occurrence of `key` in the chain, if the
    /// chain holds it.
    pub fn index_of(&self, key: &Vec<u8>) -> (r: Option<u64>)
        ensures
            match r {
                Some(i) => is_first_index(self.keys_seq(), key@, i as int),
                None => !self.keys_seq().contains(key@),
            },
    {
        if bytes_equal(&self.head, key) {
            return Some(0);
        }
        let mut i: usize = 0;
        while i < self.tail.len()
            invariant
                i <= self.tail@.len(),
                forall|j: int| 0 <= j < i + 1 ==> self.keys_seq()[j] != key@,
            decreases self.tail@.len() - i,
        {
            if bytes_equal(&self.tail[i].key, key) {
                proof {
                    assert(self.keys_seq()[i + 1] == key@);
                }
                return Some((i + 1) as u64);
            }
            i += 1;
        }
        proof {
            if self.keys_seq().contains(key@) {
                let j = choose|j: int|
                    0 <= j < self.keys_seq().len() && self.keys_seq()[j] == key@;
                assert(false);
            }
        }
        None
    }

    /// Appends `key` to the chain, provided the chain does not hold it
    /// yet and `signature` is a valid signature over `key` by the current
    /// last key.  Returns whether the chain changed; on failure the chain
    /// is left byte for byte as it was.
    pub fn push(&mut self, key: Vec<u8>, signature: Vec<u8>) -> (r: bool)
        ensures
            r == (!old(self).keys_seq().contains(key@) && bls_verify(
                old(self).keys_seq().last(),
                signature@,
                key@,
            )),
            r ==> final(self).keys_seq() == old(self).keys_seq().push(key@)
                && final(self).sigs_seq() == old(self).sigs_seq().push(signature@),
            !r ==> final(self).keys_seq() == old(self).keys_seq()
                && final(self).sigs_seq() == old(self).sigs_seq(),
    {
        if self.has_key(&key) {
            return false;
        }
        let valid = {
            let last = self.last_key();
            verify_bls_signature(last, &signature, &key)
        };
        if valid {
            self.tail.push(Block { key, signature });
            proof {
                assert(final(self).keys_seq() =~= old(self).keys_seq().push(
                    final(self).keys_seq().last(),
                ));
                assert(final(self).sigs_seq() =~= old(self).sigs_seq().push(
                    final(self).sigs_seq().last(),
                ));
            }
            true
        } else {
            false
        }
    }

    /// The key at position `i` of the chain.
    pub fn key_at(&self, i: usize) -> (r: &Vec<u8>)
        requires
            i < self.keys_seq().len(),
        ensures
            r@ == self.keys_seq()[i as int],
    {
        if i == 0 {
            &self.head
        } else {
            &self.tail[i - 1].key
        }
    }

    /// Classifies this chain against a set of trusted keys: `Trusted`
    /// when every link after the latest trusted key in the chain is
    /// validly signed, `Invalid` when such a link fails (or when no key
    /// is trusted and the chain does not even verify against itself),
    /// and `Unknown` when the chain is self-consistent but holds no
    /// trusted key at all.
    #[verifier::loop_isolation(false)]
    pub fn check_trust(&self, trusted_keys: &Vec<Vec<u8>>) -> (r: TrustStatus)
        ensures
            forall|i: int|
                is_latest_trusted(self.keys_seq(), byte_views(trusted_keys@), i) ==> ((r
                    == TrustStatus::Trusted <==> forall|j: int|
                    i <= j < self.sigs_seq().len() ==> bls_verify(
                        self.keys_seq()[j],
                        #[trigger] self.sigs_seq()[j],
                        self.keys_seq()[j + 1],
                    )) && (r == TrustStatus::Trusted || r == TrustStatus::Invalid)),
            (forall|i: int|
                0 <= i < self.keys_seq().len() ==> !byte_views(trusted_keys@).contains(
                    #[trigger] self.keys_seq()[i],
                )) ==> r == (if chain_verified(self.keys_seq(), self.sigs_seq()) {
                TrustStatus::Unknown
            } else {
                TrustStatus::Invalid
            }),
    {
        let ghost keys = self.keys_seq();
        let ghost tv = byte_views(trusted_keys@);
        // Scan from the last key backward for the latest trusted key.
        let mut k: usize = self.tail.len();
        let mut found: bool = false;
        let mut done: bool = false;
        while !done
            invariant
                k <= self.tail@.len(),
                !found ==> forall|j: int| k < j < keys.len() ==> !tv.contains(#[trigger] keys[j]),
                found ==> is_latest_trusted(keys, tv, k as int),
                done && !found ==> forall|j: int|
                    0 <= j < keys.len() ==> !tv.contains(#[trigger] keys[j]),
            decreases k + (if done {
                0int
            } else {
                1int
            }),
        {
            let key_ref = if k == 0 {
                &self.head
            } else {
                &self.tail[k - 1].key
            };
            proof {
                assert(key_ref@ == keys[k as int]);
            }
            if list_contains(trusted_keys, key_ref) {
                found = true;
                done = true;
            } else if k == 0 {
                done = true;
            } else {
                k -= 1;
            }
        }
        if found {
            // Check every link from the latest trusted key forward.
            let mut j: usize = k;
            while j < self.tail.len()
                invariant
                    k <= j <= self.tail@.len(),
                    forall|m: int|
                        k <= m < j ==> bls_verify(
                            keys[m],
                            #[trigger] self.sigs_seq()[m],
                            keys[m + 1],
                        ),
                decreases self.tail@.len() - j,
            {
                let prev = if j == 0 {
                    &self.head
                } else {
                    &self.tail[j - 1].key
                };
                let block = &self.tail[j];
                proof {
                    assert(prev@ == keys[j as int]);
                    assert(block.signature@ == self.sigs_seq()[j as int]);
                    assert(block.key@ == keys[j + 1]);
                }
                if !verify_bls_signature(prev, &block.signature, &block.key) {
                    proof {
                        assert forall|i: int|
                            is_latest_trusted(keys, tv, i) implies i == k as int by {
                            if i < k {
                                assert(tv.contains(keys[k as int]));
                            }
                            if i > k {
                                assert(!tv.contains(keys[i]));
                            }
                        }
                    }
                    return TrustStatus::Invalid;
                }
                j += 1;
            }
            proof {
                assert forall|i: int| is_latest_trusted(keys, tv, i) implies i == k as int by {
                    if i < k {
                        assert(tv.contains(keys[k as int]));
                    }
                    if i > k {
                        assert(!tv.contains(keys[i]));
                    }
                }
            }
            TrustStatus::Trusted
        } else {
            if self.self_verify() {
                TrustStatus::Unknown
            } else {
                TrustStatus::Invalid
            }
        }
    }

    /// The sub-chain holding the keys from position `first` to position
    /// `last` inclusive.  Out-of-range or inverted positions are clamped
    /// to the nearest valid range, so the result always holds at least
    /// one key and this function never fails.
    pub fn slice(&self, first: u64, last: u64) -> (r: SectionProofChain)
        requires
            self.keys_seq().len() <= usize::MAX,
        ensures
            r.keys_seq() == self.keys_seq().subrange(
                clamp_start(first as int, self.keys_seq().len() as int),
                clamp_end(
                    last as int,
                    clamp_start(first as int, self.keys_seq().len() as int),
                    self.keys_seq().len() as int,
                ),
            ),
            r.sigs_seq() == self.sigs_seq().subrange(
                clamp_start(first as int, self.keys_seq().len() as int),
                clamp_end(
                    last as int,
                    clamp_start(first as int, self.keys_seq().len() as int),
                    self.keys_seq().len() as int,
                ) - 1,
            ),
    {
        let n_tail: usize = self.tail.len();
        let start: usize = if first < n_tail as u64 {
            first as usize
        } else {
            n_tail
        };
        let mut end: usize = if last < n_tail as u64 {
            last as usize + 1
        } else {
            n_tail + 1
        };
        if end <= start {
            end = start + 1;
        }
        let head = if start == 0 {
            clone_bytes(&self.head)
        } else {
            clone_bytes(&self.tail[start - 1].key)
        };
        let mut tail: Vec<Block> = Vec::new();
        let mut k: usize = start;
        while k < end - 1
            invariant
                start <= k <= end - 1,
                end <= self.tail@.len() + 1,
                tail@.len() == k - start,
                forall|j: int|
                    0 <= j < tail@.len() ==> (#[trigger] tail@[j]).key@ == self.tail@[start
                        + j].key@ && tail@[j].signature@ == self.tail@[start + j].signature@,
            decreases end - 1 - k,
        {
            tail.push(
                Block {
                    key: clone_bytes(&self.tail[k].key),
                    signature: clone_bytes(&self.tail[k].signature),
                },
            );
            k += 1;
        }
        let r = SectionProofChain { head, tail };
        proof {
            let n = self.keys_seq().len() as int;
            let s = clamp_start(first as int, n);
            let e = clamp_end(last as int, s, n);
            assert(s == start && e == end);
            assert(r.keys_seq() =~= self.keys_seq().subrange(s, e));
            assert(r.sigs_seq() =~= self.sigs_seq().subrange(s, e - 1));
        }
        r
    }

    /// The sub-chain from position `first` to the end of the chain; an
    /// out-of-range `first` is clamped to the last key.
    pub fn slice_from(&self, first: u64) -> (r: SectionProofChain)
        requires
            self.keys_seq().len() <= usize::MAX,
        ensures
            r.keys_seq() == self.keys_seq().subrange(
                clamp_start(first as int, self.keys_seq().len() as int),
                self.keys_seq().len() as int,
            ),
            r.sigs_seq() == self.sigs_seq().subrange(
                clamp_start(first as int, self.keys_seq().len() as int),
                self.keys_seq().len() as int - 1,
            ),
    {
        let r = self.slice(first, u64::MAX);
        proof {
            let n = self.keys_seq().len() as int;
            let s = clamp_start(first as int, n);
            assert(clamp_end(u64::MAX as int, s, n) == n);
        }
        r
    }

    /// Moves the starting point of this chain backward to
    /// `new_first_key`, keeping the current last key, by cutting the
    /// matching window out of `full_chain`.  Fails without changing the
    /// chain when this chain already holds `new_first_key`, when
    /// `full_chain` does not hold it (or holds it after this chain's last
    /// key), or when `full_chain` does not hold this chain's last key.
    #[verifier::loop_isolation(false)]
    pub fn extend(&mut self, new_first_key: &Vec<u8>, full_chain: &SectionProofChain) -> (r:
        Result<(), ExtendError>)
        requires
            full_chain.keys_seq().len() <= usize::MAX,
        ensures
            ({
                let ak = old(self).keys_seq();
                let fk = full_chain.keys_seq();
                let unchanged = final(self).keys_seq() == ak && final(self).sigs_seq() == old(
                    self,
                ).sigs_seq();
                &&& ak.contains(new_first_key@) ==> r == Err::<(), ExtendError>(
                    ExtendError::AlreadySufficient,
                ) && unchanged
                &&& !ak.contains(new_first_key@) && !fk.contains(new_first_key@) ==> r == Err::<
                    (),
                    ExtendError,
                >(ExtendError::InvalidFirstKey) && unchanged
                &&& !ak.contains(new_first_key@) && fk.contains(new_first_key@) && !fk.contains(
                    ak.last(),
                ) ==> r == Err::<(), ExtendError>(ExtendError::InvalidLastKey) && unchanged
                &&& !ak.contains(new_first_key@) && fk.contains(new_first_key@) && fk.contains(
                    ak.last(),
                ) ==> forall|a: int, b: int|
                    #![trigger is_first_index(fk, new_first_key@, a), is_first_index(fk, ak.last(), b)]
                    is_first_index(fk, new_first_key@, a) && is_first_index(
                        fk,
                        ak.last(),
                        b,
                    ) ==> if a > b {
                        r == Err::<(), ExtendError>(ExtendError::InvalidFirstKey) && unchanged
                    } else {
                        r == Ok::<(), ExtendError>(()) && final(self).keys_seq() == fk.subrange(
                            a,
                            b + 1,
                        ) && final(self).sigs_seq() == full_chain.sigs_seq().subrange(a, b)
                    }
            }),
    {
        if self.has_key(new_first_key) {
            return Err(ExtendError::AlreadySufficient);
        }
        let index_from = match full_chain.index_of(new_first_key) {
            Some(i) => i,
            None => {
                return Err(ExtendError::InvalidFirstKey);
            },
        };
        let index_to = match full_chain.index_of(self.last_key()) {
            Some(i) => i,
            None => {
                return Err(ExtendError::InvalidLastKey);
            },
        };
        if index_from > index_to {
            proof {
                assert forall|a: int, b: int|
                    is_first_index(full_chain.keys_seq(), new_first_key@, a) && is_first_index(
                        full_chain.keys_seq(),
                        old(self).keys_seq().last(),
                        b,
                    ) implies a == index_from as int && b == index_to as int by {
                    lemma_first_index_unique(
                        full_chain.keys_seq(),
                        new_first_key@,
                        a,
                        index_from as int,
                    );
                    lemma_first_index_unique(
                        full_chain.keys_seq(),
                        old(self).keys_seq().last(),
                        b,
                        index_to as int,
                    );
                }
            }
            return Err(ExtendError::InvalidFirstKey);
        }
        *self = full_chain.slice(index_from, index_to);
        proof {
            let fk = full_chain.keys_seq();
            let n = fk.len() as int;
            assert(clamp_start(index_from as int, n) == index_from as int);
            assert(clamp_end(index_to as int, index_from as int, n) == index_to as int + 1);
            assert forall|a: int, b: int|
                is_first_index(fk, new_first_key@, a) && is_first_index(
                    fk,
                    old(self).keys_seq().last(),
                    b,
                ) implies a == index_from as int && b == index_to as int by {
                lemma_first_index_unique(fk, new_first_key@, a, index_from as int);
                lemma_first_index_unique(fk, old(self).keys_seq().last(), b, index_to as int);
            }
        }
        Ok(())
    }

    /// Reconciles this chain with another that overlaps it on a
    /// contiguous run of keys.  Whichever chain holds the other's first
    /// key absorbs the other, provided the overlapping keys agree; the
    /// part reaching past its end is spliced on.  Fails without changing
    /// this chain when neither chain holds the other's first key or the
    /// overlap disagrees.
    #[verifier::loop_isolation(false)]
    pub fn merge(&mut self, other: SectionProofChain) -> (r: Result<(), MergeError>)
        requires
            old(self).keys_seq().len() <= usize::MAX,
            other.keys_seq().len() <= usize::MAX,
        ensures
            match merge_spec(
                old(self).keys_seq(),
                old(self).sigs_seq(),
                other.keys_seq(),
                other.sigs_seq(),
            ) {
                Some(ks) => r == Ok::<(), MergeError>(()) && final(self).keys_seq() == ks.0
                    && final(self).sigs_seq() == ks.1,
                None => r == Err::<(), MergeError>(MergeError) && final(self).keys_seq() == old(
                    self,
                ).keys_seq() && final(self).sigs_seq() == old(self).sigs_seq(),
            },
    {
        let ghost ak = self.keys_seq();
        let ghost asg = self.sigs_seq();
        let ghost bk = other.keys_seq();
        let ghost bsg = other.sigs_seq();
        proof {
            assert(bk[0] == other.keys_seq()[0]);
        }
        match self.index_of(other.first_key()) {
            Some(f) => {
                proof {
                    lemma_find_first(ak, bk[0]);
                    lemma_first_index_unique(ak, bk[0], f as int, find_first(ak, bk[0]));
                }
                if !keys_zip_eq(self, f + 1, &other, 1) {
                    return Err(MergeError);
                }
                if self.has_key(other.last_key()) {
                    Ok(())
                } else {
                    let fu: usize = f as usize;
                    self.tail.truncate(fu);
                    let mut rest = other.tail;
                    self.tail.append(&mut rest);
                    proof {
                        assert(final(self).keys_seq() =~= ak.subrange(0, f + 1) + bk.subrange(
                            1,
                            bk.len() as int,
                        ));
                        assert(final(self).sigs_seq() =~= asg.subrange(0, f as int) + bsg);
                    }
                    Ok(())
                }
            },
            None => {
                let self_first = clone_bytes(self.first_key());
                match other.index_of(&self_first) {
                    Some(f) => {
                        proof {
                            lemma_find_first(bk, ak[0]);
                            lemma_first_index_unique(bk, ak[0], f as int, find_first(bk, ak[0]));
                        }
                        if !keys_zip_eq(self, 1, &other, f + 1) {
                            return Err(MergeError);
                        }
                        if other.has_key(self.last_key()) {
                            *self = other;
                            Ok(())
                        } else {
                            let fu: usize = f as usize;
                            let mut base = other.tail;
                            base.truncate(fu);
                            base.append(&mut self.tail);
                            self.head = other.head;
                            self.tail = base;
                            proof {
                                assert(final(self).keys_seq() =~= bk.subrange(0, f + 1)
                                    + ak.subrange(1, ak.len() as int));
                                assert(final(self).sigs_seq() =~= bsg.subrange(0, f as int) + asg);
                            }
                            Ok(())
                        }
                    },
                    None => Err(MergeError),
                }
            },
        }
    }

    /// Appends a link without checking its signature, so that chains
    /// with broken links can be built and fed to the checking functions.
    pub fn push_without_validation(&mut self, key: Vec<u8>, signature: Vec<u8>)
        ensures
            final(self).keys_seq() == old(self).keys_seq().push(key@),
            final(self).sigs_seq() == old(self).sigs_seq().push(signature@),
    {
        self.tail.push(Block { key, signature });
        proof {
            assert(final(self).keys_seq() =~= old(self).keys_seq().push(
                final(self).keys_seq().last(),
            ));
            assert(final(self).sigs_seq() =~= old(self).sigs_seq().push(
                final(self).sigs_seq().last(),
            ));
        }
    }

    /// Replays the chain, checking every link's signature against the key
    /// before it.  The first key cannot be checked this way; pair this
    /// with a set of already trusted keys to decide trust.
    pub fn self_verify(&self) -> (r: bool)
        ensures
            r == chain_verified(self.keys_seq(), self.sigs_seq()),
    {
        let mut i: usize = 0;
        while i < self.tail.len()
            invariant
                i <= self.tail@.len(),
                forall|j: int|
                    0 <= j < i ==> bls_verify(
                        self.keys_seq()[j],
                        #[trigger] self.sigs_seq()[j],
                        self.keys_seq()[j + 1],
                    ),
            decreases self.tail@.len() - i,
        {
            let prev = if i == 0 {
                &self.head
            } else {
                &self.tail[i - 1].key
            };
            let block = &self.tail[i];
            if !verify_bls_signature(prev, &block.signature, &block.key) {
                proof {
                    assert(self.sigs_seq()[i as int] == block.signature@);
                    assert(self.keys_seq()[i as int] == prev@);
                    assert(self.keys_seq()[i + 1] == block.key@);
                }
                return false;
            }
            i += 1;
        }
        true
    }
}

/// Law: two complementary slices of one chain merge back into it.  For a
/// chain with pairwise distinct keys, the slice that keeps positions
/// `i..` merged with the slice that keeps positions `..=j`, for any
/// 0 <= i <= j < len, yields exactly the original keys and signatures —
/// so the merged chain verifies against itself exactly when the original
/// does.
pub proof fn lemma_slice_merge_reconstructs(
    keys: Seq<Seq<u8>>,
    sigs: Seq<Seq<u8>>,
    i: int,
    j: int,
)
    requires
        keys.len() == sigs.len() + 1,
        distinct_keys(keys),
        0 <= i <= j < keys.len(),
    ensures
        merge_spec(
            keys.subrange(i, keys.len() as int),
            sigs.subrange(i, sigs.len() as int),
            keys.subrange(0, j + 1),
            sigs.subrange(0, j),
        ) == Some((keys, sigs)),
{
    let n = keys.len() as int;
    let ak = keys.subrange(i, n);
    let asg = sigs.subrange(i, sigs.len() as int);
    let bk = keys.subrange(0, j + 1);
    let bsg = sigs.subrange(0, j);
    assert(bk[0] == keys[0]);
    assert(ak[0] == keys[i]);
    assert(ak.last() == keys[n - 1]);
    assert(bk.last() == keys[j]);
    if i == 0 {
        assert(ak.contains(bk[0])) by {
            assert(ak[0] == bk[0]);
        }
        lemma_find_first(ak, bk[0]);
        assert(find_first(ak, bk[0]) == 0) by {
            lemma_first_index_unique(ak, bk[0], find_first(ak, bk[0]), 0);
        }
        assert(zip_eq(ak.subrange(1, ak.len() as int), bk.subrange(1, bk.len() as int)));
        assert(ak.contains(bk.last())) by {
            assert(ak[j] == keys[j]);
        }
        assert(ak =~= keys);
        assert(asg =~= sigs);
    } else {
        assert(!ak.contains(bk[0])) by {
            if ak.contains(bk[0]) {
                let x = choose|x: int| 0 <= x < ak.len() && ak[x] == bk[0];
                assert(keys[i + x] == keys[0]);
            }
        }
        assert(bk.contains(ak[0])) by {
            assert(bk[i] == keys[i]);
        }
        lemma_find_first(bk, ak[0]);
        assert(find_first(bk, ak[0]) == i) by {
            assert(is_first_index(bk, ak[0], i)) by {
                assert forall|m: int| 0 <= m < i implies bk[m] != ak[0] by {
                    assert(bk[m] == keys[m]);
                }
            }
            lemma_first_index_unique(bk, ak[0], find_first(bk, ak[0]), i);
        }
        assert(zip_eq(ak.subrange(1, ak.len() as int), bk.subrange(i + 1, bk.len() as int)));
        if j == n - 1 {
            assert(bk.contains(ak.last())) by {
                assert(bk[j] == keys[n - 1]);
            }
            assert(bk =~= keys);
            assert(bsg =~= sigs);
        } else {
            assert(!bk.contains(ak.last())) by {
                if bk.contains(ak.last()) {
                    let x = choose|x: int| 0 <= x < bk.len() && bk[x] == ak.last();
                    assert(keys[x] == keys[n - 1]);
                }
            }
            assert(bk.subrange(0, i + 1) + ak.subrange(1, ak.len() as int) =~= keys);
            assert(bsg.subrange(0, i) + asg =~= sigs);
        }
    }
}

} // verus!
