//! Section prefixes.
//!
//! A prefix is a sequence of at most 256 bits naming the part of the
//! address space whose addresses start with those bits.  Two prefixes are
//! always either disjoint, equal, or one an ancestor of the other.  The
//! model of a prefix is the plain sequence of its bits.

use vstd::prelude::*;
use crate::xor_name::{XorName, name_bit};

verus! {

/// Whether `a` is a (not necessarily strict) leading segment of `b`.
pub open spec fn is_prefix_of(a: Seq<bool>, b: Seq<bool>) -> bool {
    a.len() <= b.len() && a == b.subrange(0, a.len() as int)
}

/// Bit `i` of the prefix padded with zero bits to the full address width.
pub open spec fn padded_bit(p: Seq<bool>, i: int) -> bool {
    0 <= i < p.len() && p[i]
}

/// Whether the address `n` starts with the bits of `p`.
pub open spec fn prefix_matches(p: Seq<bool>, n: Seq<u8>) -> bool {
    forall|i: int| 0 <= i < p.len() ==> #[trigger] p[i] == name_bit(n, i)
}

/// Whether one of the two prefixes is a leading segment of the other,
/// i.e. their address ranges are not disjoint.
pub open spec fn compatible(a: Seq<bool>, b: Seq<bool>) -> bool {
    is_prefix_of(a, b) || is_prefix_of(b, a)
}

/// The byte formed by the eight padded prefix bits starting at `start`.
pub open spec fn byte_of_bits(p: Seq<bool>, start: int) -> u8 {
    ((if padded_bit(p, start) {
        128u8
    } else {
        0u8
    }) + (if padded_bit(p, start + 1) {
        64u8
    } else {
        0u8
    }) + (if padded_bit(p, start + 2) {
        32u8
    } else {
        0u8
    }) + (if padded_bit(p, start + 3) {
        16u8
    } else {
        0u8
    }) + (if padded_bit(p, start + 4) {
        8u8
    } else {
        0u8
    }) + (if padded_bit(p, start + 5) {
        4u8
    } else {
        0u8
    }) + (if padded_bit(p, start + 6) {
        2u8
    } else {
        0u8
    }) + (if padded_bit(p, start + 7) {
        1u8
    } else {
        0u8
    })) as u8
}

/// The 32-byte address whose leading bits are `p` and whose remaining bits
/// are zero: the smallest address matching the prefix.
pub open spec fn prefix_name_bytes(p: Seq<bool>) -> Seq<u8> {
    Seq::new(32, |bi: int| byte_of_bits(p, 8 * bi))
}

/// The number of leading bits, counted from position `i` on, on which the
/// zero-padded prefix `p` and the address `n` agree, capped at 256.
pub open spec fn common_len_from(p: Seq<bool>, n: Seq<u8>, i: int) -> int
    decreases 256 - i,
{
    if i < 0 || i >= 256 {
        i
    } else if padded_bit(p, i) != name_bit(n, i) {
        i
    } else {
        common_len_from(p, n, i + 1)
    }
}

/// Three-way comparison of two integers.
pub open spec fn int_cmp(a: int, b: int) -> core::cmp::Ordering {
    if a < b {
        core::cmp::Ordering::Less
    } else if a == b {
        core::cmp::Ordering::Equal
    } else {
        core::cmp::Ordering::Greater
    }
}

/// Which of two prefixes lies closer to the address `t`: `Less` when `a`
/// is closer, `Greater` when `b` is, ties broken by bit count so that the
/// order is deterministic.
pub open spec fn cmp_distance_spec(a: Seq<bool>, b: Seq<bool>, t: Seq<u8>) -> core::cmp::Ordering {
    if compatible(a, b) {
        int_cmp(a.len() as int, b.len() as int)
    } else {
        int_cmp(common_len_from(b, t, 0), common_len_from(a, t, 0))
    }
}

/// The greatest length among the given bit sequences, zero when there are
/// none.
pub open spec fn max_len(ps: Seq<Seq<bool>>) -> nat
    decreases ps.len(),
{
    if ps.len() == 0 {
        0
    } else if ps.last().len() > max_len(ps.drop_last()) {
        ps.last().len()
    } else {
        max_len(ps.drop_last())
    }
}

/// Whether the address range of `p` is entirely covered by the ranges of
/// the prefixes in `ps`, exploring extensions of `p` no longer than `max`
/// bits: either some prefix in `ps` contains all of `p`, or both one-bit
/// extensions of `p` are covered.
pub open spec fn covered_from(p: Seq<bool>, ps: Seq<Seq<bool>>, max: nat) -> bool
    decreases max - p.len(),
{
    (exists|k: int| 0 <= k < ps.len() && is_prefix_of(ps[k], p)) || (p.len() < max
        && covered_from(p.push(false), ps, max) && covered_from(p.push(true), ps, max))
}

/// Whether the address range of `p` is entirely covered by the ranges of
/// the prefixes in `ps`.
pub open spec fn covered_by(p: Seq<bool>, ps: Seq<Seq<bool>>) -> bool {
    covered_from(p, ps, max_len(ps))
}

/// Every length in `ps` is bounded by `max_len(ps)`.
pub proof fn lemma_max_len_bound(ps: Seq<Seq<bool>>, k: int)
    requires
        0 <= k < ps.len(),
    ensures
        ps[k].len() <= max_len(ps),
    decreases ps.len(),
{
    if k < ps.len() - 1 {
        lemma_max_len_bound(ps.drop_last(), k);
    }
}

/// A sequence whose elements all occur in another has no greater maximal
/// length.
pub proof fn lemma_max_len_contained(ps1: Seq<Seq<bool>>, ps2: Seq<Seq<bool>>)
    requires
        forall|k: int| 0 <= k < ps1.len() ==> ps2.contains(#[trigger] ps1[k]),
    ensures
        max_len(ps1) <= max_len(ps2),
    decreases ps1.len(),
{
    if ps1.len() > 0 {
        assert(ps2.contains(ps1.last()));
        let j = choose|j: int| 0 <= j < ps2.len() && ps2[j] == ps1.last();
        lemma_max_len_bound(ps2, j);
        assert(forall|k: int|
            0 <= k < ps1.drop_last().len() ==> ps2.contains(#[trigger] ps1.drop_last()[k]));
        lemma_max_len_contained(ps1.drop_last(), ps2);
    }
}

/// Coverage is monotone: it survives adding prefixes to the covering set
/// and raising the exploration bound.
pub proof fn lemma_covered_mono(
    p: Seq<bool>,
    ps1: Seq<Seq<bool>>,
    ps2: Seq<Seq<bool>>,
    max1: nat,
    max2: nat,
)
    requires
        forall|k: int| 0 <= k < ps1.len() ==> ps2.contains(#[trigger] ps1[k]),
        max1 <= max2,
        covered_from(p, ps1, max1),
    ensures
        covered_from(p, ps2, max2),
    decreases max1 - p.len(),
{
    if exists|k: int| 0 <= k < ps1.len() && is_prefix_of(ps1[k], p) {
        let k = choose|k: int| 0 <= k < ps1.len() && is_prefix_of(ps1[k], p);
        assert(ps2.contains(ps1[k]));
        let j = choose|j: int| 0 <= j < ps2.len() && ps2[j] == ps1[k];
        assert(is_prefix_of(ps2[j], p));
    } else {
        lemma_covered_mono(p.push(false), ps1, ps2, max1, max2);
        lemma_covered_mono(p.push(true), ps1, ps2, max1, max2);
    }
}

/// Coverage survives replacing the covering set by one that holds every
/// prefix of the first.
pub proof fn lemma_covered_by_mono(p: Seq<bool>, ps1: Seq<Seq<bool>>, ps2: Seq<Seq<bool>>)
    requires
        forall|k: int| 0 <= k < ps1.len() ==> ps2.contains(#[trigger] ps1[k]),
        covered_by(p, ps1),
    ensures
        covered_by(p, ps2),
{
    lemma_max_len_contained(ps1, ps2);
    lemma_covered_mono(p, ps1, ps2, max_len(ps1), max_len(ps2));
}

/// Nothing is covered by an empty set of prefixes.
pub proof fn lemma_not_covered_empty(p: Seq<bool>, ps: Seq<Seq<bool>>, max: nat)
    requires
        ps.len() == 0,
    ensures
        !covered_from(p, ps, max),
    decreases max - p.len(),
{
    if p.len() < max {
        lemma_not_covered_empty(p.push(false), ps, max);
    }
}

/// Two prefixes that both match one address overlap: one of them is a
/// leading segment of the other.  Distinct prefixes matching the same
/// address are therefore always nested, never siblings.
pub proof fn lemma_matching_prefixes_nested(p: Seq<bool>, q: Seq<bool>, n: Seq<u8>)
    requires
        prefix_matches(p, n),
        prefix_matches(q, n),
    ensures
        compatible(p, q),
{
    if p.len() <= q.len() {
        assert(p =~= q.subrange(0, p.len() as int));
    } else {
        assert(q =~= p.subrange(0, q.len() as int));
    }
}

/// A prefix is covered as soon as both of its one-bit extensions are in
/// the covering set.
pub proof fn lemma_children_cover(p: Seq<bool>, ps: Seq<Seq<bool>>)
    requires
        ps.contains(p.push(false)),
        ps.contains(p.push(true)),
    ensures
        covered_by(p, ps),
{
    let k0 = choose|k: int| 0 <= k < ps.len() && ps[k] == p.push(false);
    let k1 = choose|k: int| 0 <= k < ps.len() && ps[k] == p.push(true);
    lemma_max_len_bound(ps, k0);
    let max = max_len(ps);
    assert(p.len() < max);
    assert(p.push(false).subrange(0, p.push(false).len() as int) =~= p.push(false));
    assert(p.push(true).subrange(0, p.push(true).len() as int) =~= p.push(true));
    assert(is_prefix_of(ps[k0], p.push(false)));
    assert(is_prefix_of(ps[k1], p.push(true)));
    assert(covered_from(p.push(false), ps, max));
    assert(covered_from(p.push(true), ps, max));
}

/// A section prefix: at most 256 leading bits of an address.
#[derive(PartialEq, Eq, Debug)]
pub struct Prefix {
    bits: Vec<bool>,
}

impl View for Prefix {
    type V = Seq<bool>;

    closed spec fn view(&self) -> Seq<bool> {
        self.bits@
    }
}

impl Prefix {
    /// A prefix is well formed when it is no longer than the address
    /// width; every prefix value satisfies this by construction.
    #[verifier::type_invariant]
    pub open spec fn wf(&self) -> bool {
        self@.len() <= 256
    }


    /// The empty prefix, matching every address.
    pub fn empty() -> (r: Prefix)
        ensures
            r@ =~= Seq::<bool>::empty(),
            r.wf(),
    {
        Prefix { bits: Vec::new() }
    }

    /// The prefix made of the first `bit_count` bits of `name`;
    /// `bit_count` is capped at the address width.
    pub fn new(bit_count: usize, name: &XorName) -> (r: Prefix)
        requires
            name.wf(),
        ensures
            r.wf(),
            r@.len() == if bit_count < 256 {
                bit_count as int
            } else {
                256int
            },
            forall|i: int| 0 <= i < r@.len() ==> r@[i] == name.bit_spec(i),
    {
        let n: usize = if bit_count < 256 {
            bit_count
        } else {
            256
        };
        let mut bits: Vec<bool> = Vec::new();
        let mut i: usize = 0;
        while i < n
            invariant
                name.wf(),
                n <= 256,
                i <= n,
                bits@.len() == i,
                forall|j: int| 0 <= j < i ==> bits@[j] == name.bit_spec(j),
            decreases n - i,
        {
            bits.push(name.bit(i));
            i += 1;
        }
        Prefix { bits }
    }

    /// The number of bits in the prefix.
    pub fn bit_count(&self) -> (r: usize)
        ensures
            r == self@.len(),
    {
        self.bits.len()
    }

    /// Whether this is the empty prefix.
    pub fn is_empty(&self) -> (r: bool)
        ensures
            r == (self@.len() == 0),
    {
        self.bits.len() == 0
    }

    /// Bit `i` of the prefix, zero-padded beyond its length.
    pub fn bit_at(&self, i: usize) -> (r: bool)
        ensures
            r == padded_bit(self@, i as int),
    {
        if i < self.bits.len() {
            self.bits[i]
        } else {
            false
        }
    }

    /// The smallest address matching this prefix: its bits followed by
    /// zero bits.
    pub fn name(&self) -> (r: XorName)
        requires
            self.wf(),
        ensures
            r.wf(),
            r@ == prefix_name_bytes(self@),
    {
        let mut bytes: Vec<u8> = Vec::new();
        let mut bi: usize = 0;
        while bi < 32
            invariant
                self.wf(),
                bi <= 32,
                bytes@.len() == bi,
                forall|j: int| 0 <= j < bi ==> bytes@[j] == byte_of_bits(self@, 8 * j),
            decreases 32 - bi,
        {
            let base: usize = 8 * bi;
            let b: u8 = (if self.bit_at(base) {
                128u8
            } else {
                0u8
            }) + (if self.bit_at(base + 1) {
                64u8
            } else {
                0u8
            }) + (if self.bit_at(base + 2) {
                32u8
            } else {
                0u8
            }) + (if self.bit_at(base + 3) {
                16u8
            } else {
                0u8
            }) + (if self.bit_at(base + 4) {
                8u8
            } else {
                0u8
            }) + (if self.bit_at(base + 5) {
                4u8
            } else {
                0u8
            }) + (if self.bit_at(base + 6) {
                2u8
            } else {
                0u8
            }) + (if self.bit_at(base + 7) {
                1u8
            } else {
                0u8
            });
            bytes.push(b);
            bi += 1;
        }
        proof {
            assert(bytes@ =~= prefix_name_bytes(self@));
        }
        XorName(bytes)
    }

    /// This prefix with `bit` appended, or this prefix unchanged when it
    /// is already at the address width.
    pub fn pushed(&self, bit: bool) -> (r: Prefix)
        requires
            self.wf(),
        ensures
            r.wf(),
            self@.len() < 256 ==> r@ == self@.push(bit),
            self@.len() == 256 ==> r@ == self@,
    {
        let mut bits = clone_bits(&self.bits);
        if bits.len() < 256 {
            bits.push(bit);
        }
        Prefix { bits }
    }

    /// This prefix without its last bit, or the empty prefix unchanged.
    pub fn popped(&self) -> (r: Prefix)
        requires
            self.wf(),
        ensures
            r.wf(),
            self@.len() > 0 ==> r@ == self@.drop_last(),
            self@.len() == 0 ==> r@ == self@,
    {
        let mut bits = clone_bits(&self.bits);
        if bits.len() > 0 {
            bits.pop();
            proof {
                assert(bits@ =~= self@.drop_last());
            }
        }
        Prefix { bits }
    }

    /// Whether the address `name` starts with this prefix.
    pub fn matches(&self, name: &XorName) -> (r: bool)
        requires
            self.wf(),
            name.wf(),
        ensures
            r == prefix_matches(self@, name@),
    {
        let mut i: usize = 0;
        while i < self.bits.len()
            invariant
                self.wf(),
                name.wf(),
                i <= self@.len(),
                forall|j: int| 0 <= j < i ==> #[trigger] self@[j] == name.bit_spec(j),
            decreases self@.len() - i,
        {
            if self.bits[i] != name.bit(i) {
                return false;
            }
            i += 1;
        }
        true
    }

    /// Whether the two prefixes hold the same bits.
    pub fn equals(&self, other: &Prefix) -> (r: bool)
        ensures
            r == (self@ == other@),
    {
        if self.bits.len() != other.bits.len() {
            return false;
        }
        let mut i: usize = 0;
        while i < self.bits.len()
            invariant
                self@.len() == other@.len(),
                i <= self@.len(),
                forall|j: int| 0 <= j < i ==> self@[j] == other@[j],
            decreases self@.len() - i,
        {
            if self.bits[i] != other.bits[i] {
                return false;
            }
            i += 1;
        }
        proof {
            assert(self@ =~= other@);
        }
        true
    }

    /// Whether one of the two prefixes is a leading segment of the other.
    pub fn is_compatible(&self, other: &Prefix) -> (r: bool)
        ensures
            r == compatible(self@, other@),
    {
        let r = if self.bits.len() <= other.bits.len() {
            prefix_le(self, other)
        } else {
            prefix_le(other, self)
        };
        proof {
            if !r && self@.len() <= other@.len() && is_prefix_of(other@, self@) {
                assert(self@.subrange(0, self@.len() as int) =~= self@);
                assert(other@.subrange(0, other@.len() as int) =~= other@);
                assert(self@ == other@);
                assert(is_prefix_of(self@, other@));
            }
        }
        r
    }

    /// Whether this prefix extends `other` by at least one bit.
    pub fn is_extension_of(&self, other: &Prefix) -> (r: bool)
        ensures
            r == (is_prefix_of(other@, self@) && self@.len() > other@.len()),
    {
        self.bits.len() > other.bits.len() && prefix_le(other, self)
    }

    /// A copy of this prefix.
    pub fn duplicate(&self) -> (r: Prefix)
        ensures
            r@ == self@,
    {
        proof {
            use_type_invariant(self);
        }
        Prefix { bits: clone_bits(&self.bits) }
    }

    /// The number of leading bits on which this prefix, zero-padded, and
    /// the address `target` agree.
    pub fn common_prefix_len(&self, target: &XorName) -> (r: usize)
        requires
            self.wf(),
            target.wf(),
        ensures
            r == common_len_from(self@, target@, 0),
    {
        let mut i: usize = 0;
        while i < 256
            invariant
                self.wf(),
                target.wf(),
                i <= 256,
                common_len_from(self@, target@, 0) == common_len_from(self@, target@, i as int),
            decreases 256 - i,
        {
            if self.bit_at(i) != target.bit(i) {
                return i;
            }
            i += 1;
        }
        256
    }

    /// Compares the distance of this prefix and of `other` to `target`:
    /// `Less` when this one is closer, `Greater` when `other` is, with
    /// ties between overlapping prefixes broken by bit count.
    pub fn cmp_distance(&self, other: &Prefix, target: &XorName) -> (r: core::cmp::Ordering)
        requires
            self.wf(),
            other.wf(),
            target.wf(),
        ensures
            r == cmp_distance_spec(self@, other@, target@),
    {
        if self.is_compatible(other) {
            cmp_usize(self.bits.len(), other.bits.len())
        } else {
            cmp_usize(other.common_prefix_len(target), self.common_prefix_len(target))
        }
    }

    /// Whether the address range of this prefix is entirely covered by the
    /// ranges of the given prefixes.
    pub fn is_covered_by(&self, prefixes: &Vec<Prefix>) -> (r: bool)
        requires
            self.wf(),
            forall|k: int| 0 <= k < prefixes@.len() ==> (#[trigger] prefixes@[k]).wf(),
        ensures
            r == covered_by(self@, views_of(prefixes@)),
    {
        let mut max: usize = 0;
        let mut k: usize = 0;
        while k < prefixes.len()
            invariant
                forall|j: int| 0 <= j < prefixes@.len() ==> (#[trigger] prefixes@[j]).wf(),
                k <= prefixes@.len(),
                max == max_len(views_of(prefixes@).subrange(0, k as int)),
                max <= 256,
            decreases prefixes@.len() - k,
        {
            proof {
                assert(views_of(prefixes@).subrange(0, k + 1).drop_last() =~= views_of(
                    prefixes@,
                ).subrange(0, k as int));
            }
            if prefixes[k].bits.len() > max {
                max = prefixes[k].bits.len();
            }
            k += 1;
        }
        proof {
            assert(views_of(prefixes@).subrange(0, prefixes@.len() as int) =~= views_of(
                prefixes@,
            ));
        }
        self.covered_from_exec(prefixes, max)
    }

    /// Recursive worker for coverage: tries each given prefix directly,
    /// then both one-bit extensions.
    fn covered_from_exec(&self, prefixes: &Vec<Prefix>, max: usize) -> (r: bool)
        requires
            self.wf(),
            max <= 256,
            forall|k: int| 0 <= k < prefixes@.len() ==> (#[trigger] prefixes@[k]).wf(),
        ensures
            r == covered_from(self@, views_of(prefixes@), max as nat),
        decreases max - self@.len(),
    {
        let mut k: usize = 0;
        while k < prefixes.len()
            invariant
                self.wf(),
                forall|j: int| 0 <= j < prefixes@.len() ==> (#[trigger] prefixes@[j]).wf(),
                k <= prefixes@.len(),
                forall|j: int|
                    #![trigger views_of(prefixes@)[j]]
                    0 <= j < k ==> !is_prefix_of(views_of(prefixes@)[j], self@),
            decreases prefixes@.len() - k,
        {
            if prefix_le(&prefixes[k], self) {
                proof {
                    let vs = views_of(prefixes@);
                    assert(vs[k as int] == prefixes@[k as int]@);
                    assert(exists|j: int| 0 <= j < vs.len() && is_prefix_of(vs[j], self@));
                }
                return true;
            }
            proof {
                assert(views_of(prefixes@)[k as int] == prefixes@[k as int]@);
            }
            k += 1;
        }
        if self.bits.len() < max {
            let r = self.pushed(false).covered_from_exec(prefixes, max)
                && self.pushed(true).covered_from_exec(prefixes, max);
            return r;
        }
        false
    }
}

/// The bit sequences of a sequence of prefixes.
pub open spec fn views_of(ps: Seq<Prefix>) -> Seq<Seq<bool>> {
    ps.map_values(|p: Prefix| p@)
}

/// Whether `a`'s bits are a leading segment of `b`'s.
fn prefix_le(a: &Prefix, b: &Prefix) -> (r: bool)
    ensures
        r == is_prefix_of(a@, b@),
{
    if a.bits.len() > b.bits.len() {
        return false;
    }
    let mut i: usize = 0;
    while i < a.bits.len()
        invariant
            a@.len() <= b@.len(),
            i <= a@.len(),
            forall|j: int| 0 <= j < i ==> a@[j] == b@[j],
        decreases a@.len() - i,
    {
        if a.bits[i] != b.bits[i] {
            proof {
                assert(a@ != b@.subrange(0, a@.len() as int));
            }
            return false;
        }
        i += 1;
    }
    proof {
        assert(a@ =~= b@.subrange(0, a@.len() as int));
    }
    true
}

/// Copies a bit vector; the copy holds the same bits.
fn clone_bits(v: &Vec<bool>) -> (r: Vec<bool>)
    ensures
        r@ == v@,
{
    let r = v.clone();
    proof {
        assert(r@ =~= v@);
    }
    r
}

/// Three-way comparison of two machine integers.
fn cmp_usize(a: usize, b: usize) -> (r: core::cmp::Ordering)
    ensures
        r == int_cmp(a as int, b as int),
{
    if a < b {
        core::cmp::Ordering::Less
    } else if a == b {
        core::cmp::Ordering::Equal
    } else {
        core::cmp::Ordering::Greater
    }
}

} // verus!
