//! Fixed-width network addresses.
//!
//! Every node and every piece of data lives at a 256-bit address.  Section
//! ownership is expressed as a bit-prefix over such addresses, so the
//! specifications here are all in terms of the individual bits of a name,
//! most significant bit of each byte first.

use vstd::prelude::*;

verus! {

/// Bit `k` of the byte `b`, counting the most significant bit as bit 0.
pub open spec fn byte_bit(b: u8, k: int) -> bool
    recommends
        0 <= k < 8,
{
    (b >> ((7 - k) as u8)) & 1 == 1
}

/// Bit `i` of a 32-byte string, in big-endian bit order.
pub open spec fn name_bit(bytes: Seq<u8>, i: int) -> bool
    recommends
        bytes.len() == 32,
        0 <= i < 256,
{
    byte_bit(bytes[i / 8], i % 8)
}

/// A 256-bit network address.
#[derive(Clone, PartialEq, Eq, Debug)]
pub struct XorName(pub Vec<u8>);

impl View for XorName {
    type V = Seq<u8>;

    open spec fn view(&self) -> Seq<u8> {
        self.0@
    }
}

impl XorName {
    /// A name is well formed when it holds exactly 32 bytes.
    pub open spec fn wf(&self) -> bool {
        self@.len() == 32
    }

    /// Bit `i` of this name as a spec value.
    pub open spec fn bit_spec(&self, i: int) -> bool {
        name_bit(self@, i)
    }

    /// Wraps 32 bytes as a name.
    pub fn new(bytes: Vec<u8>) -> (r: XorName)
        requires
            bytes@.len() == 32,
        ensures
            r.wf(),
            r@ == bytes@,
    {
        XorName(bytes)
    }

    /// Reads bit `i` of this name.
    pub fn bit(&self, i: usize) -> (r: bool)
        requires
            self.wf(),
            i < 256,
        ensures
            r == self.bit_spec(i as int),
    {
        let byte: u8 = self.0[i / 8];
        let shift: u8 = (7 - (i % 8)) as u8;
        (byte >> shift) & 1 == 1
    }

    /// Whether two names hold the same address.
    pub fn equals(&self, other: &XorName) -> (r: bool)
        requires
            self.wf(),
            other.wf(),
        ensures
            r == (self@ == other@),
    {
        let mut i: usize = 0;
        while i < 32
            invariant
                self.wf(),
                other.wf(),
                i <= 32,
                forall|j: int| 0 <= j < i ==> self@[j] == other@[j],
            decreases 32 - i,
        {
            if self.0[i] != other.0[i] {
                return false;
            }
            i += 1;
        }
        proof {
            assert(self@ =~= other@);
        }
        true
    }

    /// A copy of this name.
    pub fn duplicate(&self) -> (r: XorName)
        ensures
            r@ == self@,
    {
        XorName(clone_bytes(&self.0))
    }
}

/// The eight little-endian bytes of a 64-bit integer.
pub open spec fn u64_le_bytes(x: u64) -> Seq<u8> {
    seq![
        x as u8,
        (x >> 8u64) as u8,
        (x >> 16u64) as u8,
        (x >> 24u64) as u8,
        (x >> 32u64) as u8,
        (x >> 40u64) as u8,
        (x >> 48u64) as u8,
        (x >> 56u64) as u8,
    ]
}

/// Appends the eight little-endian bytes of `x` to `dst`.
pub fn push_u64_le(dst: &mut Vec<u8>, x: u64)
    ensures
        final(dst)@ == old(dst)@ + u64_le_bytes(x),
{
    dst.push(x as u8);
    dst.push((x >> 8u64) as u8);
    dst.push((x >> 16u64) as u8);
    dst.push((x >> 24u64) as u8);
    dst.push((x >> 32u64) as u8);
    dst.push((x >> 40u64) as u8);
    dst.push((x >> 48u64) as u8);
    dst.push((x >> 56u64) as u8);
    proof {
        assert(dst@ =~= old(dst)@ + u64_le_bytes(x));
    }
}

/// Whether two byte vectors hold the same bytes.
pub fn bytes_equal(a: &Vec<u8>, b: &Vec<u8>) -> (r: bool)
    ensures
        r == (a@ == b@),
{
    if a.len() != b.len() {
        return false;
    }
    let mut i: usize = 0;
    while i < a.len()
        invariant
            a@.len() == b@.len(),
            i <= a@.len(),
            forall|j: int| 0 <= j < i ==> a@[j] == b@[j],
        decreases a@.len() - i,
    {
        if a[i] != b[i] {
            return false;
        }
        i += 1;
    }
    proof {
        assert(a@ =~= b@);
    }
    true
}

/// Copies a byte vector; the copy holds the same bytes.
pub fn clone_bytes(v: &Vec<u8>) -> (r: Vec<u8>)
    ensures
        r@ == v@,
{
    let r = v.clone();
    proof {
        assert(r@ =~= v@);
    }
    r
}

} // verus!
