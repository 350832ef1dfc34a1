//! A map keyed by section prefixes that prunes redundant knowledge.
//!
//! The container keeps, for entries that each carry a prefix, the minimal
//! set such that no stored prefix is entirely covered by the more specific
//! (longer-prefix) entries also stored: inserting both children of a
//! prefix removes the entry at the prefix itself.  Lookups favour the most
//! specific stored knowledge.

use vstd::prelude::*;
use crate::prefix::{
    Prefix,
    is_prefix_of,
    compatible,
    prefix_matches,
    covered_by,
    covered_from,
    max_len,
    views_of,
    lemma_covered_by_mono,
    lemma_not_covered_empty,
    lemma_children_cover,
};
use crate::xor_name::XorName;

verus! {

/// An entry that carries the prefix it is stored under.
pub trait Prefixed: Sized {
    /// The bits of the entry's prefix.
    spec fn key(&self) -> Seq<bool>;

    /// The entry's prefix.
    fn prefix(&self) -> (p: &Prefix)
        ensures
            p@ == self.key(),
            p@.len() <= 256,
    ;
}

/// The prefixes of a sequence of entries.
pub open spec fn keys_of<T: Prefixed>(s: Seq<T>) -> Seq<Seq<bool>> {
    s.map_values(|t: T| t.key())
}

/// Whether `a` extends `b` by at least one bit.
pub open spec fn strict_ext(a: Seq<bool>, b: Seq<bool>) -> bool {
    is_prefix_of(b, a) && a.len() > b.len()
}

/// The stored prefixes that strictly extend `p`, in storage order.
pub open spec fn descendant_keys<T: Prefixed>(s: Seq<T>, p: Seq<bool>) -> Seq<Seq<bool>>
    decreases s.len(),
{
    if s.len() == 0 {
        Seq::empty()
    } else {
        let rest = descendant_keys(s.drop_last(), p);
        if strict_ext(s.last().key(), p) {
            rest.push(s.last().key())
        } else {
            rest
        }
    }
}

/// Every descendant key extends `p` and is the key of some entry.
pub proof fn lemma_descendant_keys_elem<T: Prefixed>(s: Seq<T>, p: Seq<bool>, i: int)
    requires
        0 <= i < descendant_keys(s, p).len(),
    ensures
        strict_ext(descendant_keys(s, p)[i], p),
        exists|k: int| 0 <= k < s.len() && (#[trigger] s[k]).key() == descendant_keys(s, p)[i],
    decreases s.len(),
{
    if s.len() > 0 {
        let rest = descendant_keys(s.drop_last(), p);
        if i < rest.len() {
            lemma_descendant_keys_elem(s.drop_last(), p, i);
            let k = choose|k: int|
                0 <= k < s.drop_last().len() && (#[trigger] s.drop_last()[k]).key() == rest[i];
            assert(s[k].key() == descendant_keys(s, p)[i]);
        } else {
            assert(s[s.len() - 1].key() == descendant_keys(s, p)[i]);
        }
    }
}

/// The key of every entry that extends `p` occurs among the descendant
/// keys.
pub proof fn lemma_descendant_keys_complete<T: Prefixed>(s: Seq<T>, p: Seq<bool>, k: int)
    requires
        0 <= k < s.len(),
        strict_ext(s[k].key(), p),
    ensures
        descendant_keys(s, p).contains(s[k].key()),
    decreases s.len(),
{
    let dk = descendant_keys(s, p);
    if k == s.len() - 1 {
        assert(dk[dk.len() - 1] == s[k].key());
    } else {
        assert(s.drop_last()[k] == s[k]);
        lemma_descendant_keys_complete(s.drop_last(), p, k);
        let rest = descendant_keys(s.drop_last(), p);
        let j = choose|j: int| 0 <= j < rest.len() && rest[j] == s[k].key();
        assert(dk[j] == s[k].key());
    }
}

/// When every entry of `a` that extends `p` has its key stored in `b`,
/// every descendant key of `a` occurs among those of `b`.
pub proof fn lemma_descendant_keys_contained<T: Prefixed>(a: Seq<T>, b: Seq<T>, p: Seq<bool>)
    requires
        forall|k: int|
            0 <= k < a.len() && strict_ext((#[trigger] a[k]).key(), p) ==> exists|j: int|
                0 <= j < b.len() && (#[trigger] b[j]).key() == a[k].key(),
    ensures
        forall|i: int|
            0 <= i < descendant_keys(a, p).len() ==> descendant_keys(b, p).contains(
                #[trigger] descendant_keys(a, p)[i],
            ),
{
    let da = descendant_keys(a, p);
    assert forall|i: int| 0 <= i < da.len() implies descendant_keys(b, p).contains(
        #[trigger] da[i],
    ) by {
        lemma_descendant_keys_elem(a, p, i);
        let k = choose|k: int| 0 <= k < a.len() && (#[trigger] a[k]).key() == da[i];
        let j = choose|j: int| 0 <= j < b.len() && (#[trigger] b[j]).key() == a[k].key();
        lemma_descendant_keys_complete(b, p, j);
    }
}

/// A set of entries none of which extends `p` has no descendant keys.
pub proof fn lemma_descendant_keys_empty<T: Prefixed>(s: Seq<T>, p: Seq<bool>)
    requires
        forall|k: int| 0 <= k < s.len() ==> !strict_ext((#[trigger] s[k]).key(), p),
    ensures
        descendant_keys(s, p).len() == 0,
    decreases s.len(),
{
    if s.len() > 0 {
        assert(forall|k: int|
            0 <= k < s.drop_last().len() ==> s.drop_last()[k] == (#[trigger] s[k]));
        lemma_descendant_keys_empty(s.drop_last(), p);
    }
}

/// Whether some entry's prefix strictly extends `p`.
pub open spec fn has_strict_ext<T: Prefixed>(s: Seq<T>, p: Seq<bool>) -> bool {
    exists|i: int| 0 <= i < s.len() && strict_ext((#[trigger] s[i]).key(), p)
}

/// No two entries share a prefix.
pub open spec fn uniq_keys<T: Prefixed>(s: Seq<T>) -> bool {
    forall|i: int, j: int|
        #![trigger s[i].key(), s[j].key()]
        0 <= i < j < s.len() ==> s[i].key() != s[j].key()
}

/// No stored prefix is entirely covered by the stored prefixes that
/// extend it.
pub open spec fn minimal<T: Prefixed>(s: Seq<T>) -> bool {
    forall|i: int|
        0 <= i < s.len() ==> !covered_by((#[trigger] s[i]).key(), descendant_keys(s, s[i].key()))
}

/// Removing any entry keeps the key set unique and the map minimal:
/// coverage only ever shrinks when entries disappear.
pub proof fn lemma_wf_after_removal<T: Prefixed>(s: Seq<T>, i: int)
    requires
        uniq_keys(s),
        minimal(s),
        0 <= i < s.len(),
    ensures
        uniq_keys(s.remove(i)),
        minimal(s.remove(i)),
{
    let s2 = s.remove(i);
    assert forall|j: int| 0 <= j < s2.len() implies s2[j] == (if j < i {
        s[j]
    } else {
        s[j + 1]
    }) by {
        assert(s2 == s.subrange(0, i) + s.subrange(i + 1, s.len() as int));
    }
    assert forall|a: int, b: int| 0 <= a < b < s2.len() implies s2[a].key() != s2[b].key() by {
        let ma: int = if a < i {
            a
        } else {
            a + 1
        };
        let mb: int = if b < i {
            b
        } else {
            b + 1
        };
        assert(s2[a] == s[ma] && s2[b] == s[mb]);
        assert(s[ma].key() != s[mb].key());
    }
    assert forall|j: int| 0 <= j < s2.len() implies !covered_by(
        (#[trigger] s2[j]).key(),
        descendant_keys(s2, s2[j].key()),
    ) by {
        let m: int = if j < i {
            j
        } else {
            j + 1
        };
        assert(s2[j] == s[m]);
        let p = s2[j].key();
        assert forall|k: int|
            0 <= k < s2.len() && strict_ext((#[trigger] s2[k]).key(), p) implies exists|x: int|
            0 <= x < s.len() && (#[trigger] s[x]).key() == s2[k].key() by {
            let mk: int = if k < i {
                k
            } else {
                k + 1
            };
            assert(s2[k] == s[mk]);
            assert(0 <= mk < s.len() && s[mk].key() == s2[k].key());
        }
        lemma_descendant_keys_contained(s2, s, p);
        if covered_by(p, descendant_keys(s2, p)) {
            lemma_covered_by_mono(p, descendant_keys(s2, p), descendant_keys(s, p));
            assert(!covered_by((s[m]).key(), descendant_keys(s, s[m].key())));
            assert(false);
        }
    }
}

/// Removing the entry stored under a covered ancestor prefix `p` keeps
/// every account the pruning pass maintains: uniqueness, conservation of
/// unrelated entries, absence of extensions of the inserted prefix, the
/// cleared ancestors staying clear, and the removed entry being covered.
#[verifier::rlimit(30)]
proof fn lemma_prune_at_removal<T: Prefixed>(
    ca: Seq<T>,
    cb: Seq<T>,
    k: int,
    p: Seq<bool>,
    s0: Seq<T>,
    entry: T,
)
    requires
        0 <= k < ca.len(),
        cb == ca.remove(k),
        ca[k].key() == p,
        is_prefix_of(p, entry.key()),
        p.len() < entry.key().len(),
        uniq_keys(ca),
        ca.contains(entry),
        covered_by(p, descendant_keys(ca, p)),
        forall|m: int| 0 <= m < ca.len() ==> (#[trigger] ca[m]) == entry || s0.contains(ca[m]),
        forall|m: int|
            0 <= m < s0.len() && (#[trigger] s0[m]).key() != entry.key() && !strict_ext(
                entry.key(),
                s0[m].key(),
            ) ==> ca.contains(s0[m]),
        !has_strict_ext(ca, entry.key()),
        forall|m: int|
            0 <= m < ca.len() && strict_ext(entry.key(), (#[trigger] ca[m]).key())
                && ca[m].key().len() > p.len() ==> !covered_by(
                ca[m].key(),
                descendant_keys(ca, ca[m].key()),
            ),
        forall|m: int|
            0 <= m < s0.len() && strict_ext(entry.key(), (#[trigger] s0[m]).key()) && !ca.contains(
                s0[m],
            ) ==> covered_by(s0[m].key(), descendant_keys(s0.push(entry), s0[m].key())),
    ensures
        uniq_keys(cb),
        cb.contains(entry),
        forall|m: int| 0 <= m < cb.len() ==> (#[trigger] cb[m]) == entry || s0.contains(cb[m]),
        forall|m: int|
            0 <= m < s0.len() && (#[trigger] s0[m]).key() != entry.key() && !strict_ext(
                entry.key(),
                s0[m].key(),
            ) ==> cb.contains(s0[m]),
        !has_strict_ext(cb, entry.key()),
        forall|m: int|
            0 <= m < cb.len() && strict_ext(entry.key(), (#[trigger] cb[m]).key())
                && cb[m].key().len() > p.len() ==> !covered_by(
                cb[m].key(),
                descendant_keys(cb, cb[m].key()),
            ),
        forall|m: int|
            0 <= m < s0.len() && strict_ext(entry.key(), (#[trigger] s0[m]).key()) && !cb.contains(
                s0[m],
            ) ==> covered_by(s0[m].key(), descendant_keys(s0.push(entry), s0[m].key())),
        forall|m: int| 0 <= m < cb.len() ==> (#[trigger] cb[m]).key() != p,
{
    let ek = entry.key();
    assert(p != ek);
    assert forall|j: int| 0 <= j < cb.len() implies cb[j] == (if j < k {
        ca[j]
    } else {
        ca[j + 1]
    }) by {
        assert(cb == ca.subrange(0, k) + ca.subrange(k + 1, ca.len() as int));
    }
    // uniqueness and the disappearance of the key `p`
    assert forall|a: int, b: int| 0 <= a < b < cb.len() implies (#[trigger] cb[a]).key()
        != (#[trigger] cb[b]).key() by {
        let ma: int = if a < k {
            a
        } else {
            a + 1
        };
        let mb: int = if b < k {
            b
        } else {
            b + 1
        };
        assert(cb[a] == ca[ma] && cb[b] == ca[mb]);
        assert(ca[ma].key() != ca[mb].key());
    }
    assert forall|j: int| 0 <= j < cb.len() implies (#[trigger] cb[j]).key() != p by {
        let mj: int = if j < k {
            j
        } else {
            j + 1
        };
        assert(cb[j] == ca[mj]);
        if ca[mj].key() == p {
            assert(ca[mj].key() == ca[k].key());
        }
    }
    // the inserted entry stays
    let e = choose|e: int| 0 <= e < ca.len() && ca[e] == entry;
    assert(e != k);
    let ne: int = if e < k {
        e
    } else {
        e - 1
    };
    assert(cb[ne] == entry);
    assert(cb.contains(entry));
    // unrelated old entries stay
    assert forall|m: int|
        0 <= m < s0.len() && (#[trigger] s0[m]).key() != ek && !strict_ext(
            ek,
            s0[m].key(),
        ) implies cb.contains(s0[m]) by {
        assert(ca.contains(s0[m]));
        let c = choose|c: int| 0 <= c < ca.len() && ca[c] == s0[m];
        assert(strict_ext(ek, p));
        assert(c != k);
        let nc: int = if c < k {
            c
        } else {
            c - 1
        };
        assert(cb[nc] == s0[m]);
    }
    // no extension of the inserted prefix appears
    assert forall|j: int| 0 <= j < cb.len() implies !strict_ext((#[trigger] cb[j]).key(), ek) by {
        let mj: int = if j < k {
            j
        } else {
            j + 1
        };
        assert(cb[j] == ca[mj]);
        assert(!has_strict_ext(ca, ek));
        if strict_ext(ca[mj].key(), ek) {
            assert(has_strict_ext(ca, ek));
        }
    }
    // already cleared ancestors stay clear: their descendants only shrink
    assert forall|j: int|
        0 <= j < cb.len() && strict_ext(ek, (#[trigger] cb[j]).key()) && cb[j].key().len()
            > p.len() implies !covered_by(cb[j].key(), descendant_keys(cb, cb[j].key())) by {
        let mj: int = if j < k {
            j
        } else {
            j + 1
        };
        assert(cb[j] == ca[mj]);
        let q = cb[j].key();
        assert forall|x: int|
            0 <= x < cb.len() && strict_ext((#[trigger] cb[x]).key(), q) implies exists|y: int|
            0 <= y < ca.len() && (#[trigger] ca[y]).key() == cb[x].key() by {
            let mx: int = if x < k {
                x
            } else {
                x + 1
            };
            assert(cb[x] == ca[mx]);
            assert(0 <= mx < ca.len() && ca[mx].key() == cb[x].key());
        }
        lemma_descendant_keys_contained(cb, ca, q);
        if covered_by(q, descendant_keys(cb, q)) {
            lemma_covered_by_mono(q, descendant_keys(cb, q), descendant_keys(ca, q));
            assert(!covered_by(ca[mj].key(), descendant_keys(ca, ca[mj].key())));
            assert(false);
        }
    }
    // every pruned ancestor was covered when it was removed
    assert forall|m: int|
        0 <= m < s0.len() && strict_ext(ek, (#[trigger] s0[m]).key()) && !cb.contains(
            s0[m],
        ) implies covered_by(s0[m].key(), descendant_keys(s0.push(entry), s0[m].key())) by {
        if ca.contains(s0[m]) {
            let c = choose|c: int| 0 <= c < ca.len() && ca[c] == s0[m];
            if c != k {
                let nc: int = if c < k {
                    c
                } else {
                    c - 1
                };
                assert(cb[nc] == s0[m]);
                assert(cb.contains(s0[m]));
                assert(false);
            }
            assert(s0[m] == ca[k]);
            assert(s0[m].key() == p);
            assert forall|x: int|
                0 <= x < ca.len() && strict_ext((#[trigger] ca[x]).key(), p) implies exists|y: int|
                0 <= y < s0.push(entry).len() && (#[trigger] s0.push(entry)[y]).key()
                    == ca[x].key() by {
                if ca[x] == entry {
                    assert(s0.push(entry)[s0.len() as int] == entry);
                } else {
                    assert(s0.contains(ca[x]));
                    let y = choose|y: int| 0 <= y < s0.len() && s0[y] == ca[x];
                    assert(s0.push(entry)[y] == ca[x]);
                }
            }
            lemma_descendant_keys_contained(ca, s0.push(entry), p);
            lemma_covered_by_mono(
                p,
                descendant_keys(ca, p),
                descendant_keys(s0.push(entry), p),
            );
        }
    }
}

/// A container of prefix-keyed entries that keeps only the minimal
/// covering set: redundant inserts are rejected and ancestors covered by
/// their stored descendants are pruned.
pub struct PrefixMap<T: Prefixed> {
    items: Vec<T>,
}

impl<T: Prefixed> PrefixMap<T> {
    /// The stored entries.
    pub closed spec fn entries(&self) -> Seq<T> {
        self.items@
    }

    /// The stored prefixes.
    pub open spec fn keys(&self) -> Seq<Seq<bool>> {
        keys_of(self.entries())
    }

    /// Whether some entry is stored under exactly the prefix `p`.
    pub open spec fn has_key(&self, p: Seq<bool>) -> bool {
        exists|i: int| 0 <= i < self.entries().len() && (#[trigger] self.entries()[i]).key() == p
    }

    /// Every prefix is stored at most once and no stored prefix is
    /// covered by its stored descendants.
    pub open spec fn wf(&self) -> bool {
        uniq_keys(self.entries()) && minimal(self.entries())
    }

    /// Creates an empty map.
    pub fn new() -> (r: PrefixMap<T>)
        ensures
            r.wf(),
            r.entries() =~= Seq::<T>::empty(),
    {
        PrefixMap { items: Vec::new() }
    }

    /// The number of stored entries.
    pub fn len(&self) -> (r: usize)
        ensures
            r == self.entries().len(),
    {
        self.items.len()
    }

    /// The entry stored under exactly the prefix `prefix`, if any.
    pub fn get(&self, prefix: &Prefix) -> (r: Option<&T>)
        ensures
            match r {
                Some(t) => self.has_key(prefix@) && t.key() == prefix@ && exists|i: int|
                    0 <= i < self.entries().len() && *t == (#[trigger] self.entries()[i]),
                None => !self.has_key(prefix@),
            },
    {
        let mut i: usize = 0;
        while i < self.items.len()
            invariant
                i <= self.entries().len(),
                forall|j: int| 0 <= j < i ==> (#[trigger] self.entries()[j]).key() != prefix@,
            decreases self.entries().len() - i,
        {
            if self.items[i].prefix().equals(prefix) {
                return Some(&self.items[i]);
            }
            i += 1;
        }
        None
    }

    /// The entry stored under `prefix` or under its longest stored
    /// ancestor, if any.
    pub fn get_equal_or_ancestor(&self, prefix: &Prefix) -> (r: Option<&T>)
        requires
            prefix.wf(),
        ensures
            match r {
                Some(t) => {
                    &&& exists|i: int|
                        0 <= i < self.entries().len() && *t == (#[trigger] self.entries()[i])
                    &&& is_prefix_of(t.key(), prefix@)
                    &&& forall|i: int|
                        0 <= i < self.entries().len() && is_prefix_of(
                            (#[trigger] self.entries()[i]).key(),
                            prefix@,
                        ) ==> self.entries()[i].key().len() <= t.key().len()
                },
                None => forall|i: int|
                    0 <= i < self.entries().len() ==> !is_prefix_of(
                        (#[trigger] self.entries()[i]).key(),
                        prefix@,
                    ),
            },
    {
        let mut p = prefix.duplicate();
        proof {
            assert(prefix@.subrange(0, prefix@.len() as int) =~= prefix@);
        }
        loop
            invariant
                prefix.wf(),
                p.wf(),
                is_prefix_of(p@, prefix@),
                forall|i: int|
                    0 <= i < self.entries().len() && is_prefix_of(
                        (#[trigger] self.entries()[i]).key(),
                        prefix@,
                    ) ==> self.entries()[i].key().len() <= p@.len(),
            decreases p@.len() + 1,
        {
            match self.get(&p) {
                Some(t) => {
                    return Some(t);
                },
                None => {
                },
            }
            proof {
                assert forall|i: int|
                    0 <= i < self.entries().len() && is_prefix_of(
                        (#[trigger] self.entries()[i]).key(),
                        prefix@,
                    ) implies self.entries()[i].key().len() <= p@.len() - 1 by {
                    let q = self.entries()[i].key();
                    if q.len() == p@.len() {
                        assert(q =~= p@) by {
                            assert(q == prefix@.subrange(0, q.len() as int));
                            assert(p@ == prefix@.subrange(0, p@.len() as int));
                        }
                    }
                }
            }
            if p.is_empty() {
                return None;
            }
            let ghost old_p = p@;
            p = p.popped();
            proof {
                assert(p@ =~= prefix@.subrange(0, p@.len() as int)) by {
                    assert(old_p == prefix@.subrange(0, old_p.len() as int));
                }
            }
        }
    }

    /// The entry stored under the longest prefix matching the address
    /// `name`, if any.
    pub fn get_matching(&self, name: &XorName) -> (r: Option<&T>)
        requires
            name.wf(),
        ensures
            match r {
                Some(t) => {
                    &&& exists|i: int|
                        0 <= i < self.entries().len() && *t == (#[trigger] self.entries()[i])
                    &&& prefix_matches(t.key(), name@)
                    &&& forall|i: int|
                        0 <= i < self.entries().len() && prefix_matches(
                            (#[trigger] self.entries()[i]).key(),
                            name@,
                        ) ==> self.entries()[i].key().len() <= t.key().len()
                },
                None => forall|i: int|
                    0 <= i < self.entries().len() ==> !prefix_matches(
                        (#[trigger] self.entries()[i]).key(),
                        name@,
                    ),
            },
    {
        let mut best: Option<&T> = None;
        let mut best_len: usize = 0;
        let mut i: usize = 0;
        while i < self.items.len()
            invariant
                name.wf(),
                i <= self.entries().len(),
                match best {
                    Some(t) => {
                        &&& exists|k: int|
                            0 <= k < self.entries().len() && *t == (#[trigger] self.entries()[k])
                        &&& prefix_matches(t.key(), name@)
                        &&& best_len == t.key().len()
                        &&& forall|k: int|
                            0 <= k < i && prefix_matches(
                                (#[trigger] self.entries()[k]).key(),
                                name@,
                            ) ==> self.entries()[k].key().len() <= best_len
                    },
                    None => forall|k: int|
                        0 <= k < i ==> !prefix_matches(
                            (#[trigger] self.entries()[k]).key(),
                            name@,
                        ),
                },
            decreases self.entries().len() - i,
        {
            let entry_prefix = self.items[i].prefix();
            if entry_prefix.matches(name) {
                match best {
                    Some(_) => {
                        if entry_prefix.bit_count() > best_len {
                            best = Some(&self.items[i]);
                            best_len = entry_prefix.bit_count();
                        }
                    },
                    None => {
                        best = Some(&self.items[i]);
                        best_len = entry_prefix.bit_count();
                    },
                }
            }
            i += 1;
        }
        best
    }

    /// All stored entries.
    pub fn iter(&self) -> (r: Vec<&T>)
        ensures
            r@.len() == self.entries().len(),
            forall|i: int| 0 <= i < r@.len() ==> *(#[trigger] r@[i]) == self.entries()[i],
    {
        let mut r: Vec<&T> = Vec::new();
        let mut i: usize = 0;
        while i < self.items.len()
            invariant
                i <= self.entries().len(),
                r@.len() == i,
                forall|j: int| 0 <= j < i ==> *(#[trigger] r@[j]) == self.entries()[j],
            decreases self.entries().len() - i,
        {
            r.push(&self.items[i]);
            i += 1;
        }
        r
    }

    /// The prefixes of all stored entries, in storage order.
    pub fn prefixes(&self) -> (r: Vec<Prefix>)
        ensures
            r@.len() == self.entries().len(),
            forall|i: int| 0 <= i < r@.len() ==> (#[trigger] r@[i])@ == self.entries()[i].key(),
    {
        let mut r: Vec<Prefix> = Vec::new();
        let mut i: usize = 0;
        while i < self.items.len()
            invariant
                i <= self.entries().len(),
                r@.len() == i,
                forall|j: int| 0 <= j < i ==> (#[trigger] r@[j])@ == self.entries()[j].key(),
            decreases self.entries().len() - i,
        {
            r.push(self.items[i].prefix().duplicate());
            i += 1;
        }
        r
    }

    /// The prefixes of the stored entries that strictly extend `prefix`,
    /// in storage order.
    fn descendant_prefixes(&self, prefix: &Prefix) -> (ds: Vec<Prefix>)
        ensures
            views_of(ds@) == descendant_keys(self.entries(), prefix@),
            forall|k: int| 0 <= k < ds@.len() ==> (#[trigger] ds@[k]).wf(),
    {
        let mut ds: Vec<Prefix> = Vec::new();
        let mut i: usize = 0;
        while i < self.items.len()
            invariant
                i <= self.entries().len(),
                views_of(ds@) == descendant_keys(self.entries().subrange(0, i as int), prefix@),
                forall|k: int| 0 <= k < ds@.len() ==> (#[trigger] ds@[k]).wf(),
            decreases self.entries().len() - i,
        {
            let ghost prev = self.entries().subrange(0, i as int);
            let ghost next = self.entries().subrange(0, i as int + 1);
            proof {
                assert(next.drop_last() =~= prev);
                assert(next.last() == self.entries()[i as int]);
            }
            let entry_prefix = self.items[i].prefix();
            if entry_prefix.is_extension_of(prefix) {
                ds.push(entry_prefix.duplicate());
                proof {
                    assert(views_of(ds@) =~= descendant_keys(next, prefix@));
                }
            } else {
                proof {
                    assert(views_of(ds@) =~= descendant_keys(next, prefix@));
                }
            }
            i += 1;
        }
        proof {
            assert(self.entries().subrange(0, self.entries().len() as int) =~= self.entries());
        }
        ds
    }

    /// Removes and returns the entry stored under exactly `prefix`, if
    /// any.
    pub fn remove(&mut self, prefix: &Prefix) -> (r: Option<T>)
        requires
            old(self).wf(),
        ensures
            final(self).wf(),
            match r {
                Some(t) => t.key() == prefix@ && exists|i: int|
                    0 <= i < old(self).entries().len() && (#[trigger] old(self).entries()[i]) == t
                        && final(self).entries() == old(self).entries().remove(i),
                None => final(self).entries() == old(self).entries() && !old(self).has_key(
                    prefix@,
                ),
            },
    {
        let mut i: usize = 0;
        while i < self.items.len()
            invariant
                self.wf(),
                self.entries() == old(self).entries(),
                i <= self.entries().len(),
                forall|j: int| 0 <= j < i ==> (#[trigger] self.entries()[j]).key() != prefix@,
            decreases self.entries().len() - i,
        {
            if self.items[i].prefix().equals(prefix) {
                let ghost s = self.entries();
                let t = self.items.remove(i);
                proof {
                    lemma_wf_after_removal(s, i as int);
                }
                return Some(t);
            }
            i += 1;
        }
        None
    }

    /// Inserts `entry`, unless a stored entry already extends its prefix,
    /// in which case the map is unchanged and `entry` itself is handed
    /// back.  Otherwise any entry stored under the same prefix is replaced
    /// and returned, and every ancestor of the inserted prefix that its
    /// stored descendants now cover is pruned.
    #[verifier::loop_isolation(false)]
    pub fn insert(&mut self, entry: T) -> (r: Option<T>)
        requires
            old(self).wf(),
        ensures
            final(self).wf(),
            has_strict_ext(old(self).entries(), entry.key()) ==> final(self).entries() == old(self).entries() && r == Some(entry),
            !has_strict_ext(old(self).entries(), entry.key()) ==> {
                let s0 = old(self).entries();
                let sf = final(self).entries();
                let ek = entry.key();
                &&& sf.contains(entry)
                &&& forall|i: int| 0 <= i < sf.len() ==> (#[trigger] sf[i]) == entry || s0.contains(sf[i])
                &&& forall|i: int| 0 <= i < s0.len() && (#[trigger] s0[i]).key() != ek && !strict_ext(ek, s0[i].key()) ==> sf.contains(s0[i])
                &&& forall|i: int| 0 <= i < s0.len() && strict_ext(ek, (#[trigger] s0[i]).key()) && !sf.contains(s0[i]) ==> covered_by(s0[i].key(), descendant_keys(s0.push(entry), s0[i].key()))
                &&& match r {
                    Some(t) => t.key() == ek && s0.contains(t),
                    None => forall|i: int| 0 <= i < s0.len() ==> (#[trigger] s0[i]).key() != ek,
                }
            },
    {
        let ghost s0 = self.entries();
        let ghost ek = entry.key();
        let ep = entry.prefix().duplicate();

        // Reject the insert when more specific knowledge is stored.
        let mut i: usize = 0;
        while i < self.items.len()
            invariant
                self.entries() == s0,
                i <= s0.len(),
                ep@ == ek,
                forall|j: int| 0 <= j < i ==> !strict_ext((#[trigger] s0[j]).key(), ek),
            decreases s0.len() - i,
        {
            if self.items[i].prefix().is_extension_of(&ep) {
                proof {
                    assert(strict_ext(s0[i as int].key(), ek));
                }
                return Some(entry);
            }
            i += 1;
        }
        proof {
            assert(!has_strict_ext(s0, ek));
        }

        // Replace any entry stored under the same prefix.
        let mut found: Option<usize> = None;
        let mut j: usize = 0;
        while j < self.items.len()
            invariant
                self.entries() == s0,
                j <= s0.len(),
                ep@ == ek,
                match found {
                    Some(idx) => 0 <= idx < s0.len() && s0[idx as int].key() == ek,
                    None => forall|k: int| 0 <= k < j ==> (#[trigger] s0[k]).key() != ek,
                },
            decreases s0.len() - j,
        {
            let already = match found {
                Some(_) => true,
                None => false,
            };
            if !already && self.items[j].prefix().equals(&ep) {
                found = Some(j);
            }
            j += 1;
        }
        let displaced: Option<T> = match found {
            Some(idx) => Some(self.items.remove(idx)),
            None => None,
        };
        self.items.push(entry);
        let ghost s1 = self.entries();

        proof {
            if let Some(idx) = found {
                let sr = s0.remove(idx as int);
                assert(sr == s0.subrange(0, idx as int) + s0.subrange(idx as int + 1, s0.len() as int));
                assert(forall|m: int|
                    0 <= m < sr.len() ==> sr[m] == (if m < idx {
                        s0[m]
                    } else {
                        s0[m + 1]
                    }));
                assert(s1 == sr.push(entry));
            } else {
                assert(s1 == s0.push(entry));
            }
            // Uniqueness, membership and conservation after the replace.
            assert(s1[s1.len() - 1] == entry);
            assert(s1.contains(entry));
            assert forall|a: int, b: int| 0 <= a < b < s1.len() implies (#[trigger] s1[a]).key()
                != (#[trigger] s1[b]).key() by {
                if b < s1.len() - 1 {
                    if let Some(idx) = found {
                        let sr = s0.remove(idx as int);
                        let ma: int = if a < idx {
                            a
                        } else {
                            a + 1
                        };
                        let mb: int = if b < idx {
                            b
                        } else {
                            b + 1
                        };
                        assert(s1[a] == s0[ma] && s1[b] == s0[mb]);
                    }
                } else {
                    // the new entry's prefix no longer occurs elsewhere
                    if let Some(idx) = found {
                        let ma: int = if a < idx {
                            a
                        } else {
                            a + 1
                        };
                        assert(s1[a] == s0[ma]);
                        if s1[a].key() == ek {
                            assert(s0[ma].key() == s0[idx as int].key());
                            assert(ma == idx);
                            assert(false);
                        }
                    }
                }
            }
            assert forall|m: int| 0 <= m < s1.len() implies (#[trigger] s1[m]) == entry
                || s0.contains(s1[m]) by {
                if m < s1.len() - 1 {
                    if let Some(idx) = found {
                        let mm: int = if m < idx {
                            m
                        } else {
                            m + 1
                        };
                        assert(s1[m] == s0[mm]);
                    } else {
                        assert(s1[m] == s0[m]);
                    }
                }
            }
            assert forall|m: int|
                0 <= m < s0.len() && (#[trigger] s0[m]).key() != ek implies s1.contains(
                s0[m],
            ) by {
                if let Some(idx) = found {
                    assert(m != idx);
                    let nm: int = if m < idx {
                        m
                    } else {
                        m - 1
                    };
                    assert(s1[nm] == s0[m]);
                } else {
                    assert(s1[m] == s0[m]);
                }
            }
            assert forall|m: int| 0 <= m < s1.len() implies !strict_ext(
                (#[trigger] s1[m]).key(),
                ek,
            ) by {
                if s1[m] == entry {
                    assert(!strict_ext(ek, ek));
                } else {
                    assert(s0.contains(s1[m]));
                    let m0 = choose|m0: int| 0 <= m0 < s0.len() && s0[m0] == s1[m];
                    assert(!strict_ext(s0[m0].key(), ek));
                }
            }
        }

        // Prune ancestors now covered by their stored descendants.
        if !ep.is_empty() {
            let mut p = ep.popped();
            proof {
                assert(is_prefix_of(p@, ek)) by {
                    assert(p@ =~= ek.subrange(0, p@.len() as int));
                }
            }
            let mut more = true;
            while more
                invariant
                    p.wf(),
                    is_prefix_of(p@, ek),
                    p@.len() < ek.len(),
                    uniq_keys(self.entries()),
                    self.entries().contains(entry),
                    forall|m: int|
                        0 <= m < self.entries().len() ==> (#[trigger] self.entries()[m]) == entry
                            || s0.contains(self.entries()[m]),
                    forall|m: int|
                        0 <= m < s0.len() && (#[trigger] s0[m]).key() != ek && !strict_ext(
                            ek,
                            s0[m].key(),
                        ) ==> self.entries().contains(s0[m]),
                    !has_strict_ext(self.entries(), ek),
                    more ==> forall|m: int|
                        0 <= m < self.entries().len() && strict_ext(
                            ek,
                            (#[trigger] self.entries()[m]).key(),
                        ) && self.entries()[m].key().len() > p@.len() ==> !covered_by(
                            self.entries()[m].key(),
                            descendant_keys(self.entries(), self.entries()[m].key()),
                        ),
                    !more ==> forall|m: int|
                        0 <= m < self.entries().len() && strict_ext(
                            ek,
                            (#[trigger] self.entries()[m]).key(),
                        ) ==> !covered_by(
                            self.entries()[m].key(),
                            descendant_keys(self.entries(), self.entries()[m].key()),
                        ),
                    forall|m: int|
                        0 <= m < s0.len() && strict_ext(ek, (#[trigger] s0[m]).key())
                            && !self.entries().contains(s0[m]) ==> covered_by(
                            s0[m].key(),
                            descendant_keys(s0.push(entry), s0[m].key()),
                        ),
                decreases p@.len() + (if more {
                    1int
                } else {
                    0int
                }),
            {
                let ds = self.descendant_prefixes(&p);
                let cov = p.is_covered_by(&ds);
                if cov {
                    self.prune_at(&p, Ghost(s0), Ghost(entry));
                }
                proof {
                    assert forall|m: int|
                        0 <= m < self.entries().len() && strict_ext(
                            ek,
                            (#[trigger] self.entries()[m]).key(),
                        ) && self.entries()[m].key().len() >= p@.len() implies !covered_by(
                        self.entries()[m].key(),
                        descendant_keys(self.entries(), self.entries()[m].key()),
                    ) by {
                        let q = self.entries()[m].key();
                        if q.len() == p@.len() {
                            assert(q =~= p@) by {
                                assert(q == ek.subrange(0, q.len() as int));
                                assert(p@ == ek.subrange(0, p@.len() as int));
                            }
                            if cov {
                                assert(self.has_key(p@));
                                assert(false);
                            }
                        }
                    }
                }
                if p.is_empty() {
                    more = false;
                } else {
                    let ghost old_p = p@;
                    p = p.popped();
                    proof {
                        assert(is_prefix_of(p@, ek)) by {
                            assert(old_p == ek.subrange(0, old_p.len() as int));
                            assert(p@ =~= ek.subrange(0, p@.len() as int));
                        }
                    }
                }
            }
        }

        proof {
            let cur = self.entries();
            assert forall|m: int| 0 <= m < cur.len() implies !covered_by(
                (#[trigger] cur[m]).key(),
                descendant_keys(cur, cur[m].key()),
            ) by {
                let q = cur[m].key();
                if cur[m] == entry {
                    assert forall|k: int| 0 <= k < cur.len() implies !strict_ext(
                        (#[trigger] cur[k]).key(),
                        q,
                    ) by {
                        assert(!has_strict_ext(cur, ek));
                    }
                    lemma_descendant_keys_empty(cur, q);
                    lemma_not_covered_empty(q, descendant_keys(cur, q), max_len(descendant_keys(cur, q)));
                } else if strict_ext(ek, q) {
                    // handled by the pruning pass
                } else {
                    let m0 = choose|m0: int| 0 <= m0 < s0.len() && (#[trigger] s0[m0]) == cur[m];
                    assert forall|k: int|
                        0 <= k < cur.len() && strict_ext((#[trigger] cur[k]).key(), q) implies exists|
                        x: int,
                    | 0 <= x < s0.len() && (#[trigger] s0[x]).key() == cur[k].key() by {
                        if cur[k] == entry {
                            assert(strict_ext(ek, q));
                            assert(false);
                        } else {
                            let x = choose|x: int| 0 <= x < s0.len() && (#[trigger] s0[x]) == cur[k];
                            assert(0 <= x < s0.len() && s0[x].key() == cur[k].key());
                        }
                    }
                    lemma_descendant_keys_contained(cur, s0, q);
                    if covered_by(q, descendant_keys(cur, q)) {
                        lemma_covered_by_mono(q, descendant_keys(cur, q), descendant_keys(s0, q));
                        assert(!covered_by(s0[m0].key(), descendant_keys(s0, s0[m0].key())));
                        assert(false);
                    }
                }
            }
        }
        displaced
    }

    /// Removes the entry stored under exactly `p`, if any, in a state
    /// where `p` is covered by its stored descendants; keeps the book of
    /// invariants that the pruning pass maintains.
    #[verifier::loop_isolation(false)]
    fn prune_at(&mut self, p: &Prefix, Ghost(s0): Ghost<Seq<T>>, Ghost(entry): Ghost<T>)
        requires
            p.wf(),
            is_prefix_of(p@, entry.key()),
            p@.len() < entry.key().len(),
            uniq_keys(old(self).entries()),
            old(self).entries().contains(entry),
            covered_by(p@, descendant_keys(old(self).entries(), p@)),
            forall|m: int|
                0 <= m < old(self).entries().len() ==> (#[trigger] old(self).entries()[m]) == entry
                    || s0.contains(old(self).entries()[m]),
            forall|m: int|
                0 <= m < s0.len() && (#[trigger] s0[m]).key() != entry.key() && !strict_ext(
                    entry.key(),
                    s0[m].key(),
                ) ==> old(self).entries().contains(s0[m]),
            !has_strict_ext(old(self).entries(), entry.key()),
            forall|m: int|
                0 <= m < old(self).entries().len() && strict_ext(
                    entry.key(),
                    (#[trigger] old(self).entries()[m]).key(),
                ) && old(self).entries()[m].key().len() > p@.len() ==> !covered_by(
                    old(self).entries()[m].key(),
                    descendant_keys(old(self).entries(), old(self).entries()[m].key()),
                ),
            forall|m: int|
                0 <= m < s0.len() && strict_ext(entry.key(), (#[trigger] s0[m]).key())
                    && !old(self).entries().contains(s0[m]) ==> covered_by(
                    s0[m].key(),
                    descendant_keys(s0.push(entry), s0[m].key()),
                ),
        ensures
            uniq_keys(final(self).entries()),
            final(self).entries().contains(entry),
            forall|m: int|
                0 <= m < final(self).entries().len() ==> (#[trigger] final(self).entries()[m])
                    == entry || s0.contains(final(self).entries()[m]),
            forall|m: int|
                0 <= m < s0.len() && (#[trigger] s0[m]).key() != entry.key() && !strict_ext(
                    entry.key(),
                    s0[m].key(),
                ) ==> final(self).entries().contains(s0[m]),
            !has_strict_ext(final(self).entries(), entry.key()),
            forall|m: int|
                0 <= m < final(self).entries().len() && strict_ext(
                    entry.key(),
                    (#[trigger] final(self).entries()[m]).key(),
                ) && final(self).entries()[m].key().len() > p@.len() ==> !covered_by(
                    final(self).entries()[m].key(),
                    descendant_keys(final(self).entries(), final(self).entries()[m].key()),
                ),
            forall|m: int|
                0 <= m < s0.len() && strict_ext(entry.key(), (#[trigger] s0[m]).key())
                    && !final(self).entries().contains(s0[m]) ==> covered_by(
                    s0[m].key(),
                    descendant_keys(s0.push(entry), s0[m].key()),
                ),
            !final(self).has_key(p@),
    {
        let ghost ek = entry.key();
        let mut k: usize = 0;
        while k < self.items.len()
            invariant
                self.entries() == old(self).entries(),
                k <= self.entries().len(),
                forall|m: int| 0 <= m < k ==> (#[trigger] self.entries()[m]).key() != p@,
            decreases self.entries().len() - k,
        {
            if self.items[k].prefix().equals(p) {
                let ghost ca = self.entries();
                let victim = self.items.remove(k);
                let ghost cb = self.entries();
                proof {
                    lemma_prune_at_removal(ca, cb, k as int, p@, s0, entry);
                }
                return;
            }
            k += 1;
        }
    }

    /// Turns the map into a consuming iterator over its entries.
    pub fn into_iter(self) -> (r: IntoIter<T>)
        ensures
            r.remaining() == self.entries(),
    {
        IntoIter { rest: self.items }
    }

    /// The stored entries whose prefixes strictly extend `prefix`.
    pub fn descendants(&self, prefix: &Prefix) -> (r: Vec<&T>)
        ensures
            forall|i: int|
                0 <= i < r@.len() ==> strict_ext((#[trigger] r@[i]).key(), prefix@) && exists|k: int|
                    0 <= k < self.entries().len() && *r@[i] == (#[trigger] self.entries()[k]),
            forall|k: int|
                0 <= k < self.entries().len() && strict_ext(
                    (#[trigger] self.entries()[k]).key(),
                    prefix@,
                ) ==> exists|i: int| 0 <= i < r@.len() && *(#[trigger] r@[i]) == self.entries()[k],
    {
        let mut r: Vec<&T> = Vec::new();
        let mut i: usize = 0;
        while i < self.items.len()
            invariant
                i <= self.entries().len(),
                forall|j: int|
                    0 <= j < r@.len() ==> strict_ext((#[trigger] r@[j]).key(), prefix@) && exists|
                        k: int,
                    | 0 <= k < self.entries().len() && *r@[j] == (#[trigger] self.entries()[k]),
                forall|k: int|
                    0 <= k < i && strict_ext(
                        (#[trigger] self.entries()[k]).key(),
                        prefix@,
                    ) ==> exists|j: int|
                        0 <= j < r@.len() && *(#[trigger] r@[j]) == self.entries()[k],
            decreases self.entries().len() - i,
        {
            let ghost old_r = r@;
            let entry_prefix = self.items[i].prefix();
            let extends = entry_prefix.is_extension_of(prefix);
            if extends {
                r.push(&self.items[i]);
            }
            proof {
                if extends {
                    let jnew = r@.len() - 1;
                    assert(*r@[jnew] == self.entries()[i as int]);
                    assert(strict_ext(r@[jnew].key(), prefix@));
                    assert(forall|j: int| 0 <= j < old_r.len() ==> r@[j] == old_r[j]);
                }
                assert forall|k: int|
                    0 <= k < i + 1 && strict_ext(
                        (#[trigger] self.entries()[k]).key(),
                        prefix@,
                    ) implies exists|j: int|
                    0 <= j < r@.len() && *(#[trigger] r@[j]) == self.entries()[k] by {
                    if k < i {
                        let j0 = choose|j: int|
                            0 <= j < old_r.len() && *(#[trigger] old_r[j]) == self.entries()[k];
                        assert(*r@[j0] == self.entries()[k]);
                    } else {
                        assert(*r@[r@.len() - 1] == self.entries()[k]);
                    }
                }
            }
            i += 1;
        }
        r
    }
}

/// Law: once both one-bit extensions of a prefix are stored, the map
/// cannot also hold an entry at that prefix itself — the two children
/// cover their parent entirely, and a well-formed map stores no entry
/// covered by its descendants.
pub proof fn lemma_parent_never_stored<T: Prefixed>(m: &PrefixMap<T>, p: Seq<bool>)
    requires
        m.wf(),
        m.has_key(p.push(false)),
        m.has_key(p.push(true)),
    ensures
        !m.has_key(p),
{
    if m.has_key(p) {
        let s = m.entries();
        let i = choose|i: int| 0 <= i < s.len() && (#[trigger] s[i]).key() == p;
        let j0 = choose|j: int| 0 <= j < s.len() && (#[trigger] s[j]).key() == p.push(false);
        let j1 = choose|j: int| 0 <= j < s.len() && (#[trigger] s[j]).key() == p.push(true);
        assert(is_prefix_of(p, p.push(false))) by {
            assert(p =~= p.push(false).subrange(0, p.len() as int));
        }
        assert(is_prefix_of(p, p.push(true))) by {
            assert(p =~= p.push(true).subrange(0, p.len() as int));
        }
        lemma_descendant_keys_complete(s, p, j0);
        lemma_descendant_keys_complete(s, p, j1);
        lemma_children_cover(p, descendant_keys(s, p));
        assert(!covered_by(s[i].key(), descendant_keys(s, s[i].key())));
        assert(false);
    }
}

/// Consuming iterator over the entries of a [`PrefixMap`], in storage
/// order.
pub struct IntoIter<T: Prefixed> {
    rest: Vec<T>,
}

impl<T: Prefixed> IntoIter<T> {
    /// The entries not yet handed out.
    pub closed spec fn remaining(&self) -> Seq<T> {
        self.rest@
    }

    /// Hands out the next entry, if any is left.
    pub fn next(&mut self) -> (r: Option<T>)
        ensures
            match r {
                Some(t) => old(self).remaining().len() > 0 && t == old(self).remaining()[0]
                    && final(self).remaining() == old(self).remaining().subrange(
                    1,
                    old(self).remaining().len() as int,
                ),
                None => old(self).remaining().len() == 0 && final(self).remaining() == old(
                    self,
                ).remaining(),
            },
    {
        if self.rest.len() > 0 {
            let t = self.rest.remove(0);
            proof {
                assert(self.rest@ =~= old(self).remaining().subrange(
                    1,
                    old(self).remaining().len() as int,
                ));
            }
            Some(t)
        } else {
            None
        }
    }
}

} // verus!
