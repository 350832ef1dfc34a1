//! Knowledge about the other sections of the network.
//!
//! Every fact about a remote section is stored under that section's
//! prefix in a pruning [`PrefixMap`], so the node keeps only the most
//! specific knowledge and queries it by longest matching prefix.

use vstd::prelude::*;
use crate::elders_info::EldersInfo;
use crate::prefix::{Prefix, prefix_matches, cmp_distance_spec};
use crate::prefix_map::{PrefixMap, Prefixed};
use crate::proven::Proven;
use crate::xor_name::{XorName, clone_bytes};

verus! {

/// The plain value of a remote section's key record.
pub struct SectionKeyRecordV {
    pub prefix: Seq<bool>,
    pub key: Seq<u8>,
}

/// The latest known BLS key of the section owning `prefix`.
pub struct SectionKeyRecord {
    /// The prefix of the remote section.
    pub prefix: Prefix,
    /// The serialized BLS public key of that section.
    pub key: Vec<u8>,
}

impl View for SectionKeyRecord {
    type V = SectionKeyRecordV;

    open spec fn view(&self) -> SectionKeyRecordV {
        SectionKeyRecordV { prefix: self.prefix@, key: self.key@ }
    }
}

/// The plain value of a knowledge record.
pub struct KnowledgeRecordV {
    pub prefix: Seq<bool>,
    pub index: u64,
}

/// The position of the latest of our own section keys that the section
/// owning `prefix` is known to trust.
pub struct KnowledgeRecord {
    /// The prefix of the remote section.
    pub prefix: Prefix,
    /// The position of our key in our own chain.
    pub index: u64,
}

impl View for KnowledgeRecord {
    type V = KnowledgeRecordV;

    open spec fn view(&self) -> KnowledgeRecordV {
        KnowledgeRecordV { prefix: self.prefix@, index: self.index }
    }
}

impl Prefixed for Proven<EldersInfo> {
    open spec fn key(&self) -> Seq<bool> {
        self.value.prefix@
    }

    fn prefix(&self) -> (p: &Prefix) {
        proof {
            use_type_invariant(&self.value.prefix);
        }
        &self.value.prefix
    }
}

impl Prefixed for Proven<SectionKeyRecord> {
    open spec fn key(&self) -> Seq<bool> {
        self.value.prefix@
    }

    fn prefix(&self) -> (p: &Prefix) {
        proof {
            use_type_invariant(&self.value.prefix);
        }
        &self.value.prefix
    }
}

impl Prefixed for Proven<KnowledgeRecord> {
    open spec fn key(&self) -> Seq<bool> {
        self.value.prefix@
    }

    fn prefix(&self) -> (p: &Prefix) {
        proof {
            use_type_invariant(&self.value.prefix);
        }
        &self.value.prefix
    }
}

/// The index that a left-to-right closest-entry scan settles on: a later
/// entry displaces the current choice only when it compares strictly
/// closer to the target, so the first of equally close entries wins.
pub open spec fn closest_index(s: Seq<Proven<EldersInfo>>, t: Seq<u8>) -> int
    decreases s.len(),
{
    if s.len() <= 1 {
        0
    } else {
        let prev = closest_index(s.drop_last(), t);
        if cmp_distance_spec(s.last().value.prefix@, s[prev].value.prefix@, t)
            == core::cmp::Ordering::Less {
            s.len() - 1
        } else {
            prev
        }
    }
}

/// The chosen index is always in range.
pub proof fn lemma_closest_index_in_range(s: Seq<Proven<EldersInfo>>, t: Seq<u8>)
    requires
        s.len() > 0,
    ensures
        0 <= closest_index(s, t) < s.len(),
    decreases s.len(),
{
    if s.len() > 1 {
        lemma_closest_index_in_range(s.drop_last(), t);
    }
}

/// Container for what the node knows about the other sections: their
/// latest attested elder sets, their latest section keys, and how much
/// of our own key history each of them already trusts.
pub struct Network {
    /// Latest attested elder set of each known neighbour section.
    pub neighbours: PrefixMap<Proven<EldersInfo>>,
    /// Latest attested BLS key of each known section.
    pub keys: PrefixMap<Proven<SectionKeyRecord>>,
    /// For each known section, the attested position of the latest of
    /// our own keys that it trusts.
    pub knowledge: PrefixMap<Proven<KnowledgeRecord>>,
}

impl Network {
    /// All three maps keep their pruning invariant.
    pub open spec fn wf(&self) -> bool {
        self.neighbours.wf() && self.keys.wf() && self.knowledge.wf()
    }

    /// Creates an empty container.
    pub fn new() -> (r: Network)
        ensures
            r.wf(),
            r.neighbours.entries().len() == 0,
            r.keys.entries().len() == 0,
            r.knowledge.entries().len() == 0,
    {
        Network { neighbours: PrefixMap::new(), keys: PrefixMap::new(), knowledge: PrefixMap::new() }
    }

    /// The elder sets of all known sections, in storage order.
    pub fn all(&self) -> (r: Vec<&EldersInfo>)
        ensures
            r@.len() == self.neighbours.entries().len(),
            forall|i: int|
                0 <= i < r@.len() ==> *(#[trigger] r@[i]) == self.neighbours.entries()[i].value,
    {
        let entries = self.neighbours.iter();
        let mut r: Vec<&EldersInfo> = Vec::new();
        let mut i: usize = 0;
        while i < entries.len()
            invariant
                entries@.len() == self.neighbours.entries().len(),
                forall|j: int|
                    0 <= j < entries@.len() ==> *(#[trigger] entries@[j])
                        == self.neighbours.entries()[j],
                i <= entries@.len(),
                r@.len() == i,
                forall|j: int|
                    0 <= j < i ==> *(#[trigger] r@[j]) == self.neighbours.entries()[j].value,
            decreases entries@.len() - i,
        {
            r.push(&entries[i].value);
            i += 1;
        }
        r
    }

    /// The known section whose prefix lies closest to `name`, whether or
    /// not the name falls under that prefix; used for best-effort routing
    /// when no exact owner is known.
    pub fn closest(&self, name: &XorName) -> (r: Option<&EldersInfo>)
        requires
            name.wf(),
        ensures
            match r {
                Some(e) => self.neighbours.entries().len() > 0 && *e == self.neighbours.entries()[closest_index(
                    self.neighbours.entries(),
                    name@,
                )].value,
                None => self.neighbours.entries().len() == 0,
            },
    {
        let entries = self.neighbours.iter();
        if entries.len() == 0 {
            return None;
        }
        let ghost s = self.neighbours.entries();
        let mut best: usize = 0;
        let mut i: usize = 1;
        proof {
            assert(s.subrange(0, 1).len() == 1);
            assert(closest_index(s.subrange(0, 1), name@) == 0);
        }
        while i < entries.len()
            invariant
                name.wf(),
                entries@.len() == s.len(),
                forall|j: int| 0 <= j < s.len() ==> *(#[trigger] entries@[j]) == s[j],
                1 <= i <= s.len(),
                best < i,
                best == closest_index(s.subrange(0, i as int), name@),
            decreases s.len() - i,
        {
            let ghost prev = s.subrange(0, i as int);
            let cand_prefix = entries[i].prefix();
            let best_prefix = entries[best].prefix();
            let is_less = match cand_prefix.cmp_distance(best_prefix, name) {
                core::cmp::Ordering::Less => true,
                _ => false,
            };
            if is_less {
                best = i;
            }
            proof {
                let next = s.subrange(0, i + 1);
                assert(next.drop_last() =~= prev);
                assert(next.last() == s[i as int]);
                lemma_closest_index_in_range(prev, name@);
                assert(best == closest_index(next, name@));
            }
            i += 1;
        }
        proof {
            assert(s.subrange(0, s.len() as int) =~= s);
            lemma_closest_index_in_range(s, name@);
        }
        Some(&entries[best].value)
    }

    /// The latest known section key for the longest stored prefix that
    /// matches `name`.
    pub fn key_by_name(&self, name: &XorName) -> (r: Option<&Vec<u8>>)
        requires
            name.wf(),
        ensures
            match r {
                Some(k) => exists|i: int|
                    0 <= i < self.keys.entries().len() && (
                    #[trigger] self.keys.entries()[i]).value.key == *k && prefix_matches(
                        self.keys.entries()[i].value.prefix@,
                        name@,
                    ) && (forall|j: int|
                        0 <= j < self.keys.entries().len() && prefix_matches(
                            (#[trigger] self.keys.entries()[j]).value.prefix@,
                            name@,
                        ) ==> self.keys.entries()[j].value.prefix@.len()
                            <= self.keys.entries()[i].value.prefix@.len()),
                None => forall|j: int|
                    0 <= j < self.keys.entries().len() ==> !prefix_matches(
                        (#[trigger] self.keys.entries()[j]).value.prefix@,
                        name@,
                    ),
            },
    {
        match self.keys.get_matching(name) {
            Some(entry) => Some(&entry.value.key),
            None => None,
        }
    }

    /// The latest known key and elder set for the prefixes matching
    /// `name`, as owned copies.
    pub fn section_by_name(&self, name: &XorName) -> (r: (Option<Vec<u8>>, Option<EldersInfo>))
        requires
            name.wf(),
        ensures
            match r.0 {
                Some(k) => exists|i: int|
                    0 <= i < self.keys.entries().len() && (
                    #[trigger] self.keys.entries()[i]).value.key@ == k@ && prefix_matches(
                        self.keys.entries()[i].value.prefix@,
                        name@,
                    ) && (forall|j: int|
                        0 <= j < self.keys.entries().len() && prefix_matches(
                            (#[trigger] self.keys.entries()[j]).value.prefix@,
                            name@,
                        ) ==> self.keys.entries()[j].value.prefix@.len()
                            <= self.keys.entries()[i].value.prefix@.len()),
                None => forall|j: int|
                    0 <= j < self.keys.entries().len() ==> !prefix_matches(
                        (#[trigger] self.keys.entries()[j]).value.prefix@,
                        name@,
                    ),
            },
            match r.1 {
                Some(e) => exists|i: int|
                    0 <= i < self.neighbours.entries().len() && (
                    #[trigger] self.neighbours.entries()[i]).value@ == e@ && prefix_matches(
                        self.neighbours.entries()[i].value.prefix@,
                        name@,
                    ) && (forall|j: int|
                        0 <= j < self.neighbours.entries().len() && prefix_matches(
                            (#[trigger] self.neighbours.entries()[j]).value.prefix@,
                            name@,
                        ) ==> self.neighbours.entries()[j].value.prefix@.len()
                            <= self.neighbours.entries()[i].value.prefix@.len()),
                None => forall|j: int|
                    0 <= j < self.neighbours.entries().len() ==> !prefix_matches(
                        (#[trigger] self.neighbours.entries()[j]).value.prefix@,
                        name@,
                    ),
            },
    {
        let key = match self.keys.get_matching(name) {
            Some(entry) => Some(clone_bytes(&entry.value.key)),
            None => None,
        };
        let info = match self.neighbours.get_matching(name) {
            Some(entry) => Some(entry.value.duplicate()),
            None => None,
        };
        (key, info)
    }
}

} // verus!
