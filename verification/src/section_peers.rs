//! The membership ledger of one section.
//!
//! Records arrive as signed gossip, possibly repeated and out of order.
//! The ledger therefore only ever moves each member forward through a
//! fixed lattice of states, so that applying the same facts in any order
//! and any number of times converges on the same ledger.

use vstd::prelude::*;
use crate::member_info::{MemberInfo, MemberInfoV, MIN_AGE, Peer, PeerV, PeerStateV, PeerState};
use crate::prefix::{Prefix, prefix_matches};
use crate::proven::{Proven, ProvenV};
use crate::xor_name::bytes_equal;

verus! {

/// Whether a member's record may move from `old_info` to `new_info`:
/// a joined member may age upward, leave, or be relocated, and a
/// relocated member may still be recorded as left.  Everything else —
/// age regressions, re-joining after leaving, repeating a record — is
/// rejected, which makes updates commutative and idempotent.
pub open spec fn transition_allowed(old_info: MemberInfoV, new_info: MemberInfoV) -> bool {
    match old_info.state {
        PeerStateV::Joined => match new_info.state {
            PeerStateV::Joined => new_info.peer.age > old_info.peer.age,
            PeerStateV::Left => true,
            PeerStateV::Relocated(_) => true,
        },
        PeerStateV::Relocated(_) => match new_info.state {
            PeerStateV::Left => true,
            _ => false,
        },
        PeerStateV::Left => false,
    }
}

/// No two records concern the same member name.
pub open spec fn uniq_names(s: Seq<ProvenV<MemberInfoV>>) -> bool {
    forall|i: int, j: int|
        #![trigger s[i].value.peer.name, s[j].value.peer.name]
        0 <= i < j < s.len() ==> s[i].value.peer.name != s[j].value.peer.name
}

/// What applying `new` to the ledger yields: whether anything changes,
/// and the ledger afterwards.  A record for an unknown name is adopted;
/// a record for a known name replaces the old one exactly when the
/// transition is allowed.
pub open spec fn update_outcome(s: Seq<ProvenV<MemberInfoV>>, new: ProvenV<MemberInfoV>) -> (
    bool,
    Seq<ProvenV<MemberInfoV>>,
) {
    if exists|j: int| 0 <= j < s.len() && (#[trigger] s[j]).value.peer.name == new.value.peer.name {
        let j = choose|j: int|
            0 <= j < s.len() && (#[trigger] s[j]).value.peer.name == new.value.peer.name;
        if transition_allowed(s[j].value, new.value) {
            (true, s.update(j, new))
        } else {
            (false, s)
        }
    } else {
        (true, s.push(new))
    }
}

/// The records whose member names match `p`, in order.
pub open spec fn matching_members(s: Seq<Proven<MemberInfo>>, p: Seq<bool>) -> Seq<
    Proven<MemberInfo>,
>
    decreases s.len(),
{
    if s.len() == 0 {
        Seq::empty()
    } else {
        let rest = matching_members(s.drop_last(), p);
        if prefix_matches(p, s.last().value.peer.name@) {
            rest.push(s.last())
        } else {
            rest
        }
    }
}

/// Container for the member records of one section, keyed by member
/// name.
pub struct SectionPeers {
    members: Vec<Proven<MemberInfo>>,
}

impl View for SectionPeers {
    type V = Seq<ProvenV<MemberInfoV>>;

    closed spec fn view(&self) -> Seq<ProvenV<MemberInfoV>> {
        self.members@.map_values(|p: Proven<MemberInfo>| p@)
    }
}

impl SectionPeers {
    /// The stored records.
    pub closed spec fn records(&self) -> Seq<Proven<MemberInfo>> {
        self.members@
    }

    /// Each member name occurs at most once and every record is well
    /// formed.
    pub open spec fn wf(&self) -> bool {
        uniq_names(self@) && forall|i: int|
            0 <= i < self.records().len() ==> (#[trigger] self.records()[i]).value.wf()
    }

    /// Creates an empty ledger.
    pub fn new() -> (r: SectionPeers)
        ensures
            r.wf(),
            r@ =~= Seq::<ProvenV<MemberInfoV>>::empty(),
            r.records() =~= Seq::<Proven<MemberInfo>>::empty(),
    {
        SectionPeers { members: Vec::new() }
    }

    /// Applies one member record.  Returns whether anything changed:
    /// `false` exactly when the name is known and the recorded state may
    /// not move to the new one.
    #[verifier::loop_isolation(false)]
    pub fn update(&mut self, new_info: Proven<MemberInfo>) -> (r: bool)
        requires
            old(self).wf(),
            new_info.value.wf(),
        ensures
            final(self).wf(),
            (r, final(self)@) == update_outcome(old(self)@, new_info@),
            r ==> final(self).records().contains(new_info),
            !r ==> final(self).records() == old(self).records(),
    {
        let ghost s0 = self@;
        let ghost s0m = self.members@;
        let mut i: usize = 0;
        while i < self.members.len()
            invariant
                self@ == s0,
                self.members@ == s0m,
                i <= self.members@.len(),
                forall|j: int| 0 <= j < i ==> (#[trigger] s0[j]).value.peer.name
                    != new_info@.value.peer.name,
            decreases self.members@.len() - i,
        {
            if bytes_equal(&self.members[i].value.peer.name.0, &new_info.value.peer.name.0) {
                proof {
                    assert(s0[i as int].value.peer.name == new_info@.value.peer.name);
                }
                let allowed = transition_allowed_exec(&self.members[i].value, &new_info.value);
                proof {
                    let j = choose|j: int|
                        0 <= j < s0.len() && (#[trigger] s0[j]).value.peer.name
                            == new_info@.value.peer.name;
                    assert(j == i as int);
                }
                if allowed {
                    self.members.set(i, new_info);
                    proof {
                        assert(self@ =~= s0.update(i as int, new_info@));
                        assert forall|a: int, b: int|
                            #![trigger self@[a].value.peer.name, self@[b].value.peer.name]
                            0 <= a < b < self@.len() implies self@[a].value.peer.name
                            != self@[b].value.peer.name by {
                            assert(s0[a].value.peer.name != s0[b].value.peer.name);
                        }
                        assert forall|m: int|
                            0 <= m < self.records().len() implies (
                            #[trigger] self.records()[m]).value.wf() by {
                            if m != i {
                                assert(self.records()[m] == s0m[m]);
                            }
                        }
                        assert(self.members@[i as int] == new_info);
                        assert(self.records().contains(new_info));
                    }
                    return true;
                } else {
                    proof {
                        // the unchanged records are exactly the ones the
                        // caller handed in, so they stay well formed
                        assert(forall|m: int|
                            0 <= m < old(self).records().len() ==> (
                            #[trigger] old(self).records()[m]).value.wf());
                        assert(forall|m: int|
                            0 <= m < self.records().len() ==> (
                            #[trigger] self.records()[m]).value.wf());
                    }
                    return false;
                }
            }
            i += 1;
        }
        proof {
            assert(!exists|j: int|
                0 <= j < s0.len() && (#[trigger] s0[j]).value.peer.name
                    == new_info@.value.peer.name);
        }
        self.members.push(new_info);
        proof {
            assert(self@ =~= s0.push(new_info@));
            assert forall|a: int, b: int|
                #![trigger self@[a].value.peer.name, self@[b].value.peer.name]
                0 <= a < b < self@.len() implies self@[a].value.peer.name
                != self@[b].value.peer.name by {
                if b < self@.len() - 1 {
                    assert(s0[a].value.peer.name != s0[b].value.peer.name);
                }
            }
            assert forall|m: int|
                0 <= m < self.records().len() implies (#[trigger] self.records()[m]).value.wf() by {
                if m < self.records().len() - 1 {
                    assert(self.records()[m] == s0m[m]);
                }
            }
            assert(self.members@[self.members@.len() - 1] == new_info);
            assert(self.records().contains(new_info));
        }
        true
    }

    /// Drops every record whose member name no longer matches `prefix`,
    /// as after a section split.
    #[verifier::loop_isolation(false)]
    pub fn prune_not_matching(&mut self, prefix: &Prefix)
        requires
            old(self).wf(),
            prefix.wf(),
        ensures
            final(self).wf(),
            final(self).records() == matching_members(old(self).records(), prefix@),
    {
        let ghost s0 = self.members@;
        let mut kept: Vec<Proven<MemberInfo>> = Vec::new();
        let ghost mut done: int = 0;
        while self.members.len() > 0
            invariant
                0 <= done <= s0.len(),
                self.members@ == s0.subrange(done, s0.len() as int),
                kept@ == matching_members(s0.subrange(0, done), prefix@),
            decreases self.members@.len(),
        {
            let ghost prev = s0.subrange(0, done);
            let record = self.members.remove(0);
            proof {
                assert(record == s0[done]);
                assert(self.members@ =~= s0.subrange(done + 1, s0.len() as int));
                assert(old(self).records()[done].value.wf());
            }
            let keep = prefix.matches(&record.value.peer.name);
            if keep {
                kept.push(record);
            }
            proof {
                let next = s0.subrange(0, done + 1);
                assert(next.drop_last() =~= prev);
                assert(next.last() == s0[done]);
                assert(kept@ =~= matching_members(next, prefix@));
                done = done + 1;
            }
        }
        proof {
            assert(s0.subrange(0, s0.len() as int) =~= s0);
        }
        self.members = kept;
        proof {
            lemma_matching_members_facts(s0, prefix@);
            assert forall|a: int, b: int|
                #![trigger self@[a].value.peer.name, self@[b].value.peer.name]
                0 <= a < b < self@.len() implies self@[a].value.peer.name
                != self@[b].value.peer.name by {
                lemma_matching_members_distinct(s0, prefix@, a, b);
                assert(self.members@[a]@.value.peer.name == self@[a].value.peer.name);
                assert(self.members@[b]@.value.peer.name == self@[b].value.peer.name);
            }
            assert forall|m: int|
                0 <= m < self.records().len() implies (#[trigger] self.records()[m]).value.wf() by {
                assert(s0.contains(self.records()[m]));
                let k = choose|k: int| 0 <= k < s0.len() && s0[k] == self.records()[m];
                assert(old(self).records()[k].value.wf());
            }
        }
    }

    /// The member records with state `Joined`.
    pub fn joined(&self) -> (r: Vec<&MemberInfo>)
        ensures
            forall|k: int|
                0 <= k < r@.len() ==> (#[trigger] r@[k])@.state == PeerStateV::Joined && exists|
                    i: int,
                |
                    0 <= i < self.records().len() && *r@[k] == (#[trigger] self.records()[i]).value,
            forall|i: int|
                0 <= i < self.records().len() && (#[trigger] self.records()[i]).value@.state
                    == PeerStateV::Joined ==> exists|k: int|
                    0 <= k < r@.len() && *(#[trigger] r@[k]) == self.records()[i].value,
    {
        let mut r: Vec<&MemberInfo> = Vec::new();
        let mut i: usize = 0;
        while i < self.members.len()
            invariant
                i <= self.records().len(),
                forall|k: int|
                    0 <= k < r@.len() ==> (#[trigger] r@[k])@.state == PeerStateV::Joined
                        && exists|m: int|
                        0 <= m < self.records().len() && *r@[k] == (
                        #[trigger] self.records()[m]).value,
                forall|m: int|
                    0 <= m < i && (#[trigger] self.records()[m]).value@.state
                        == PeerStateV::Joined ==> exists|k: int|
                        0 <= k < r@.len() && *(#[trigger] r@[k]) == self.records()[m].value,
            decreases self.records().len() - i,
        {
            let ghost old_r = r@;
            let is_joined = match &self.members[i].value.state {
                PeerState::Joined => true,
                _ => false,
            };
            if is_joined {
                r.push(&self.members[i].value);
            }
            proof {
                if is_joined {
                    assert(*r@[r@.len() - 1] == self.records()[i as int].value);
                }
                assert forall|k: int|
                    0 <= k < r@.len() implies (#[trigger] r@[k])@.state == PeerStateV::Joined
                        && exists|m: int|
                        0 <= m < self.records().len() && *r@[k] == (
                        #[trigger] self.records()[m]).value by {
                    if k < old_r.len() {
                        assert(r@[k] == old_r[k]);
                        let m0 = choose|m: int|
                            0 <= m < self.records().len() && *old_r[k] == (
                            #[trigger] self.records()[m]).value;
                        assert(*r@[k] == self.records()[m0].value);
                    } else {
                        assert(*r@[k] == self.records()[i as int].value);
                    }
                }
                assert forall|m: int|
                    0 <= m < i + 1 && (#[trigger] self.records()[m]).value@.state
                        == PeerStateV::Joined implies exists|k: int|
                    0 <= k < r@.len() && *(#[trigger] r@[k]) == self.records()[m].value by {
                    if m < i {
                        let k0 = choose|k: int|
                            0 <= k < old_r.len() && *(#[trigger] old_r[k])
                                == self.records()[m].value;
                        assert(*r@[k0] == self.records()[m].value);
                    } else {
                        assert(*r@[r@.len() - 1] == self.records()[m].value);
                    }
                }
            }
            i += 1;
        }
        r
    }

    /// The peers of joined members past the infant age.
    #[verifier::rlimit(60)]
    pub fn mature(&self) -> (r: Vec<Peer>)
        ensures
            forall|k: int|
                #![trigger r@[k]]
                0 <= k < r@.len() ==> is_mature_record(self@, r@[k]@),
            forall|i: int|
                0 <= i < self@.len() && (#[trigger] self@[i]).value.state == PeerStateV::Joined
                    && self@[i].value.peer.age > MIN_AGE ==> exists|k: int|
                    0 <= k < r@.len() && (#[trigger] r@[k])@ == self@[i].value.peer,
    {
        let mut r: Vec<Peer> = Vec::new();
        let mut i: usize = 0;
        while i < self.members.len()
            invariant
                i <= self@.len(),
                forall|k: int|
                    #![trigger r@[k]]
                    0 <= k < r@.len() ==> is_mature_record(self@, r@[k]@),
                forall|m: int|
                    0 <= m < i && (#[trigger] self@[m]).value.state == PeerStateV::Joined
                        && self@[m].value.peer.age > MIN_AGE ==> exists|k: int|
                        0 <= k < r@.len() && (#[trigger] r@[k])@ == self@[m].value.peer,
            decreases self@.len() - i,
        {
            let ghost old_r = r@;
            let record = &self.members[i].value;
            let take = match &record.state {
                PeerState::Joined => record.peer.age > MIN_AGE,
                _ => false,
            };
            if take {
                r.push(self.members[i].value.peer.duplicate());
            }
            proof {
                if take {
                    assert(r@[r@.len() - 1]@ == self@[i as int].value.peer);
                    assert(self@[i as int].value.state == PeerStateV::Joined);
                }
                assert forall|k: int| #![trigger r@[k]] 0 <= k < r@.len() implies is_mature_record(
                    self@,
                    r@[k]@,
                ) by {
                    if k < old_r.len() {
                        assert(r@[k] == old_r[k]);
                        assert(is_mature_record(self@, old_r[k]@));
                    } else {
                        assert(self@[i as int].value.peer == r@[k]@);
                    }
                }
                assert forall|m: int|
                    0 <= m < i + 1 && (#[trigger] self@[m]).value.state == PeerStateV::Joined
                        && self@[m].value.peer.age > MIN_AGE implies exists|k: int|
                    0 <= k < r@.len() && (#[trigger] r@[k])@ == self@[m].value.peer by {
                    if m < i {
                        let k0 = choose|k: int|
                            0 <= k < old_r.len() && (#[trigger] old_r[k])@ == self@[m].value.peer;
                        assert(r@[k0]@ == self@[m].value.peer);
                    } else {
                        assert(r@[r@.len() - 1]@ == self@[m].value.peer);
                    }
                }
            }
            i += 1;
        }
        r
    }
}

/// Whether `p` is the peer of some joined member past the infant age in
/// the given ledger.
pub open spec fn is_mature_record(s: Seq<ProvenV<MemberInfoV>>, p: PeerV) -> bool {
    exists|i: int|
        0 <= i < s.len() && (#[trigger] s[i]).value.peer == p && s[i].value.state
            == PeerStateV::Joined && s[i].value.peer.age > MIN_AGE
}

/// Whether the recorded state allows moving to the new record.
fn transition_allowed_exec(old_info: &MemberInfo, new_info: &MemberInfo) -> (r: bool)
    ensures
        r == transition_allowed(old_info@, new_info@),
{
    match &old_info.state {
        PeerState::Joined => match &new_info.state {
            PeerState::Joined => new_info.peer.age > old_info.peer.age,
            PeerState::Left => true,
            PeerState::Relocated(_) => true,
        },
        PeerState::Relocated(_) => match &new_info.state {
            PeerState::Left => true,
            _ => false,
        },
        PeerState::Left => false,
    }
}

/// Every record kept by a prune occurs in the original ledger, matches
/// the prefix, and every matching record is kept.
pub proof fn lemma_matching_members_facts(s: Seq<Proven<MemberInfo>>, p: Seq<bool>)
    ensures
        forall|k: int|
            0 <= k < matching_members(s, p).len() ==> s.contains(
                #[trigger] matching_members(s, p)[k],
            ) && prefix_matches(p, matching_members(s, p)[k].value.peer.name@),
        forall|i: int|
            0 <= i < s.len() && prefix_matches(p, (#[trigger] s[i]).value.peer.name@)
                ==> matching_members(s, p).contains(s[i]),
    decreases s.len(),
{
    if s.len() > 0 {
        lemma_matching_members_facts(s.drop_last(), p);
        let rest = matching_members(s.drop_last(), p);
        let whole = matching_members(s, p);
        assert forall|k: int| 0 <= k < whole.len() implies s.contains(#[trigger] whole[k])
            && prefix_matches(p, whole[k].value.peer.name@) by {
            if k < rest.len() {
                assert(s.drop_last().contains(rest[k]));
                let j = choose|j: int| 0 <= j < s.drop_last().len() && s.drop_last()[j] == rest[k];
                assert(s[j] == whole[k]);
            } else {
                assert(whole[k] == s.last());
                assert(s[s.len() - 1] == s.last());
            }
        }
        assert forall|i: int|
            0 <= i < s.len() && prefix_matches(p, (#[trigger] s[i]).value.peer.name@) implies whole
            .contains(s[i]) by {
            if i < s.len() - 1 {
                assert(s.drop_last()[i] == s[i]);
                assert(rest.contains(s[i]));
                let k = choose|k: int| 0 <= k < rest.len() && rest[k] == s[i];
                assert(whole[k] == s[i]);
            } else {
                assert(whole[whole.len() - 1] == s[i]);
            }
        }
    }
}

/// A prune keeps records in order, so two kept records at different
/// positions come from different original positions.
proof fn lemma_matching_members_distinct(s: Seq<Proven<MemberInfo>>, p: Seq<bool>, a: int, b: int)
    requires
        uniq_names(s.map_values(|q: Proven<MemberInfo>| q@)),
        0 <= a < b < matching_members(s, p).len(),
    ensures
        matching_members(s, p)[a]@.value.peer.name != matching_members(s, p)[b]@.value.peer.name,
    decreases s.len(),
{
    if s.len() > 0 {
        let rest = matching_members(s.drop_last(), p);
        let whole = matching_members(s, p);
        assert(uniq_names(s.drop_last().map_values(|q: Proven<MemberInfo>| q@))) by {
            let sm = s.map_values(|q: Proven<MemberInfo>| q@);
            let dm = s.drop_last().map_values(|q: Proven<MemberInfo>| q@);
            assert forall|x: int, y: int|
                #![trigger dm[x].value.peer.name, dm[y].value.peer.name]
                0 <= x < y < dm.len() implies dm[x].value.peer.name != dm[y].value.peer.name by {
                assert(dm[x] == sm[x] && dm[y] == sm[y]);
                assert(sm[x].value.peer.name != sm[y].value.peer.name);
            }
        }
        if b < rest.len() {
            lemma_matching_members_distinct(s.drop_last(), p, a, b);
        } else if prefix_matches(p, s.last().value.peer.name@) && b == whole.len() - 1
            && whole.len() == rest.len() + 1 {
            // the later record is the original's last; the earlier one
            // comes from the front part and carries a different name
            lemma_matching_members_facts(s.drop_last(), p);
            assert(s.drop_last().contains(rest[a]));
            let j = choose|j: int| 0 <= j < s.drop_last().len() && s.drop_last()[j] == rest[a];
            let sm = s.map_values(|q: Proven<MemberInfo>| q@);
            assert(sm[j].value.peer.name != sm[s.len() - 1].value.peer.name);
        }
    }
}

/// Law: applying the same record twice changes nothing the second time —
/// the repeated application is rejected and the ledger is left exactly
/// as the first application left it.
pub proof fn lemma_update_idempotent(s: Seq<ProvenV<MemberInfoV>>, new: ProvenV<MemberInfoV>)
    requires
        uniq_names(s),
    ensures
        ({
            let (r1, s1) = update_outcome(s, new);
            let (r2, s2) = update_outcome(s1, new);
            r2 == false && s2 == s1
        }),
{
    let (r1, s1) = update_outcome(s, new);
    assert(!transition_allowed(new.value, new.value));
    if exists|j: int| 0 <= j < s.len() && (#[trigger] s[j]).value.peer.name == new.value.peer.name {
        let j = choose|j: int|
            0 <= j < s.len() && (#[trigger] s[j]).value.peer.name == new.value.peer.name;
        if transition_allowed(s[j].value, new.value) {
            assert(s1 == s.update(j, new));
            assert(s1[j].value.peer.name == new.value.peer.name);
            let j2 = choose|k: int|
                0 <= k < s1.len() && (#[trigger] s1[k]).value.peer.name == new.value.peer.name;
            assert(j2 == j) by {
                if j2 != j {
                    assert(s1[j2] == s[j2]);
                    assert(s[j2].value.peer.name != s[j].value.peer.name);
                }
            }
        } else {
            assert(s1 == s);
        }
    } else {
        assert(s1 == s.push(new));
        let n = s1.len() - 1;
        assert(s1[n].value.peer.name == new.value.peer.name);
        let j2 = choose|k: int|
            0 <= k < s1.len() && (#[trigger] s1[k]).value.peer.name == new.value.peer.name;
        assert(j2 == n) by {
            if j2 < n {
                assert(s[j2].value.peer.name == new.value.peer.name);
            }
        }
    }
}

} // verus!
