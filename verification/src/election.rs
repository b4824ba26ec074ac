//! Virtual voting: candidate elections, and the round coordinator that tries
//! candidates in ascending hash order until one is elected.

use crate::units::count_present;
use crate::units::lemma_max_round_achieved;
use crate::units::lemma_round_descend;
use crate::units::lemma_round_hashes_complete;
use crate::units::lemma_round_hashes_distinct;
use crate::units::lemma_round_hashes_member;
use crate::units::lemma_unit_at_index;
use crate::units::Unit;
use crate::units::Units;
use crate::units::UnitsV;
use crate::units::UnitV;
use std::collections::HashMap;
use vstd::prelude::*;

verus! {

broadcast use vstd::std_specs::hash::group_hash_axioms;

/// The deterministic fallback vote by relative round: true at 2, false at 3,
/// true at 4, then alternating starting from true at 5.
pub open spec fn spec_common_vote(relative_round: int) -> bool {
    if relative_round == 3 {
        false
    } else if relative_round <= 4 {
        true
    } else {
        relative_round % 2 == 1
    }
}

/// From relative round 5 on the fallback vote is simply the round's parity.
pub proof fn lemma_common_vote_alternates(relative_round: int)
    requires
        relative_round >= 5,
    ensures
        spec_common_vote(relative_round) == (relative_round % 2 == 1),
        spec_common_vote(relative_round + 1) == !spec_common_vote(relative_round),
{
}

/// The deterministic fallback vote, used when a voter's parents split and no
/// supermajority has formed yet. Meaningful from relative round 2 on.
pub fn common_vote(relative_round: u64) -> (vote: bool)
    ensures
        vote == spec_common_vote(relative_round as int),
{
    if relative_round == 3 {
        return false;
    }
    if relative_round <= 4 {
        return true;
    }
    relative_round % 2 == 1
}

/// The candidate a vote is about: its round, its creator's committee index,
/// and its hash.
pub struct CandidateV {
    pub round: int,
    pub creator: int,
    pub hash: u64,
}

/// The candidate described by a stored unit's hash.
pub open spec fn cand_of_hash(u: UnitsV, h: u64) -> CandidateV {
    CandidateV { round: u.round_of(h), creator: u.unit_of(h).creator, hash: h }
}

/// A cited hash resolves in the store to a unit strictly below the given
/// round; in a sound store every cited parent does.
pub open spec fn resolves_below(u: UnitsV, p: u64, vround: int) -> bool {
    u.contains_hash(p) && 0 <= u.round_of(p) < vround
}

/// How many filled parent slots of a unit at round `vround` carry the given
/// vote about the candidate.
pub open spec fn count_votes(
    u: UnitsV,
    c: CandidateV,
    parents: Seq<Option<u64>>,
    vround: int,
    val: bool,
) -> int
    decreases vround, 0int, parents.len(),
{
    if parents.len() == 0 {
        0
    } else {
        let rest = count_votes(u, c, parents.drop_last(), vround, val);
        match parents.last() {
            None => rest,
            Some(p) => if resolves_below(u, p, vround) && true_vote(u, c, u.unit_of(p)) == val {
                rest + 1
            } else {
                rest
            },
        }
    }
}

/// The vote a unit at round `vround` with the given parents derives from its
/// parents' votes: unanimity propagates, a genuine split falls back to the
/// common vote.
pub open spec fn derived_vote(
    u: UnitsV,
    c: CandidateV,
    parents: Seq<Option<u64>>,
    vround: int,
) -> bool
    decreases vround, 1int, 0int,
{
    let vf = count_votes(u, c, parents, vround, true);
    let va = count_votes(u, c, parents, vround, false);
    if vf == 0 {
        false
    } else if va == 0 {
        true
    } else {
        spec_common_vote(vround - c.round)
    }
}

/// The vote of a voter unit about a candidate. A voter not causally after the
/// candidate votes against; at relative round 1 it votes for exactly when it
/// cites the candidate in the candidate creator's slot; above that its vote
/// derives from its parents' votes.
pub open spec fn true_vote(u: UnitsV, c: CandidateV, v: UnitV) -> bool
    decreases v.round, 2int, 0int,
{
    if v.round <= c.round {
        false
    } else if v.round == c.round + 1 {
        0 <= c.creator < v.parents.len() && v.parents[c.creator] == Some(c.hash)
    } else {
        derived_vote(u, c, v.parents, v.round)
    }
}

/// Whether a unit at round `vround` with the given parents settles the
/// candidate's election: `Some(true)` elects, `Some(false)` eliminates.
/// From relative round 3 on, a supermajority of parent votes agreeing with
/// the common vote is decisive.
pub open spec fn decides_from(
    u: UnitsV,
    c: CandidateV,
    parents: Seq<Option<u64>>,
    vround: int,
) -> Option<bool> {
    let rel = vround - c.round;
    let vf = count_votes(u, c, parents, vround, true);
    let va = count_votes(u, c, parents, vround, false);
    let cv = spec_common_vote(rel);
    if rel >= 3 && cv && vf >= u.threshold() {
        Some(true)
    } else if rel >= 3 && !cv && va >= u.threshold() {
        Some(false)
    } else {
        None
    }
}

/// Whether a voter unit settles the candidate's election.
pub open spec fn decides(u: UnitsV, c: CandidateV, v: UnitV) -> Option<bool> {
    if v.round - c.round >= 2 {
        decides_from(u, c, v.parents, v.round)
    } else {
        None
    }
}

/// Some stored unit settles the candidate's election with the given outcome.
pub open spec fn some_decider(u: UnitsV, c: CandidateV, val: bool) -> bool {
    exists|i: int| 0 <= i < u.units.len() && decides(u, c, #[trigger] u.units[i]) == Some(val)
}

/// What a protocol-level short-circuit asserts about the store: an election
/// ends only because some stored voter genuinely settled it.
pub open spec fn error_sound(e: VoteError, u: UnitsV, c: CandidateV) -> bool {
    match e {
        VoteError::ElectionDone(h) => h == c.hash && some_decider(u, c, true),
        VoteError::EliminateCandidate => some_decider(u, c, false),
    }
}

/// As `error_sound`, except that the settling voter may also be the unit
/// whose parents are given, which need not itself be stored.
pub open spec fn error_sound_or_here(
    e: VoteError,
    u: UnitsV,
    c: CandidateV,
    parents: Seq<Option<u64>>,
    vround: int,
) -> bool {
    match e {
        VoteError::ElectionDone(h) => h == c.hash && (some_decider(u, c, true) || decides_from(
            u,
            c,
            parents,
            vround,
        ) == Some(true)),
        VoteError::EliminateCandidate => some_decider(u, c, false) || decides_from(
            u,
            c,
            parents,
            vround,
        ) == Some(false),
    }
}

/// Filled slots that resolve below the voter's round split exactly into those
/// voting for and those voting against.
pub proof fn lemma_count_votes_split(
    u: UnitsV,
    c: CandidateV,
    parents: Seq<Option<u64>>,
    vround: int,
)
    requires
        forall|k: int|
            0 <= k < parents.len() ==> ((#[trigger] parents[k]) matches Some(p) ==> resolves_below(
                u,
                p,
                vround,
            )),
    ensures
        count_votes(u, c, parents, vround, true) + count_votes(u, c, parents, vround, false)
            == count_present(parents),
    decreases parents.len(),
{
    if parents.len() > 0 {
        assert forall|k: int|
            0 <= k < parents.drop_last().len() implies ((#[trigger] parents.drop_last()[k]) matches Some(
            p,
        ) ==> resolves_below(u, p, vround)) by {
            assert(parents.drop_last()[k] == parents[k]);
        }
        lemma_count_votes_split(u, c, parents.drop_last(), vround);
        match parents.last() {
            None => {},
            Some(p) => {
                assert(parents[parents.len() - 1] matches Some(q) && q == p);
                assert(resolves_below(u, p, vround));
            },
        }
    }
}

/// When all filled slots that resolve below agree on a vote, the counts are
/// plain: all of them for that vote, none for the other.
pub proof fn lemma_count_votes_all(
    u: UnitsV,
    c: CandidateV,
    parents: Seq<Option<u64>>,
    vround: int,
    val: bool,
)
    requires
        forall|k: int|
            0 <= k < parents.len() ==> ((#[trigger] parents[k]) matches Some(p) ==> resolves_below(
                u,
                p,
                vround,
            ) && true_vote(u, c, u.unit_of(p)) == val),
    ensures
        count_votes(u, c, parents, vround, val) == count_present(parents),
        count_votes(u, c, parents, vround, !val) == 0,
    decreases parents.len(),
{
    if parents.len() > 0 {
        assert forall|k: int|
            0 <= k < parents.drop_last().len() implies ((#[trigger] parents.drop_last()[k]) matches Some(
            p,
        ) ==> resolves_below(u, p, vround) && true_vote(u, c, u.unit_of(p)) == val) by {
            assert(parents.drop_last()[k] == parents[k]);
        }
        lemma_count_votes_all(u, c, parents.drop_last(), vround, val);
        match parents.last() {
            None => {},
            Some(p) => {
                assert(parents[parents.len() - 1] matches Some(q) && q == p);
            },
        }
    }
}

/// Direct-round rule: a voter one round above the candidate votes for it
/// exactly when it cites the candidate's hash in the candidate creator's
/// slot; an absent slot, or one citing anything else, votes against.
pub proof fn lemma_direct_round_rule(u: UnitsV, c: CandidateV, v: UnitV)
    requires
        v.round == c.round + 1,
    ensures
        true_vote(u, c, v) == (0 <= c.creator < v.parents.len() && v.parents[c.creator] == Some(
            c.hash,
        )),
{
}

/// Unanimity propagation: when all of a stored voter's present parents agree,
/// the voter's vote is that unanimous value, whatever the common vote says at
/// that round.
pub proof fn lemma_unanimity(u: UnitsV, c: CandidateV, v: UnitV, val: bool)
    requires
        u.wf(),
        u.contains_hash(v.hash),
        u.unit_of(v.hash) == v,
        c.round >= 0,
        v.round >= c.round + 2,
        forall|k: int|
            0 <= k < v.parents.len() ==> ((#[trigger] v.parents[k]) matches Some(p) ==> true_vote(
                u,
                c,
                u.unit_of(p),
            ) == val),
    ensures
        true_vote(u, c, v) == val,
{
    lemma_unit_at_index(u, u.index_of(v.hash));
    assert(u.unit_wf(v));
    assert forall|k: int|
        0 <= k < v.parents.len() implies ((#[trigger] v.parents[k]) matches Some(p)
        ==> resolves_below(u, p, v.round) && true_vote(u, c, u.unit_of(p)) == val) by {
        match v.parents[k] {
            Some(p) => {
                lemma_unit_at_index(u, u.index_of(p));
            },
            None => {},
        }
    }
    lemma_count_votes_all(u, c, v.parents, v.round, val);
    assert(u.threshold() >= 1) by {
        assert(u.n_members * 2 >= 2);
    }
    assert(count_present(v.parents) >= 1);
}

/// A terminal outcome is still reachable from this hash: it names an
/// uncached stored unit whose vote must still be derived (relative round 2
/// or more), and either that unit settles the election itself or a terminal
/// outcome is reachable through one of its cited parents. Deriving this
/// voter's vote hits a decider in exactly this situation; a cached, stale or
/// direct-round voter ends the search, because no vote is derived there.
pub open spec fn pending_decider(u: UnitsV, c: CandidateV, cache: Map<u64, bool>, h: u64) -> bool
    decreases u.round_of(h), 1int,
{
    if !u.contains_hash(h) || cache.contains_key(h) {
        false
    } else {
        let v = u.unit_of(h);
        if v.round - c.round < 2 {
            false
        } else {
            decides(u, c, v) is Some || parents_pending(u, c, cache, v.parents, v.round)
        }
    }
}

/// A terminal outcome is reachable from some filled slot of this parent map.
pub open spec fn parents_pending(
    u: UnitsV,
    c: CandidateV,
    cache: Map<u64, bool>,
    parents: Seq<Option<u64>>,
    vround: int,
) -> bool
    decreases vround, 0int,
{
    exists|k: int|
        0 <= k < parents.len() && ((#[trigger] parents[k]) matches Some(p) && resolves_below(
            u,
            p,
            vround,
        ) && pending_decider(u, c, cache, p))
}

/// Growing the cache only resolves voters: a terminal outcome reachable
/// under a larger cache was already reachable under the smaller one.
pub proof fn lemma_pending_decider_antitone(
    u: UnitsV,
    c: CandidateV,
    small: Map<u64, bool>,
    large: Map<u64, bool>,
    h: u64,
)
    requires
        forall|x: u64| #[trigger] small.contains_key(x) ==> large.contains_key(x),
        pending_decider(u, c, large, h),
    ensures
        pending_decider(u, c, small, h),
    decreases u.round_of(h), 1int,
{
    let v = u.unit_of(h);
    if decides(u, c, v) is Some {
    } else {
        let k = choose|k: int|
            0 <= k < v.parents.len() && ((#[trigger] v.parents[k]) matches Some(p)
                && resolves_below(u, p, v.round) && pending_decider(u, c, large, p));
        match v.parents[k] {
            Some(p) => {
                lemma_pending_decider_antitone(u, c, small, large, p);
                assert(parents_pending(u, c, small, v.parents, v.round));
            },
            None => {},
        }
    }
}

/// At relative round 2 no terminal outcome is reachable through the parents:
/// they sit on the direct round, where votes are read off citations.
pub proof fn lemma_direct_parents_never_pending(
    u: UnitsV,
    c: CandidateV,
    cache: Map<u64, bool>,
    parents: Seq<Option<u64>>,
    vround: int,
)
    requires
        vround == c.round + 2,
        forall|k: int|
            0 <= k < parents.len() ==> ((#[trigger] parents[k]) matches Some(p)
                ==> u.round_of(p) == vround - 1),
    ensures
        !parents_pending(u, c, cache, parents, vround),
{
    if parents_pending(u, c, cache, parents, vround) {
        let k = choose|k: int|
            0 <= k < parents.len() && ((#[trigger] parents[k]) matches Some(p) && resolves_below(
                u,
                p,
                vround,
            ) && pending_decider(u, c, cache, p));
        match parents[k] {
            Some(p) => {
                assert(u.unit_of(p).round - c.round < 2);
            },
            None => {},
        }
    }
}

/// Either protocol-level way a candidate's election can end before all known
/// voters are absorbed.
pub enum VoteError {
    /// The candidate lost: a supermajority voted against it on a common-vote
    /// `false` round. The coordinator moves to the next candidate.
    EliminateCandidate,
    /// The candidate won; the payload is its hash.
    ElectionDone(u64),
}

/// The running election of one candidate: the candidate's coordinates and a
/// cache of every voter's vote computed so far.
pub struct CandidateElection {
    pub round: u64,
    pub candidate_creator: usize,
    pub candidate_hash: u64,
    pub votes: HashMap<u64, bool>,
}

impl CandidateElection {
    /// The candidate under election.
    pub open spec fn cand(self) -> CandidateV {
        CandidateV {
            round: self.round as int,
            creator: self.candidate_creator as int,
            hash: self.candidate_hash,
        }
    }

    /// The election is sound for a store: the candidate is a stored unit, and
    /// the cache holds exactly the true votes of stored voters, none of which
    /// settles the election.
    pub open spec fn wf(self, u: UnitsV) -> bool {
        &&& u.contains_hash(self.candidate_hash)
        &&& u.unit_of(self.candidate_hash).round == self.round as int
        &&& u.unit_of(self.candidate_hash).creator == self.candidate_creator as int
        &&& forall|h: u64|
            #[trigger] self.votes@.contains_key(h) ==> {
                &&& u.contains_hash(h)
                &&& self.votes@[h] == true_vote(u, self.cand(), u.unit_of(h))
                &&& decides(u, self.cand(), u.unit_of(h)) is None
            }
    }

    /// Creates an election for the given candidate, with an empty vote cache.
    /// The candidate will eventually either get elected or eliminated.
    pub fn new(candidate: &Unit) -> (election: CandidateElection)
        ensures
            election.round == candidate.round,
            election.candidate_creator == candidate.creator,
            election.candidate_hash == candidate.hash,
            election.votes@ == Map::<u64, bool>::empty(),
    {
        CandidateElection {
            round: candidate.round,
            candidate_creator: candidate.creator,
            candidate_hash: candidate.hash,
            votes: HashMap::new(),
        }
    }

    /// Absorbing voters keeps the candidate, keeps the election sound, and
    /// only grows the vote cache; cached votes never change.
    pub open spec fn advances(pre: CandidateElection, post: CandidateElection, u: UnitsV) -> bool {
        &&& post.round == pre.round
        &&& post.candidate_creator == pre.candidate_creator
        &&& post.candidate_hash == pre.candidate_hash
        &&& post.wf(u)
        &&& forall|h: u64|
            #[trigger] pre.votes@.contains_key(h) ==> post.votes@.contains_key(h)
                && post.votes@[h] == pre.votes@[h]
    }

    /// Compute (and cache) the votes of the filled parent slots, returning
    /// how many vote for and how many vote against the candidate.
    fn parent_votes(
        &mut self,
        parents: &Vec<Option<u64>>,
        units: &Units,
        Ghost(vround): Ghost<int>,
    ) -> (r: Result<(usize, usize), VoteError>)
        requires
            units@.wf(),
            old(self).wf(units@),
            forall|k: int|
                0 <= k < parents@.len() ==> ((#[trigger] parents@[k]) matches Some(p)
                    ==> units@.contains_hash(p) && units@.round_of(p) == vround - 1),
        ensures
            Self::advances(*old(self), *final(self), units@),
            r matches Ok(counts) ==> counts.0 as int == count_votes(
                units@,
                old(self).cand(),
                parents@,
                vround,
                true,
            ) && counts.1 as int == count_votes(
                units@,
                old(self).cand(),
                parents@,
                vround,
                false,
            ),
            r matches Err(e) ==> error_sound(e, units@, old(self).cand()),
            r is Err ==> parents_pending(
                units@,
                old(self).cand(),
                old(self).votes@,
                parents@,
                vround,
            ),
        decreases vround, 0int,
    {
        let mut votes_for: usize = 0;
        let mut votes_against: usize = 0;
        let n = parents.len();
        let mut k: usize = 0;
        while k < n
            invariant
                units@.wf(),
                Self::advances(*old(self), *self, units@),
                n == parents.len(),
                k <= n,
                forall|k2: int|
                    0 <= k2 < parents@.len() ==> ((#[trigger] parents@[k2]) matches Some(p)
                        ==> units@.contains_hash(p) && units@.round_of(p) == vround - 1),
                votes_for as int == count_votes(
                    units@,
                    old(self).cand(),
                    parents@.take(k as int),
                    vround,
                    true,
                ),
                votes_against as int == count_votes(
                    units@,
                    old(self).cand(),
                    parents@.take(k as int),
                    vround,
                    false,
                ),
                votes_for + votes_against <= k,
            decreases n - k,
        {
            proof {
                assert(parents@.take(k + 1).drop_last() =~= parents@.take(k as int));
                assert(parents@.take(k + 1).last() == parents@[k as int]);
            }
            let slot = parents[k];
            match slot {
                None => {},
                Some(p) => {
                    proof {
                        assert(units@.contains_hash(p) && units@.round_of(p) == vround - 1);
                        lemma_unit_at_index(units@, units@.index_of(p));
                        assert(units@.round_of(p) >= 0);
                        assert(resolves_below(units@, p, vround));
                    }
                    let ghost mid = *self;
                    match self.vote(p, units) {
                        Ok(true) => {
                            votes_for += 1;
                        },
                        Ok(false) => {
                            votes_against += 1;
                        },
                        Err(e) => {
                            proof {
                                lemma_pending_decider_antitone(
                                    units@,
                                    old(self).cand(),
                                    old(self).votes@,
                                    mid.votes@,
                                    p,
                                );
                                assert(parents@[k as int] matches Some(q) && q == p);
                                assert(parents_pending(
                                    units@,
                                    old(self).cand(),
                                    old(self).votes@,
                                    parents@,
                                    vround,
                                ));
                            }
                            return Err(e);
                        },
                    }
                },
            }
            k += 1;
        }
        proof {
            assert(parents@.take(n as int) =~= parents@);
        }
        Ok((votes_for, votes_against))
    }

    /// Derive a voter's vote from its parents' votes, first checking whether
    /// a supermajority settles the whole election.
    fn vote_from_parents(
        &mut self,
        parents: &Vec<Option<u64>>,
        relative_round: u64,
        units: &Units,
        Ghost(vround): Ghost<int>,
    ) -> (r: Result<bool, VoteError>)
        requires
            units@.wf(),
            old(self).wf(units@),
            relative_round >= 2,
            vround == old(self).round + relative_round,
            parents@.len() == units@.n_members,
            forall|k: int|
                0 <= k < parents@.len() ==> ((#[trigger] parents@[k]) matches Some(p)
                    ==> units@.contains_hash(p) && units@.round_of(p) == vround - 1),
            count_present(parents@) >= units@.threshold(),
        ensures
            Self::advances(*old(self), *final(self), units@),
            r matches Ok(b) ==> b == derived_vote(units@, old(self).cand(), parents@, vround)
                && decides_from(units@, old(self).cand(), parents@, vround) is None,
            r matches Err(e) ==> error_sound_or_here(
                e,
                units@,
                old(self).cand(),
                parents@,
                vround,
            ),
            decides_from(units@, old(self).cand(), parents@, vround) is Some ==> r is Err,
            r is Err ==> decides_from(units@, old(self).cand(), parents@, vround) is Some
                || parents_pending(units@, old(self).cand(), old(self).votes@, parents@, vround),
            !parents_pending(units@, old(self).cand(), old(self).votes@, parents@, vround)
                && decides_from(units@, old(self).cand(), parents@, vround) == Some(true) ==> r
                == Err::<bool, VoteError>(VoteError::ElectionDone(old(self).candidate_hash)),
            !parents_pending(units@, old(self).cand(), old(self).votes@, parents@, vround)
                && decides_from(units@, old(self).cand(), parents@, vround) == Some(false) ==> r
                == Err::<bool, VoteError>(VoteError::EliminateCandidate),
            !parents_pending(units@, old(self).cand(), old(self).votes@, parents@, vround)
                && decides_from(units@, old(self).cand(), parents@, vround) is None ==> r
                == Ok::<bool, VoteError>(derived_vote(units@, old(self).cand(), parents@, vround)),
            relative_round == 2 ==> r is Ok,
        decreases vround, 1int,
    {
        proof {
            assert(units@.n_members * 2 + 1 <= usize::MAX);
            if relative_round == 2 {
                lemma_direct_parents_never_pending(
                    units@,
                    old(self).cand(),
                    old(self).votes@,
                    parents@,
                    vround,
                );
            }
        }
        let threshold: usize = (parents.len() * 2) / 3 + 1;
        let counts = match self.parent_votes(parents, units, Ghost(vround)) {
            Ok(counts) => counts,
            Err(e) => {
                return Err(e);
            },
        };
        let votes_for = counts.0;
        let votes_against = counts.1;
        let ghost c = old(self).cand();
        proof {
            assert forall|k: int|
                0 <= k < parents@.len() implies ((#[trigger] parents@[k]) matches Some(p)
                ==> resolves_below(units@, p, vround)) by {
                match parents@[k] {
                    Some(p) => {
                        if 0 <= k < parents@.len() {
                            lemma_unit_at_index(units@, units@.index_of(p));
                        }
                    },
                    None => {},
                }
            }
            lemma_count_votes_split(units@, c, parents@, vround);
            assert(threshold as int == units@.threshold());
        }
        // The liveness precondition the surrounding protocol guarantees;
        // here it is proved from the store's soundness.
        assert(votes_for + votes_against >= threshold);
        let cv = common_vote(relative_round);
        proof {
            assert(vround - c.round == relative_round as int);
        }
        if relative_round >= 3 {
            if cv && votes_for >= threshold {
                proof {
                    assert(decides_from(units@, c, parents@, vround) == Some(true));
                }
                return Err(VoteError::ElectionDone(self.candidate_hash));
            }
            if !cv && votes_against >= threshold {
                proof {
                    assert(decides_from(units@, c, parents@, vround) == Some(false));
                }
                return Err(VoteError::EliminateCandidate);
            }
        }
        let vote = if votes_for == 0 {
            false
        } else if votes_against == 0 {
            true
        } else {
            cv
        };
        proof {
            assert(vote == derived_vote(units@, c, parents@, vround));
            assert(decides_from(units@, c, parents@, vround) is None);
        }
        Ok(vote)
    }

    /// Compute one voter's vote: defensively against the candidate for units
    /// not causally after it, by direct citation at relative round 1, and
    /// from the parents' votes above that.
    fn compute_vote(&mut self, voter: &Unit, units: &Units) -> (r: Result<bool, VoteError>)
        requires
            units@.wf(),
            old(self).wf(units@),
            units@.contains_hash(voter.hash),
            units@.unit_of(voter.hash) == voter@,
        ensures
            Self::advances(*old(self), *final(self), units@),
            r matches Ok(b) ==> b == true_vote(units@, old(self).cand(), voter@),
            r matches Err(e) ==> error_sound(e, units@, old(self).cand()),
            decides(units@, old(self).cand(), voter@) is Some ==> r is Err,
            voter@.round <= old(self).round ==> r == Ok::<bool, VoteError>(false) && *final(self)
                == *old(self),
            voter@.round == old(self).round + 1 ==> r == Ok::<bool, VoteError>(
                true_vote(units@, old(self).cand(), voter@),
            ) && *final(self) == *old(self),
            r is Err ==> voter@.round >= old(self).round + 2 && (decides(
                units@,
                old(self).cand(),
                voter@,
            ) is Some || parents_pending(
                units@,
                old(self).cand(),
                old(self).votes@,
                voter@.parents,
                voter@.round,
            )),
            decides(units@, old(self).cand(), voter@) is None && !parents_pending(
                units@,
                old(self).cand(),
                old(self).votes@,
                voter@.parents,
                voter@.round,
            ) ==> r == Ok::<bool, VoteError>(true_vote(units@, old(self).cand(), voter@)),
            decides(units@, old(self).cand(), voter@) == Some(true) && !parents_pending(
                units@,
                old(self).cand(),
                old(self).votes@,
                voter@.parents,
                voter@.round,
            ) ==> r == Err::<bool, VoteError>(
                VoteError::ElectionDone(old(self).candidate_hash),
            ),
            decides(units@, old(self).cand(), voter@) == Some(false) && !parents_pending(
                units@,
                old(self).cand(),
                old(self).votes@,
                voter@.parents,
                voter@.round,
            ) ==> r == Err::<bool, VoteError>(VoteError::EliminateCandidate),
        decreases units@.round_of(voter.hash), 2int,
    {
        proof {
            lemma_unit_at_index(units@, units@.index_of(voter.hash));
            assert(units@.unit_wf(voter@));
            lemma_unit_at_index(units@, units@.index_of(self.candidate_hash));
            assert(units@.unit_wf(units@.unit_of(self.candidate_hash)));
        }
        // Should never happen, but this preserves correctness even when asked
        // about a unit that is too old.
        if voter.round <= self.round {
            return Ok(false);
        }
        let relative_round = voter.round - self.round;
        // Direct descendants vote for, all other units of that round against.
        if relative_round == 1 {
            let cited = voter.parents[self.candidate_creator];
            let voted = match cited {
                Some(h) => h == self.candidate_hash,
                None => false,
            };
            proof {
                assert(voter@.parents[self.candidate_creator as int] == cited);
                assert(true_vote(units@, self.cand(), voter@) == voted);
            }
            return Ok(voted);
        }
        // Otherwise the vote is derived from the parents' votes.
        let ghost vround = voter@.round;
        let ghost c = old(self).cand();
        let r = self.vote_from_parents(&voter.parents, relative_round, units, Ghost(vround));
        proof {
            assert(true_vote(units@, c, voter@) == derived_vote(units@, c, voter@.parents, vround));
            assert(decides(units@, c, voter@) == decides_from(units@, c, voter@.parents, vround));
            if decides_from(units@, c, voter@.parents, vround) == Some(true) {
                let i = units@.index_of(voter.hash);
                assert(decides(units@, c, units@.units[i]) == Some(true));
            }
            if decides_from(units@, c, voter@.parents, vround) == Some(false) {
                let i = units@.index_of(voter.hash);
                assert(decides(units@, c, units@.units[i]) == Some(false));
            }
        }
        r
    }

    /// Look a voter's vote up in the cache, or compute and cache it.
    pub fn vote(&mut self, voter: u64, units: &Units) -> (r: Result<bool, VoteError>)
        requires
            units@.wf(),
            old(self).wf(units@),
            units@.contains_hash(voter),
        ensures
            Self::advances(*old(self), *final(self), units@),
            r matches Ok(b) ==> b == true_vote(units@, old(self).cand(), units@.unit_of(voter))
                && final(self).votes@.contains_key(voter),
            r matches Err(e) ==> error_sound(e, units@, old(self).cand()),
            !old(self).votes@.contains_key(voter) && decides(
                units@,
                old(self).cand(),
                units@.unit_of(voter),
            ) is Some ==> r is Err,
            old(self).votes@.contains_key(voter) ==> r == Ok::<bool, VoteError>(
                old(self).votes@[voter],
            ) && *final(self) == *old(self),
            r is Err ==> pending_decider(units@, old(self).cand(), old(self).votes@, voter),
            !old(self).votes@.contains_key(voter) && decides(
                units@,
                old(self).cand(),
                units@.unit_of(voter),
            ) == Some(true) && !parents_pending(
                units@,
                old(self).cand(),
                old(self).votes@,
                units@.unit_of(voter).parents,
                units@.unit_of(voter).round,
            ) ==> r == Err::<bool, VoteError>(
                VoteError::ElectionDone(old(self).candidate_hash),
            ),
            !old(self).votes@.contains_key(voter) && decides(
                units@,
                old(self).cand(),
                units@.unit_of(voter),
            ) == Some(false) && !parents_pending(
                units@,
                old(self).cand(),
                old(self).votes@,
                units@.unit_of(voter).parents,
                units@.unit_of(voter).round,
            ) ==> r == Err::<bool, VoteError>(VoteError::EliminateCandidate),
        decreases units@.round_of(voter), 3int,
    {
        // Check the vote cache.
        let cached = self.votes.get(&voter);
        match cached {
            Some(v) => {
                return Ok(*v);
            },
            None => {},
        }
        let voter_unit = match units.get(voter) {
            Some(w) => w,
            None => {
                return vstd::pervasive::unreached();
            },
        };
        let ghost c = old(self).cand();
        let r = match self.compute_vote(voter_unit, units) {
            Ok(b) => b,
            Err(e) => {
                proof {
                    assert(pending_decider(units@, c, old(self).votes@, voter));
                }
                return Err(e);
            },
        };
        self.votes.insert(voter, r);
        proof {
            assert forall|h: u64| #[trigger] self.votes@.contains_key(h) implies {
                &&& units@.contains_hash(h)
                &&& self.votes@[h] == true_vote(units@, c, units@.unit_of(h))
                &&& decides(units@, c, units@.unit_of(h)) is None
            } by {}
        }
        Ok(r)
    }

    /// Add a single voter and compute their vote. This might end up electing
    /// or eliminating the candidate.
    pub fn add_voter(self, voter: u64, units: &Units) -> (r: Result<CandidateElection, VoteError>)
        requires
            units@.wf(),
            self.wf(units@),
            units@.contains_hash(voter),
        ensures
            r matches Ok(e) ==> Self::advances(self, e, units@) && e.votes@.contains_key(voter)
                && e.votes@[voter] == true_vote(units@, self.cand(), units@.unit_of(voter)),
            r matches Err(e) ==> error_sound(e, units@, self.cand()),
            !self.votes@.contains_key(voter) && decides(
                units@,
                self.cand(),
                units@.unit_of(voter),
            ) is Some ==> r is Err,
            r is Err ==> pending_decider(units@, self.cand(), self.votes@, voter),
            !pending_decider(units@, self.cand(), self.votes@, voter) ==> r is Ok,
    {
        let mut election = self;
        match election.vote(voter, units) {
            Ok(_) => Ok(election),
            Err(e) => Err(e),
        }
    }

    /// Compute the votes of every unit the store holds above the candidate's
    /// round, in increasing round order. This might end up electing or
    /// eliminating the candidate: the outcome reported is the first decisive
    /// one in that replay order.
    pub fn compute_votes(self, units: &Units) -> (r: Result<CandidateElection, VoteError>)
        requires
            units@.wf(),
            self.wf(units@),
        ensures
            r matches Ok(e) ==> Self::advances(self, e, units@) && caught_up(e, units@),
            r matches Err(e) ==> error_sound(e, units@, self.cand()),
            r is Err ==> exists|h: u64|
                units@.contains_hash(h) && #[trigger] units@.round_of(h) > self.round
                    && pending_decider(units@, self.cand(), self.votes@, h),
            r matches Err(e) ==> first_replayed_decision(
                units@,
                self.cand(),
                self.round as int,
                e is ElectionDone,
            ),
    {
        let mut election = self;
        let highest = units.highest_round();
        let mut r: u64 = election.round;
        while r < highest
            invariant
                units@.wf(),
                Self::advances(self, election, units@),
                highest as int == units@.highest_round(),
                self.round <= r,
                forall|h: u64|
                    units@.contains_hash(h) && self.round < #[trigger] units@.round_of(h)
                        <= r as int ==> election.votes@.contains_key(h),
            decreases highest - r,
        {
            r = r + 1;
            let voters = units.in_round(r);
            let n = voters.len();
            let mut idx: usize = 0;
            while idx < n
                invariant
                    units@.wf(),
                    Self::advances(self, election, units@),
                    n == voters.len(),
                    idx <= n,
                    voters@ == units@.round_hashes(r as int),
                    self.round < r,
                    forall|h: u64|
                        units@.contains_hash(h) && self.round < #[trigger] units@.round_of(h)
                            < r as int ==> election.votes@.contains_key(h),
                    forall|j: int|
                        0 <= j < idx ==> election.votes@.contains_key(#[trigger] voters@[j]),
                decreases n - idx,
            {
                let v = voters[idx];
                proof {
                    assert(units@.round_hashes(r as int)[idx as int] == v);
                    assert(units@.round_hashes(r as int).contains(v));
                    lemma_round_hashes_member(units@.units, r as int, v);
                    let i = choose|i: int|
                        0 <= i < units@.units.len() && units@.units[i].hash == v && (
                        #[trigger] units@.units[i]).round == r as int;
                    lemma_unit_at_index(units@, i);
                    assert(units@.contains_hash(v) && units@.round_of(v) == r as int);
                }
                let ghost mid = election;
                match election.vote(v, units) {
                    Ok(_) => {},
                    Err(e) => {
                        proof {
                            lemma_pending_decider_antitone(
                                units@,
                                self.cand(),
                                self.votes@,
                                mid.votes@,
                                v,
                            );
                            let vu = units@.unit_of(v);
                            assert(units@.unit_wf(vu));
                            assert forall|k: int|
                                0 <= k < vu.parents.len() implies !((#[trigger] vu.parents[k]) matches Some(
                                p,
                            ) && resolves_below(units@, p, vu.round) && pending_decider(
                                units@,
                                self.cand(),
                                mid.votes@,
                                p,
                            )) by {
                                match vu.parents[k] {
                                    Some(p) => {
                                        assert(units@.contains_hash(p) && units@.round_of(p)
                                            == vu.round - 1);
                                        if units@.round_of(p) > self.round {
                                            assert(mid.votes@.contains_key(p));
                                        } else {
                                            assert(units@.unit_of(p).round - self.cand().round
                                                < 2);
                                        }
                                    },
                                    None => {},
                                }
                            }
                            assert(!parents_pending(
                                units@,
                                self.cand(),
                                mid.votes@,
                                vu.parents,
                                vu.round,
                            ));
                            assert(!mid.votes@.contains_key(v));
                            if e is ElectionDone {
                                assert(decides(units@, self.cand(), vu) == Some(true));
                            } else {
                                assert(decides(units@, self.cand(), vu) == Some(false));
                            }
                            assert forall|h: u64|
                                units@.contains_hash(h) && self.round < #[trigger] units@.round_of(
                                    h,
                                ) < r as int implies decides(
                                units@,
                                self.cand(),
                                units@.unit_of(h),
                            ) is None by {
                                assert(mid.votes@.contains_key(h));
                            }
                            assert forall|j: int|
                                0 <= j < idx implies decides(
                                units@,
                                self.cand(),
                                units@.unit_of(#[trigger] units@.round_hashes(r as int)[j]),
                            ) is None by {
                                assert(voters@[j] == units@.round_hashes(r as int)[j]);
                                assert(mid.votes@.contains_key(voters@[j]));
                            }
                            assert(units@.round_hashes(r as int)[idx as int] == v);
                            assert(first_replayed_decision(
                                units@,
                                self.cand(),
                                self.round as int,
                                e is ElectionDone,
                            ));
                        }
                        return Err(e);
                    },
                }
                idx += 1;
            }
            proof {
                assert forall|h: u64|
                    units@.contains_hash(h) && self.round < #[trigger] units@.round_of(h)
                        <= r as int implies election.votes@.contains_key(h) by {
                    if units@.round_of(h) == r as int {
                        let i = units@.index_of(h);
                        lemma_round_hashes_complete(units@.units, r as int, i);
                        let j = choose|j: int|
                            0 <= j < voters@.len() && voters@[j] == units@.units[i].hash;
                        assert(election.votes@.contains_key(voters@[j]));
                    }
                }
            }
        }
        proof {
            assert forall|h: u64|
                units@.contains_hash(h) && units@.round_of(h)
                    > self.round implies election.votes@.contains_key(h) by {
                let i = units@.index_of(h);
                crate::units::lemma_max_round_bound(units@.units, i);
                assert(units@.round_of(h) <= r as int);
            }
        }
        Ok(election)
    }
}

/// Memoization correctness: a cached entry is the voter's true vote, so
/// computing the same voter's vote again — by a direct call or through a
/// recursive dependency — returns exactly the cached value. That cached
/// entries are never removed or overwritten is part of every absorbing
/// operation's contract, through `CandidateElection::advances`.
pub proof fn lemma_cached_vote_is_true_vote(e: CandidateElection, u: UnitsV, h: u64)
    requires
        e.wf(u),
        e.votes@.contains_key(h),
    ensures
        e.votes@[h] == true_vote(u, e.cand(), u.unit_of(h)),
{
}

/// Vote computation is order-independent: two sound elections of the same
/// candidate over the same store agree on every voter both have absorbed,
/// however and in whatever order their caches were filled — each cached vote
/// is pinned to the voter's true vote, a function of the store alone.
pub proof fn lemma_votes_order_independent(
    e1: CandidateElection,
    e2: CandidateElection,
    u: UnitsV,
    h: u64,
)
    requires
        e1.wf(u),
        e2.wf(u),
        e1.cand() == e2.cand(),
        e1.votes@.contains_key(h),
        e2.votes@.contains_key(h),
    ensures
        e1.votes@[h] == e2.votes@[h],
{
}

/// In the replay order — rounds ascending from just above `start`, hashes in
/// store order within a round — some voter settles the election with the
/// given outcome, and no voter before it settles it either way.
pub open spec fn first_replayed_decision(u: UnitsV, c: CandidateV, start: int, val: bool) -> bool {
    exists|ri: int, i: int|
        {
            &&& start < ri
            &&& 0 <= i < u.round_hashes(ri).len()
            &&& decides(u, c, u.unit_of(#[trigger] u.round_hashes(ri)[i])) == Some(val)
            &&& forall|h: u64|
                u.contains_hash(h) && start < #[trigger] u.round_of(h) < ri ==> decides(
                    u,
                    c,
                    u.unit_of(h),
                ) is None
            &&& forall|j: int|
                0 <= j < i ==> decides(u, c, u.unit_of(#[trigger] u.round_hashes(ri)[j])) is None
        }
}

/// The election has absorbed everything the store knows: every stored unit
/// above the candidate's round has its vote cached.
pub open spec fn caught_up(e: CandidateElection, u: UnitsV) -> bool {
    forall|h: u64|
        u.contains_hash(h) && #[trigger] u.round_of(h) > e.round ==> e.votes@.contains_key(h)
}

/// A fully caught-up pending election is genuinely undecided: when every
/// stored unit above the candidate's round has its vote cached (as after
/// `compute_votes` returns the election), no stored voter settles the
/// election either way — more units are truly needed.
pub proof fn lemma_pending_is_undecided(e: CandidateElection, u: UnitsV)
    requires
        u.wf(),
        e.wf(u),
        caught_up(e, u),
    ensures
        !some_decider(u, e.cand(), true),
        !some_decider(u, e.cand(), false),
{
    assert forall|i: int|
        0 <= i < u.units.len() implies decides(u, e.cand(), #[trigger] u.units[i]) is None by {
        let x = u.units[i];
        lemma_unit_at_index(u, i);
        if x.round - e.cand().round >= 2 {
            assert(u.contains_hash(x.hash) && u.round_of(x.hash) == x.round);
            assert(e.votes@.contains_key(x.hash));
            assert(decides(u, e.cand(), u.unit_of(x.hash)) is None);
        }
    }
}

/// Counting votes does not depend on a unit the voter's parents cannot see:
/// extending a sound store leaves every count over slots resolving below
/// unchanged.
proof fn lemma_count_votes_stable(
    v: UnitsV,
    nu: UnitV,
    c: CandidateV,
    parents: Seq<Option<u64>>,
    vround: int,
    val: bool,
)
    requires
        v.wf(),
        v.can_add(nu),
        forall|k: int|
            0 <= k < parents.len() ==> ((#[trigger] parents[k]) matches Some(p)
                ==> v.contains_hash(p) && v.round_of(p) == vround - 1),
    ensures
        count_votes(UnitsV { n_members: v.n_members, units: v.units.push(nu) }, c, parents, vround, val)
            == count_votes(v, c, parents, vround, val),
    decreases vround, 0int, parents.len(),
{
    let w = UnitsV { n_members: v.n_members, units: v.units.push(nu) };
    if parents.len() > 0 {
        assert forall|k: int|
            0 <= k < parents.drop_last().len() implies ((#[trigger] parents.drop_last()[k]) matches Some(
            p,
        ) ==> v.contains_hash(p) && v.round_of(p) == vround - 1) by {
            assert(parents.drop_last()[k] == parents[k]);
        }
        lemma_count_votes_stable(v, nu, c, parents.drop_last(), vround, val);
        match parents.last() {
            None => {},
            Some(p) => {
                assert(parents[parents.len() - 1] matches Some(q) && q == p);
                assert(v.contains_hash(p) && v.round_of(p) == vround - 1);
                lemma_add_keeps_units_stable(v, nu);
                assert(w.unit_of(p) == v.unit_of(p));
                lemma_unit_at_index(v, v.index_of(p));
                lemma_true_vote_stable(v, nu, c, v.unit_of(p));
            },
        }
    }
}

/// A stored voter's vote, and whether it settles the election, do not change
/// when a new unit joins the store: they are functions of the voter's own
/// causal past.
pub proof fn lemma_true_vote_stable(v: UnitsV, nu: UnitV, c: CandidateV, x: UnitV)
    requires
        v.wf(),
        v.can_add(nu),
        v.contains_hash(x.hash),
        v.unit_of(x.hash) == x,
    ensures
        true_vote(UnitsV { n_members: v.n_members, units: v.units.push(nu) }, c, x) == true_vote(
            v,
            c,
            x,
        ),
        decides(UnitsV { n_members: v.n_members, units: v.units.push(nu) }, c, x) == decides(
            v,
            c,
            x,
        ),
    decreases x.round, 2int, 0int,
{
    let w = UnitsV { n_members: v.n_members, units: v.units.push(nu) };
    lemma_unit_at_index(v, v.index_of(x.hash));
    assert(v.unit_wf(x));
    if x.round > c.round + 1 || x.round - c.round >= 2 {
        lemma_count_votes_stable(v, nu, c, x.parents, x.round, true);
        lemma_count_votes_stable(v, nu, c, x.parents, x.round, false);
    }
}

/// Cache entries keep their meaning as the store grows: a sound candidate
/// election for a store is still sound, with the same candidate and the same
/// cached votes, after a new unit joins it.
pub proof fn lemma_election_survives_add(e: CandidateElection, v: UnitsV, nu: UnitV)
    requires
        v.wf(),
        v.can_add(nu),
        e.wf(v),
    ensures
        e.wf(UnitsV { n_members: v.n_members, units: v.units.push(nu) }),
{
    let w = UnitsV { n_members: v.n_members, units: v.units.push(nu) };
    lemma_add_keeps_units_stable(v, nu);
    assert forall|h: u64| #[trigger] e.votes@.contains_key(h) implies {
        &&& w.contains_hash(h)
        &&& e.votes@[h] == true_vote(w, e.cand(), w.unit_of(h))
        &&& decides(w, e.cand(), w.unit_of(h)) is None
    } by {
        assert(v.contains_hash(h));
        assert(w.unit_of(h) == v.unit_of(h));
        lemma_unit_at_index(v, v.index_of(h));
        lemma_true_vote_stable(v, nu, e.cand(), v.unit_of(h));
    }
}

/// Shorthand for what `lemma_add_preserves_wf` says about resolution: every
/// old hash resolves in the extended store to the same unit.
proof fn lemma_add_keeps_units_stable(v: UnitsV, nu: UnitV)
    requires
        v.wf(),
        v.can_add(nu),
    ensures
        forall|h: u64|
            #[trigger] v.contains_hash(h) ==> (UnitsV {
                n_members: v.n_members,
                units: v.units.push(nu),
            }).contains_hash(h) && (UnitsV {
                n_members: v.n_members,
                units: v.units.push(nu),
            }).unit_of(h) == v.unit_of(h),
{
    crate::units::lemma_add_preserves_wf(v, nu);
}

/// No stored voter can eliminate the candidate described by this hash. The
/// coordinator can never run out of candidates while one such remains: this
/// is the liveness assumption the surrounding protocol supplies.
pub open spec fn stubborn_hash(u: UnitsV, h: u64) -> bool {
    !some_decider(u, cand_of_hash(u, h), false)
}

/// A head is only reported when it is a stored unit of the elected round and
/// some stored voter genuinely reached the election supermajority for it.
pub open spec fn elected_sound(u: UnitsV, round: int, h: u64) -> bool {
    &&& u.contains_hash(h)
    &&& u.round_of(h) == round
    &&& some_decider(u, cand_of_hash(u, h), true)
}

/// Why this head and not a smaller candidate: either the head is the
/// candidate that was already under election, or that candidate and every
/// listed candidate tried before the head (those after position `k` of the
/// descending list) were genuinely eliminated by some stored voter.
pub open spec fn elimination_evidence(u: UnitsV, cur: u64, candidates: Seq<u64>, h: u64) -> bool {
    h == cur || (some_decider(u, cand_of_hash(u, cur), false) && exists|k: int|
        {
            &&& 0 <= k < candidates.len()
            &&& h == (#[trigger] candidates[k])
            &&& forall|j: int|
                k < j < candidates.len() ==> some_decider(
                    u,
                    cand_of_hash(u, #[trigger] candidates[j]),
                    false,
                )
        })
}

/// Election for a single round.
pub struct RoundElection {
    /// Remaining candidates for this round's head, in descending hash order;
    /// the next candidate is popped from the back.
    pub candidates: Vec<u64>,
    /// The election of the current candidate, which has already been taken
    /// off the list and is smaller than everything remaining on it.
    pub voting: CandidateElection,
}

/// An election result.
pub enum ElectionResult {
    /// The election is not done yet.
    Pending(RoundElection),
    /// The head has been elected.
    Elected(u64),
}

impl RoundElection {
    /// The coordinator is sound for a store: the current candidate's election
    /// is, every remaining candidate is a stored unit of the same round, the
    /// list is strictly descending by hash, and the current candidate's hash
    /// is below everything on it.
    pub open spec fn wf(self, u: UnitsV) -> bool {
        &&& self.voting.wf(u)
        &&& forall|i: int|
            0 <= i < self.candidates@.len() ==> u.contains_hash(#[trigger] self.candidates@[i])
                && u.round_of(self.candidates@[i]) == self.voting.round as int
        &&& forall|i: int, j: int|
            0 <= i < j < self.candidates@.len() ==> self.candidates@[i] > self.candidates@[j]
        &&& forall|i: int|
            0 <= i < self.candidates@.len() ==> self.voting.candidate_hash < (
            #[trigger] self.candidates@[i])
    }

    /// The current candidate or one still on the list cannot be eliminated.
    pub open spec fn has_stubborn(self, u: UnitsV) -> bool {
        stubborn_hash(u, self.voting.candidate_hash) || exists|i: int|
            0 <= i < self.candidates@.len() && stubborn_hash(u, #[trigger] self.candidates@[i])
    }

    /// How one step of the coordinator relates to where it started: a pending
    /// election keeps the round, consumed the candidate list in order (the
    /// remaining list is a prefix, and the current candidate is either the
    /// old one or the next one the list supplied), skipped a candidate only
    /// when some stored voter genuinely eliminated it, and stays sound; an
    /// elected head is sound for the round.
    pub open spec fn advances_to(self, r: ElectionResult, u: UnitsV) -> bool {
        match r {
            ElectionResult::Pending(e) => {
                &&& e.wf(u)
                &&& e.has_stubborn(u)
                &&& e.voting.round == self.voting.round
                &&& exists|k: int|
                    {
                        &&& 0 <= k <= self.candidates@.len()
                        &&& e.candidates@ == #[trigger] self.candidates@.take(k)
                        &&& (k == self.candidates@.len() ==> e.voting.candidate_hash
                            == self.voting.candidate_hash)
                        &&& (k < self.candidates@.len() ==> e.voting.candidate_hash
                            == self.candidates@[k])
                        &&& (k < self.candidates@.len() ==> some_decider(
                            u,
                            cand_of_hash(u, self.voting.candidate_hash),
                            false,
                        ))
                        &&& forall|j: int|
                            k < j < self.candidates@.len() ==> some_decider(
                                u,
                                cand_of_hash(u, #[trigger] self.candidates@[j]),
                                false,
                            )
                    }
            },
            ElectionResult::Elected(h) => elected_sound(u, self.voting.round as int, h),
        }
    }

    /// Candidate tie-break: candidates are tried in ascending hash order.
    /// The next candidate the coordinator can promote — the back of the
    /// descending list — is exactly the smallest hash still on the list, and
    /// the current candidate sits below even that.
    pub proof fn lemma_next_candidate_is_min(self, u: UnitsV)
        requires
            self.wf(u),
            self.candidates@.len() > 0,
        ensures
            forall|i: int|
                0 <= i < self.candidates@.len() ==> self.candidates@.last() <= (
                #[trigger] self.candidates@[i]),
            self.voting.candidate_hash < self.candidates@.last(),
    {
        assert forall|i: int|
            0 <= i < self.candidates@.len() implies self.candidates@.last() <= (
        #[trigger] self.candidates@[i]) by {
            if i < self.candidates@.len() - 1 {
                assert(self.candidates@[i] > self.candidates@[self.candidates@.len() - 1]);
            }
        }
        assert(self.voting.candidate_hash < self.candidates@[self.candidates@.len() - 1]);
    }

    /// Settle what a candidate election reported: keep waiting on `Ok`, pop
    /// the next candidate and replay all known votes on elimination, report
    /// the head when done.
    fn handle_candidate_election_result(
        result: Result<CandidateElection, VoteError>,
        candidates: Vec<u64>,
        units: &Units,
        Ghost(round): Ghost<int>,
        Ghost(cur): Ghost<u64>,
    ) -> (r: ElectionResult)
        requires
            units@.wf(),
            units@.contains_hash(cur),
            result matches Ok(e) ==> e.candidate_hash == cur,
            result matches Err(e) ==> ((e matches VoteError::ElectionDone(h) ==> h == cur) && (
            e is EliminateCandidate ==> some_decider(units@, cand_of_hash(units@, cur), false))),
            forall|i: int|
                0 <= i < candidates@.len() ==> units@.contains_hash(#[trigger] candidates@[i])
                    && units@.round_of(candidates@[i]) == round,
            forall|i: int, j: int|
                0 <= i < j < candidates@.len() ==> candidates@[i] > candidates@[j],
            result matches Ok(e) ==> e.wf(units@) && e.round as int == round && (forall|
                i: int,
            |
                0 <= i < candidates@.len() ==> e.candidate_hash < (
                #[trigger] candidates@[i])) && (stubborn_hash(units@, e.candidate_hash)
                || exists|i: int|
                0 <= i < candidates@.len() && stubborn_hash(units@, #[trigger] candidates@[i])),
            result matches Err(e) ==> ((e matches VoteError::ElectionDone(h) ==> elected_sound(
                units@,
                round,
                h,
            )) && (e is EliminateCandidate ==> exists|i: int|
                0 <= i < candidates@.len() && stubborn_hash(units@, #[trigger] candidates@[i]))),
        ensures
            match r {
                ElectionResult::Pending(e) => {
                    &&& e.wf(units@)
                    &&& e.has_stubborn(units@)
                    &&& e.voting.round as int == round
                    &&& exists|k: int|
                        {
                            &&& 0 <= k <= candidates@.len()
                            &&& e.candidates@ == #[trigger] candidates@.take(k)
                            &&& (k == candidates@.len() ==> (result matches Ok(e0)
                                && e.voting.candidate_hash == e0.candidate_hash))
                            &&& (k < candidates@.len() ==> e.voting.candidate_hash
                                == candidates@[k])
                            &&& (k < candidates@.len() ==> some_decider(
                                units@,
                                cand_of_hash(units@, cur),
                                false,
                            ))
                            &&& forall|j: int|
                                k < j < candidates@.len() ==> some_decider(
                                    units@,
                                    cand_of_hash(units@, #[trigger] candidates@[j]),
                                    false,
                                )
                        }
                },
                ElectionResult::Elected(h) => elected_sound(units@, round, h),
            },
            result matches Err(e) ==> (e matches VoteError::ElectionDone(h) ==> r
                == ElectionResult::Elected(h)),
            r matches ElectionResult::Pending(e) ==> (result is Err ==> caught_up(
                e.voting,
                units@,
            )),
            r matches ElectionResult::Pending(e) ==> ((result matches Ok(e0) && caught_up(
                e0,
                units@,
            )) ==> caught_up(e.voting, units@)),
            result matches Ok(e0) ==> (r matches ElectionResult::Pending(e) ==> e.candidates@
                == candidates@ && e.voting == e0),
            r matches ElectionResult::Elected(h) ==> elimination_evidence(
                units@,
                cur,
                candidates@,
                h,
            ),
        decreases candidates@.len(), 0int,
    {
        match result {
            // Wait for more voters.
            Ok(voting) => {
                let election = RoundElection { candidates, voting };
                proof {
                    let k = election.candidates@.len() as int;
                    assert(election.candidates@ == candidates@.take(k));
                }
                ElectionResult::Pending(election)
            },
            // Pick the next candidate and keep trying.
            Err(VoteError::EliminateCandidate) => {
                let mut candidates = candidates;
                let ghost all = candidates@;
                proof {
                    assert(all.len() > 0);
                }
                let next = match candidates.pop() {
                    Some(h) => h,
                    None => {
                        return vstd::pervasive::unreached();
                    },
                };
                let candidate = match units.get(next) {
                    Some(c) => c,
                    None => {
                        return vstd::pervasive::unreached();
                    },
                };
                let voting = CandidateElection::new(candidate);
                let election = RoundElection { candidates, voting };
                proof {
                    assert(election.candidates@ == all.take(all.len() - 1));
                    assert(election.voting.wf(units@)) by {
                        assert(units@.unit_of(next) == candidate@);
                    }
                    assert(election.wf(units@));
                    assert(election.has_stubborn(units@)) by {
                        let i = choose|i: int|
                            0 <= i < all.len() && stubborn_hash(units@, #[trigger] all[i]);
                        if i == all.len() - 1 {
                            assert(stubborn_hash(units@, election.voting.candidate_hash));
                        } else {
                            assert(stubborn_hash(units@, election.candidates@[i]));
                        }
                    }
                }
                let r = election.compute_votes(units);
                proof {
                    match &r {
                        ElectionResult::Pending(e) => {
                            let rem = election.candidates@;
                            let k = choose|k: int|
                                {
                                    &&& 0 <= k <= rem.len()
                                    &&& e.candidates@ == #[trigger] rem.take(k)
                                    &&& (k == rem.len() ==> e.voting.candidate_hash
                                        == election.voting.candidate_hash)
                                    &&& (k < rem.len() ==> e.voting.candidate_hash == rem[k])
                                    &&& (k < rem.len() ==> some_decider(
                                        units@,
                                        cand_of_hash(units@, election.voting.candidate_hash),
                                        false,
                                    ))
                                    &&& forall|j: int|
                                        k < j < rem.len() ==> some_decider(
                                            units@,
                                            cand_of_hash(units@, #[trigger] rem[j]),
                                            false,
                                        )
                                };
                            assert(rem.take(k) =~= all.take(k));
                            assert(e.candidates@ == all.take(k));
                            if k == rem.len() {
                                assert(e.voting.candidate_hash == all[k]);
                            }
                            assert forall|j: int|
                                k < j < all.len() implies some_decider(
                                units@,
                                cand_of_hash(units@, #[trigger] all[j]),
                                false,
                            ) by {
                                if j < all.len() - 1 {
                                    assert(rem[j] == all[j]);
                                } else {
                                    assert(all[j] == next);
                                    assert(k < rem.len());
                                    assert(some_decider(
                                        units@,
                                        cand_of_hash(units@, next),
                                        false,
                                    ));
                                }
                            }
                        },
                        ElectionResult::Elected(h) => {
                            let hh = *h;
                            let rem = election.candidates@;
                            if hh == next {
                                let k = all.len() - 1;
                                assert(hh == all[k]);
                                assert(elimination_evidence(units@, cur, all, hh));
                            } else {
                                let k = choose|k: int|
                                    {
                                        &&& 0 <= k < rem.len()
                                        &&& hh == (#[trigger] rem[k])
                                        &&& forall|j: int|
                                            k < j < rem.len() ==> some_decider(
                                                units@,
                                                cand_of_hash(units@, #[trigger] rem[j]),
                                                false,
                                            )
                                    };
                                assert(hh == all[k]);
                                assert forall|j: int|
                                    k < j < all.len() implies some_decider(
                                    units@,
                                    cand_of_hash(units@, #[trigger] all[j]),
                                    false,
                                ) by {
                                    if j < all.len() - 1 {
                                        assert(rem[j] == all[j]);
                                    } else {
                                        assert(all[j] == next);
                                    }
                                }
                                assert(elimination_evidence(units@, cur, all, hh));
                            }
                        },
                    }
                }
                r
            },
            // The head was picked.
            Err(VoteError::ElectionDone(head)) => ElectionResult::Elected(head),
        }
    }

    /// Feed every unit the store currently holds into the current candidate's
    /// election, promoting further candidates as eliminations cascade.
    fn compute_votes(self, units: &Units) -> (r: ElectionResult)
        requires
            units@.wf(),
            self.wf(units@),
            self.has_stubborn(units@),
        ensures
            self.advances_to(r, units@),
            r matches ElectionResult::Pending(e) ==> caught_up(e.voting, units@),
            r matches ElectionResult::Elected(h) ==> elimination_evidence(
                units@,
                self.voting.candidate_hash,
                self.candidates@,
                h,
            ),
        decreases self.candidates@.len(), 1int,
    {
        let RoundElection { candidates, voting } = self;
        let ghost round = voting.round as int;
        let ghost cur = voting.candidate_hash;
        let result = voting.compute_votes(units);
        proof {
            Self::lemma_result_sound(result, self.voting, units@, round);
        }
        Self::handle_candidate_election_result(result, candidates, units, Ghost(round), Ghost(cur))
    }

    /// What a candidate election's report means for the coordinator's
    /// bookkeeping: a finished election names a sound head, and an
    /// elimination means the current candidate was not stubborn.
    proof fn lemma_result_sound(
        result: Result<CandidateElection, VoteError>,
        voting: CandidateElection,
        u: UnitsV,
        round: int,
    )
        requires
            u.wf(),
            voting.wf(u),
            voting.round as int == round,
            result matches Ok(e) ==> CandidateElection::advances(voting, e, u),
            result matches Err(e) ==> error_sound(e, u, voting.cand()),
        ensures
            result matches Err(e) ==> ((e matches VoteError::ElectionDone(h) ==> elected_sound(
                u,
                round,
                h,
            )) && (e is EliminateCandidate ==> !stubborn_hash(u, voting.candidate_hash))),
    {
        assert(cand_of_hash(u, voting.candidate_hash) == voting.cand());
    }

    /// Create a new round election. It might immediately be decided, so this
    /// might return an election result rather than a pending election.
    /// Returns an error when it is too early to finalize the candidate list,
    /// i.e. when the store is not at least 3 rounds ahead of the election
    /// round.
    pub fn for_round(round: u64, units: &Units) -> (r: Result<ElectionResult, ()>)
        requires
            units@.wf(),
            units@.highest_round() >= round + 3 ==> exists|i: int|
                0 <= i < units@.round_hashes(round as int).len() && stubborn_hash(
                    units@,
                    #[trigger] units@.round_hashes(round as int)[i],
                ),
        ensures
            r is Err <==> units@.highest_round() < round + 3,
            r matches Ok(res) ==> match res {
                ElectionResult::Pending(e) => e.wf(units@) && e.has_stubborn(units@)
                    && e.voting.round == round && caught_up(e.voting, units@) && (forall|g: u64|
                    #[trigger] units@.round_hashes(round as int).contains(g) ==> g
                        == e.voting.candidate_hash || e.candidates@.contains(g) || some_decider(
                        units@,
                        cand_of_hash(units@, g),
                        false,
                    )) && (forall|g: u64|
                    #[trigger] units@.round_hashes(round as int).contains(g) && g
                        < e.voting.candidate_hash ==> some_decider(
                        units@,
                        cand_of_hash(units@, g),
                        false,
                    )),
                ElectionResult::Elected(h) => elected_sound(units@, round as int, h) && (forall|
                    g: u64,
                |
                    #[trigger] units@.round_hashes(round as int).contains(g) && g < h
                        ==> some_decider(units@, cand_of_hash(units@, g), false)),
            },
    {
        // Without a unit of round + 3 the winning candidate might be unknown,
        // so the election cannot start.
        let hr = units.highest_round();
        if hr < round {
            return Err(());
        }
        if hr - round < 3 {
            return Err(());
        }
        let mut candidates = units.in_round(round);
        proof {
            assert(units@.units.len() > 0) by {
                if units@.units.len() == 0 {
                    assert(units@.highest_round() == 0);
                }
            }
            assert forall|i: int|
                0 <= i < units@.units.len() implies (#[trigger] units@.units[i]).round >= 0 by {
                assert(units@.unit_wf(units@.units[i]));
            }
            lemma_max_round_achieved(units@.units);
            lemma_round_descend(units@, units@.highest_round(), round as int);
            let i = choose|i: int|
                0 <= i < units@.units.len() && (#[trigger] units@.units[i]).round == round as int;
            lemma_round_hashes_complete(units@.units, round as int, i);
            assert(candidates@.len() > 0) by {
                assert(candidates@.contains(units@.units[i].hash));
            }
            lemma_round_hashes_distinct(units@.units, round as int);
        }
        let ghost unsorted = candidates@;
        sort_desc(&mut candidates);
        proof {
            assert forall|i: int|
                0 <= i < candidates@.len() implies units@.contains_hash(#[trigger] candidates@[i])
                && units@.round_of(candidates@[i]) == round as int by {
                assert(unsorted.contains(candidates@[i]));
                lemma_round_hashes_member(units@.units, round as int, candidates@[i]);
                let j = choose|j: int|
                    0 <= j < units@.units.len() && units@.units[j].hash == candidates@[i] && (
                    #[trigger] units@.units[j]).round == round as int;
                lemma_unit_at_index(units@, j);
            }
        }
        let ghost sorted = candidates@;
        let candidate_hash = match candidates.pop() {
            Some(h) => h,
            None => {
                return vstd::pervasive::unreached();
            },
        };
        let candidate = match units.get(candidate_hash) {
            Some(c) => c,
            None => {
                return vstd::pervasive::unreached();
            },
        };
        let voting = CandidateElection::new(candidate);
        let election = RoundElection { candidates, voting };
        proof {
            assert(candidates@ == sorted.drop_last());
            assert(candidate_hash == sorted.last());
            assert(election.voting.wf(units@)) by {
                assert(units@.unit_of(candidate_hash) == candidate@);
            }
            assert(election.wf(units@)) by {
                assert forall|i: int|
                    0 <= i < election.candidates@.len() implies election.voting.candidate_hash < (
                #[trigger] election.candidates@[i]) by {
                    assert(sorted[i] == election.candidates@[i]);
                    assert(sorted[sorted.len() - 1] == candidate_hash);
                }
            }
            assert(election.has_stubborn(units@)) by {
                let i = choose|i: int|
                    0 <= i < units@.round_hashes(round as int).len() && stubborn_hash(
                        units@,
                        #[trigger] units@.round_hashes(round as int)[i],
                    );
                let w = units@.round_hashes(round as int)[i];
                assert(unsorted.contains(w));
                assert(sorted.contains(w));
                let j = choose|j: int| 0 <= j < sorted.len() && sorted[j] == w;
                if j == sorted.len() - 1 {
                    assert(stubborn_hash(units@, election.voting.candidate_hash));
                } else {
                    assert(election.candidates@[j] == w);
                    assert(stubborn_hash(units@, election.candidates@[j]));
                }
            }
        }
        // All currently known units might already pick a head.
        let result = election.compute_votes(units);
        proof {
            match &result {
                ElectionResult::Pending(e) => {
                    let rem = election.candidates@;
                    let k = choose|k: int|
                        {
                            &&& 0 <= k <= rem.len()
                            &&& e.candidates@ == #[trigger] rem.take(k)
                            &&& (k == rem.len() ==> e.voting.candidate_hash
                                == election.voting.candidate_hash)
                            &&& (k < rem.len() ==> e.voting.candidate_hash == rem[k])
                            &&& (k < rem.len() ==> some_decider(
                                units@,
                                cand_of_hash(units@, election.voting.candidate_hash),
                                false,
                            ))
                            &&& forall|j: int|
                                k < j < rem.len() ==> some_decider(
                                    units@,
                                    cand_of_hash(units@, #[trigger] rem[j]),
                                    false,
                                )
                        };
                    assert forall|g: u64|
                        #[trigger] units@.round_hashes(round as int).contains(g) implies g
                        == e.voting.candidate_hash || e.candidates@.contains(g) || some_decider(
                        units@,
                        cand_of_hash(units@, g),
                        false,
                    ) by {
                        assert(unsorted.contains(g));
                        assert(sorted.contains(g));
                        let j = choose|j: int| 0 <= j < sorted.len() && sorted[j] == g;
                        if j == sorted.len() - 1 {
                            if k == rem.len() {
                                assert(g == e.voting.candidate_hash);
                            } else {
                                assert(some_decider(
                                    units@,
                                    cand_of_hash(units@, election.voting.candidate_hash),
                                    false,
                                ));
                            }
                        } else {
                            assert(rem[j] == sorted[j]);
                            if j < k {
                                assert(e.candidates@[j] == rem[j]);
                                assert(e.candidates@.contains(g));
                            } else if j == k {
                                assert(g == e.voting.candidate_hash);
                            } else {
                                assert(some_decider(units@, cand_of_hash(units@, rem[j]), false));
                            }
                        }
                    }
                    assert forall|g: u64|
                        #[trigger] units@.round_hashes(round as int).contains(g) && g
                            < e.voting.candidate_hash implies some_decider(
                        units@,
                        cand_of_hash(units@, g),
                        false,
                    ) by {
                        if e.candidates@.contains(g) {
                            let idx = choose|idx: int|
                                0 <= idx < e.candidates@.len() && e.candidates@[idx] == g;
                            assert(e.voting.candidate_hash < e.candidates@[idx]);
                            assert(false);
                        }
                    }
                },
                ElectionResult::Elected(h) => {
                    let hh = *h;
                    assert forall|g: u64|
                        #[trigger] units@.round_hashes(round as int).contains(g) && g
                            < hh implies some_decider(units@, cand_of_hash(units@, g), false) by {
                        assert(unsorted.contains(g));
                        assert(sorted.contains(g));
                        let j = choose|j: int| 0 <= j < sorted.len() && sorted[j] == g;
                        if hh == election.voting.candidate_hash {
                            // the elected head is the smallest round hash, so
                            // nothing lies below it
                            if j < sorted.len() - 1 {
                                assert(sorted[j] > sorted[sorted.len() - 1]);
                            }
                            assert(false);
                        } else {
                            let rem = election.candidates@;
                            let k = choose|k: int|
                                {
                                    &&& 0 <= k < rem.len()
                                    &&& hh == (#[trigger] rem[k])
                                    &&& forall|j2: int|
                                        k < j2 < rem.len() ==> some_decider(
                                            units@,
                                            cand_of_hash(units@, #[trigger] rem[j2]),
                                            false,
                                        )
                                };
                            if j == sorted.len() - 1 {
                                assert(g == election.voting.candidate_hash);
                            } else {
                                assert(rem[j] == sorted[j]);
                                if j < k {
                                    assert(rem[j] > rem[k]);
                                    assert(false);
                                }
                                if j == k {
                                    assert(false);
                                }
                                assert(some_decider(
                                    units@,
                                    cand_of_hash(units@, rem[j]),
                                    false,
                                ));
                            }
                        }
                    }
                },
            }
        }
        Ok(result)
    }

    /// Add a single voter to the election.
    pub fn add_voter(self, voter: u64, units: &Units) -> (r: ElectionResult)
        requires
            units@.wf(),
            self.wf(units@),
            self.has_stubborn(units@),
            units@.contains_hash(voter),
        ensures
            self.advances_to(r, units@),
            r matches ElectionResult::Pending(e) ==> (e.voting.candidate_hash
                == self.voting.candidate_hash ==> e.voting.votes@.contains_key(voter)
                && e.voting.votes@[voter] == true_vote(
                units@,
                self.voting.cand(),
                units@.unit_of(voter),
            )),
            r matches ElectionResult::Pending(e) ==> (e.candidates@.len()
                < self.candidates@.len() ==> caught_up(e.voting, units@)),
            r matches ElectionResult::Elected(h) ==> elimination_evidence(
                units@,
                self.voting.candidate_hash,
                self.candidates@,
                h,
            ),
    {
        let RoundElection { candidates, voting } = self;
        let ghost round = voting.round as int;
        let ghost cur = voting.candidate_hash;
        let result = voting.add_voter(voter, units);
        proof {
            Self::lemma_result_sound(result, self.voting, units@, round);
        }
        Self::handle_candidate_election_result(result, candidates, units, Ghost(round), Ghost(cur))
    }
}

/// Reorder hashes into strictly descending order. The input must hold no
/// duplicates; the output holds exactly the input's hashes.
fn sort_desc(v: &mut Vec<u64>)
    requires
        forall|i: int, j: int| 0 <= i < j < old(v)@.len() ==> old(v)@[i] != old(v)@[j],
    ensures
        final(v)@.len() == old(v)@.len(),
        forall|i: int, j: int| 0 <= i < j < final(v)@.len() ==> final(v)@[i] > final(v)@[j],
        forall|x: u64| final(v)@.contains(x) <==> old(v)@.contains(x),
{
    let n = v.len();
    let mut sorted: Vec<u64> = Vec::new();
    let mut i: usize = 0;
    while i < n
        invariant
            n == v@.len(),
            v@ == old(v)@,
            i <= n,
            sorted@.len() == i,
            forall|i2: int, j2: int| 0 <= i2 < j2 < v@.len() ==> v@[i2] != v@[j2],
            forall|i2: int, j2: int| 0 <= i2 < j2 < sorted@.len() ==> sorted@[i2] > sorted@[j2],
            forall|x: u64| sorted@.contains(x) <==> v@.take(i as int).contains(x),
        decreases n - i,
    {
        let x = v[i];
        proof {
            assert(!sorted@.contains(x)) by {
                if v@.take(i as int).contains(x) {
                    let j = choose|j: int| 0 <= j < i && v@.take(i as int)[j] == x;
                    assert(v@[j] == v@[i as int]);
                }
            }
        }
        let m = sorted.len();
        let mut pos: usize = 0;
        while pos < m && sorted[pos] > x
            invariant
                m == sorted@.len(),
                pos <= m,
                !sorted@.contains(x),
                forall|i2: int, j2: int|
                    0 <= i2 < j2 < sorted@.len() ==> sorted@[i2] > sorted@[j2],
                forall|j2: int| 0 <= j2 < pos ==> sorted@[j2] > x,
            decreases m - pos,
        {
            pos += 1;
        }
        proof {
            if pos < m {
                assert(sorted@[pos as int] != x) by {
                    assert(sorted@.contains(sorted@[pos as int]));
                }
            }
        }
        let ghost before = sorted@;
        sorted.insert(pos, x);
        proof {
            before.insert_ensures(pos as int, x);
            assert forall|i2: int, j2: int|
                0 <= i2 < j2 < sorted@.len() implies sorted@[i2] > sorted@[j2] by {
                if j2 < pos {
                    assert(sorted@[i2] == before[i2] && sorted@[j2] == before[j2]);
                } else if i2 < pos && j2 == pos {
                    assert(sorted@[i2] == before[i2] && before[i2] > x);
                } else if i2 < pos {
                    assert(sorted@[i2] == before[i2] && sorted@[j2] == before[j2 - 1]);
                    assert(before[i2] > before[j2 - 1]) by {
                        if i2 < j2 - 1 {
                        } else {
                            assert(i2 == j2 - 1);
                        }
                    }
                } else if i2 == pos {
                    assert(sorted@[i2] == x && sorted@[j2] == before[j2 - 1]);
                    assert(pos < before.len());
                    assert(before[pos as int] < x);
                    if (pos as int) < j2 - 1 {
                        assert(before[pos as int] > before[j2 - 1]);
                    }
                } else {
                    assert(sorted@[i2] == before[i2 - 1] && sorted@[j2] == before[j2 - 1]);
                }
            }
            assert forall|y: u64| sorted@.contains(y) <==> v@.take(i + 1).contains(y) by {
                assert(v@.take(i + 1).drop_last() =~= v@.take(i as int));
                assert(v@.take(i + 1).last() == v@[i as int]);
                if sorted@.contains(y) {
                    let j = choose|j: int| 0 <= j < sorted@.len() && sorted@[j] == y;
                    if j < pos {
                        assert(before[j] == y);
                        assert(before.contains(y));
                        assert(v@.take(i as int).contains(y));
                        let j2 = choose|j2: int|
                            0 <= j2 < v@.take(i as int).len() && v@.take(i as int)[j2] == y;
                        assert(v@.take(i + 1)[j2] == y);
                    } else if j == pos {
                        assert(v@.take(i + 1)[i as int] == x);
                    } else {
                        assert(before[j - 1] == y);
                        assert(before.contains(y));
                        assert(v@.take(i as int).contains(y));
                        let j2 = choose|j2: int|
                            0 <= j2 < v@.take(i as int).len() && v@.take(i as int)[j2] == y;
                        assert(v@.take(i + 1)[j2] == y);
                    }
                }
                if v@.take(i + 1).contains(y) {
                    let j2 = choose|j2: int|
                        0 <= j2 < v@.take(i + 1).len() && (#[trigger] v@.take(i + 1)[j2]) == y;
                    if j2 == i as int {
                        assert(sorted@[pos as int] == y);
                    } else {
                        assert(v@.take(i as int)[j2] == y);
                        assert(v@.take(i as int).contains(y));
                        assert(before.contains(y));
                        let j = choose|j: int| 0 <= j < before.len() && before[j] == y;
                        if j < pos {
                            assert(sorted@[j] == y);
                        } else {
                            assert(sorted@[j + 1] == y);
                        }
                    }
                }
            }
        }
        i += 1;
    }
    proof {
        assert(v@.take(n as int) =~= v@);
    }
    *v = sorted;
}

} // verus!
