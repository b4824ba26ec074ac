use election::election::{CandidateElection, ElectionResult, RoundElection, VoteError};
use election::units::{Unit, Units};

fn unit_hash(creator: usize, round: u64) -> u64 {
    ((creator as u64) << 32) | round
}

fn construct_unit(creator: usize, round: u64, parents: Vec<(usize, u64)>, n_members: usize) -> Unit {
    let mut slots: Vec<Option<u64>> = Vec::new();
    for _ in 0..n_members {
        slots.push(None);
    }
    for (parent_creator, parent_round) in parents {
        slots[parent_creator] = Some(unit_hash(parent_creator, parent_round));
    }
    Unit { round, creator, hash: unit_hash(creator, round), parents: slots }
}

fn construct_unit_all_parents(creator: usize, round: u64, n_members: usize) -> Unit {
    let mut parents: Vec<(usize, u64)> = Vec::new();
    if round > 0 {
        for parent_creator in 0..n_members {
            parents.push((parent_creator, round - 1));
        }
    }
    construct_unit(creator, round, parents, n_members)
}

fn populate_all(units: &mut Units, n_members: usize, max_round: u64) {
    for round in 0..=max_round {
        for creator in 0..n_members {
            assert!(units.add_unit(construct_unit_all_parents(creator, round, n_members)));
        }
    }
}

#[test]
fn refuses_to_elect_without_units() {
    let units = Units::new(4);
    assert!(RoundElection::for_round(0, &units).is_err());
}

#[test]
fn refuses_to_elect_with_insufficient_units() {
    let mut units = Units::new(4);
    populate_all(&mut units, 4, 2);
    assert!(RoundElection::for_round(0, &units).is_err());
}

#[test]
fn easy_election() {
    let mut units = Units::new(4);
    let n_members = 4;
    populate_all(&mut units, n_members, 3);
    let election = RoundElection::for_round(0, &units).expect("we have enough rounds");
    let election = match election {
        ElectionResult::Pending(election) => election,
        ElectionResult::Elected(_) => panic!("elected head without units of round + 4"),
    };
    let last_voter = construct_unit_all_parents(0, 4, n_members);
    let last_hash = last_voter.hash;
    assert!(units.add_unit(last_voter));
    match election.add_voter(last_hash, &units) {
        ElectionResult::Pending(_) => panic!("failed to elect obvious head"),
        ElectionResult::Elected(head) => {
            assert_eq!(units.get(head).expect("we have the head").round, 0);
        }
    }
}

#[test]
fn immediate_election() {
    let mut units = Units::new(4);
    populate_all(&mut units, 4, 4);
    let election = RoundElection::for_round(0, &units).expect("we have enough rounds");
    match election {
        ElectionResult::Pending(_) => panic!("should have elected"),
        ElectionResult::Elected(head) => {
            assert_eq!(units.get(head).expect("we have the head").round, 0);
        }
    }
}

#[test]
fn eliminates_unpopular() {
    let mut units = Units::new(4);
    let n_members = 4;
    for creator in 0..n_members {
        assert!(units.add_unit(construct_unit_all_parents(creator, 0, n_members)));
    }
    let mut candidate_hashes = units.in_round(0);
    candidate_hashes.sort();
    let skipped_parent = units
        .get(candidate_hashes[0])
        .expect("we just got it")
        .creator;
    let active_nodes: Vec<usize> = (0..n_members)
        .filter(|parent_id| parent_id != &skipped_parent)
        .collect();
    for round in 1..=4 {
        for creator in &active_nodes {
            assert!(units.add_unit(construct_unit(
                *creator,
                round,
                active_nodes
                    .iter()
                    .map(|parent_id| (*parent_id, round - 1))
                    .collect(),
                n_members,
            )));
        }
    }
    let election = RoundElection::for_round(0, &units).expect("we have enough rounds");
    match election {
        ElectionResult::Pending(_) => panic!("should have elected"),
        ElectionResult::Elected(head) => {
            // This should be the second unit in order, as the first was not popular.
            assert_eq!(head, candidate_hashes[1]);
        }
    }
}

#[test]
fn common_vote_schedule() {
    assert!(election::election::common_vote(2));
    assert!(!election::election::common_vote(3));
    assert!(election::election::common_vote(4));
    assert!(election::election::common_vote(5));
    assert!(!election::election::common_vote(6));
    for k in 5u64..40 {
        assert_eq!(election::election::common_vote(k), k % 2 == 1);
    }
}

#[test]
fn becomes_ready_exactly_three_rounds_ahead() {
    let mut units = Units::new(4);
    populate_all(&mut units, 4, 3);
    // highest round is 3: round 0 is ready, round 1 is not.
    assert!(RoundElection::for_round(0, &units).is_ok());
    assert!(RoundElection::for_round(1, &units).is_err());
}

#[test]
fn vote_is_memoized_and_stable() {
    let mut units = Units::new(4);
    populate_all(&mut units, 4, 2);
    let candidate_hash = unit_hash(0, 0);
    let mut election = {
        let candidate = units.get(candidate_hash).expect("stored above");
        CandidateElection::new(candidate)
    };
    let voter = unit_hash(1, 1);
    let first = match election.vote(voter, &units) {
        Ok(vote) => vote,
        Err(_) => panic!("no decision is possible below relative round 3"),
    };
    // Asking again (a direct call, or the recursive dependency of a round-2
    // voter) must return the identical cached value.
    let again = match election.vote(voter, &units) {
        Ok(vote) => vote,
        Err(_) => panic!("no decision is possible below relative round 3"),
    };
    assert_eq!(first, again);
    let dependent = match election.vote(unit_hash(2, 2), &units) {
        Ok(vote) => vote,
        Err(_) => panic!("no decision is possible below relative round 3"),
    };
    assert!(dependent);
    let third = match election.vote(voter, &units) {
        Ok(vote) => vote,
        Err(_) => panic!("no decision is possible below relative round 3"),
    };
    assert_eq!(first, third);
}

#[test]
fn direct_round_votes_by_citation() {
    let mut units = Units::new(4);
    for creator in 0..4 {
        assert!(units.add_unit(construct_unit_all_parents(creator, 0, 4)));
    }
    // A round-1 unit citing everyone votes for the candidate of creator 0; a
    // round-1 unit whose creator-0 slot is absent votes against it.
    assert!(units.add_unit(construct_unit_all_parents(0, 1, 4)));
    assert!(units.add_unit(construct_unit(1, 1, vec![(1, 0), (2, 0), (3, 0)], 4)));
    let candidate_hash = unit_hash(0, 0);
    let mut election = {
        let candidate = units.get(candidate_hash).expect("stored above");
        CandidateElection::new(candidate)
    };
    assert_eq!(election.vote(unit_hash(0, 1), &units).ok(), Some(true));
    assert_eq!(election.vote(unit_hash(1, 1), &units).ok(), Some(false));
}

#[test]
fn unanimous_parents_override_common_vote() {
    // Relative round 3 has common vote false, yet unanimously supporting
    // parents keep the vote true.
    let mut units = Units::new(4);
    populate_all(&mut units, 4, 3);
    let candidate_hash = unit_hash(0, 0);
    let mut election = {
        let candidate = units.get(candidate_hash).expect("stored above");
        CandidateElection::new(candidate)
    };
    assert_eq!(election.vote(unit_hash(2, 3), &units).ok(), Some(true));
    // And unanimously opposing parents keep it false on a common-vote true
    // round: relative round 2 against a candidate nobody cites.
    let mut sparse = Units::new(4);
    for creator in 0..4 {
        assert!(sparse.add_unit(construct_unit_all_parents(creator, 0, 4)));
    }
    for creator in 1..4 {
        assert!(sparse.add_unit(construct_unit(creator, 1, vec![(1, 0), (2, 0), (3, 0)], 4)));
    }
    for creator in 1..4 {
        assert!(sparse.add_unit(construct_unit(creator, 2, vec![(1, 1), (2, 1), (3, 1)], 4)));
    }
    let unpopular = unit_hash(0, 0);
    let mut rejection = {
        let candidate = sparse.get(unpopular).expect("stored above");
        CandidateElection::new(candidate)
    };
    assert_eq!(rejection.vote(unit_hash(1, 2), &sparse).ok(), Some(false));
}

#[test]
fn candidate_election_reports_both_outcomes() {
    // Unanimous support: the candidate's own election ends in ElectionDone.
    let mut units = Units::new(4);
    populate_all(&mut units, 4, 4);
    let candidate_hash = unit_hash(0, 0);
    let election = {
        let candidate = units.get(candidate_hash).expect("stored above");
        CandidateElection::new(candidate)
    };
    match election.compute_votes(&units) {
        Err(VoteError::ElectionDone(head)) => assert_eq!(head, candidate_hash),
        _ => panic!("unanimous support must elect the candidate"),
    }
    // A silently excluded creator: its candidate gets eliminated.
    let mut sparse = Units::new(4);
    for creator in 0..4 {
        assert!(sparse.add_unit(construct_unit_all_parents(creator, 0, 4)));
    }
    for round in 1..=3 {
        for creator in 1..4 {
            assert!(sparse.add_unit(construct_unit(
                creator,
                round,
                vec![(1, round - 1), (2, round - 1), (3, round - 1)],
                4,
            )));
        }
    }
    let unpopular = unit_hash(0, 0);
    let rejection = {
        let candidate = sparse.get(unpopular).expect("stored above");
        CandidateElection::new(candidate)
    };
    assert!(matches!(
        rejection.compute_votes(&sparse),
        Err(VoteError::EliminateCandidate)
    ));
}

fn run_elimination_scenario(round_four_order: &[usize]) -> u64 {
    let mut units = Units::new(4);
    let n_members = 4;
    for creator in 0..n_members {
        assert!(units.add_unit(construct_unit_all_parents(creator, 0, n_members)));
    }
    let active_nodes: Vec<usize> = vec![1, 2, 3];
    for round in 1..=3 {
        for creator in &active_nodes {
            assert!(units.add_unit(construct_unit(
                *creator,
                round,
                active_nodes
                    .iter()
                    .map(|parent_id| (*parent_id, round - 1))
                    .collect(),
                n_members,
            )));
        }
    }
    let mut election = match RoundElection::for_round(0, &units).expect("we have enough rounds") {
        ElectionResult::Pending(election) => election,
        ElectionResult::Elected(_) => panic!("nothing decisive is known yet"),
    };
    for creator in round_four_order {
        let unit = construct_unit(
            *creator,
            4,
            active_nodes
                .iter()
                .map(|parent_id| (*parent_id, 3))
                .collect(),
            n_members,
        );
        let hash = unit.hash;
        assert!(units.add_unit(unit));
        match election.add_voter(hash, &units) {
            ElectionResult::Pending(next) => election = next,
            ElectionResult::Elected(head) => return head,
        }
    }
    panic!("a full round of decisive voters must elect a head");
}

#[test]
fn insertion_order_does_not_change_the_head() {
    let head_ascending = run_elimination_scenario(&[1, 2, 3]);
    let head_descending = run_elimination_scenario(&[3, 2, 1]);
    assert_eq!(head_ascending, head_descending);
    // The excluded creator's candidate was eliminated: the head is the
    // next-smallest round-0 hash.
    assert_eq!(head_ascending, unit_hash(1, 0));
}

#[test]
fn store_rejects_unsound_units() {
    let mut units = Units::new(4);
    assert!(units.add_unit(construct_unit_all_parents(0, 0, 4)));
    // A duplicate hash is refused.
    assert!(!units.add_unit(construct_unit_all_parents(0, 0, 4)));
    // A unit citing a parent that is not stored is refused.
    assert!(!units.add_unit(construct_unit(1, 1, vec![(1, 0), (2, 0), (3, 0)], 4)));
    // A unit with too few cited parents is refused.
    assert!(units.add_unit(construct_unit_all_parents(1, 0, 4)));
    assert!(units.add_unit(construct_unit_all_parents(2, 0, 4)));
    assert!(!units.add_unit(construct_unit(1, 1, vec![(1, 0), (2, 0)], 4)));
    // With a supermajority of stored parents it is accepted.
    assert!(units.add_unit(construct_unit(1, 1, vec![(0, 0), (1, 0), (2, 0)], 4)));
}
