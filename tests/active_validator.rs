use highway::active_validator::{ActiveValidator, Effect};
use highway::state::State;
use highway::vertex::{SignedWireVote, ValidatorSecret, Vertex, VoteHasher, WireVote};
use highway::vote::{Observation, Panorama, ValidatorIndex, Weight};

#[derive(Debug)]
struct TestSecret(u8);

impl ValidatorSecret for TestSecret {
    fn sign(&self, data: &[u8]) -> Vec<u8> {
        data.iter().map(|b| b ^ self.0).collect()
    }
}

#[test]
fn leader_requests_block_at_round_start() {
    let state: State<u8> = State::new(&[Weight(5), Weight(4), Weight(1)]);
    // Rounds of 4 ms, with the witness point at offset 2. The round starting at 12 goes to
    // Alice (12 % 10 < 5).
    let alice = ActiveValidator::new(ValidatorIndex(0), TestSecret(1), 2);
    let bob = ActiveValidator::new(ValidatorIndex(1), TestSecret(2), 2);
    let effects = alice.step(&state, 12, &TestHasher);
    assert_eq!(effects.len(), 2);
    assert!(matches!(effects[0], Effect::RequestNewBlock(12)));
    assert!(matches!(effects[1], Effect::ScheduleTimer(14)));
    let effects = bob.step(&state, 12, &TestHasher);
    assert_eq!(effects.len(), 1);
    assert!(matches!(effects[0], Effect::ScheduleTimer(14)));
    // Before the witness point, the timer is for the witness point.
    let effects = alice.step(&state, 13, &TestHasher);
    assert_eq!(effects.len(), 1);
    assert!(matches!(effects[0], Effect::ScheduleTimer(14)));
    // At the witness point, with nothing to vote for, only the next round's timer.
    let effects = alice.step(&state, 14, &TestHasher);
    assert_eq!(effects.len(), 1);
    assert!(matches!(effects[0], Effect::ScheduleTimer(16)));
    // The round starting at 16 goes to Bob (16 % 10 = 6).
    assert!(matches!(bob.step(&state, 16, &TestHasher)[0], Effect::RequestNewBlock(16)));
    // No timer past the last representable instant.
    let effects = alice.step(&state, u64::MAX, &TestHasher);
    assert!(effects.iter().all(|e| !matches!(e, Effect::ScheduleTimer(_))));
}

#[test]
fn witness_vote_two_thirds_into_the_round() {
    let mut state: State<&'static str> = State::new(&[Weight(1), Weight(1)]);
    let alice = ActiveValidator::new(ValidatorIndex(0), TestSecret(7), 3);
    let bob = ActiveValidator::new(ValidatorIndex(1), TestSecret(9), 3);
    let proposal = match &alice.propose(&state, vec!["a"], &TestHasher)[0] {
        Effect::NewVertex(Vertex::Vote(signed)) => signed.wire_vote.clone(),
        _ => panic!("expected a new vote"),
    };
    assert!(state.add_vote(proposal).is_ok());
    // Rounds of 8 ms: the witness point is at offset 5.
    let effects = bob.step(&state, 21, &TestHasher);
    assert_eq!(effects.len(), 2);
    let witness = match &effects[0] {
        Effect::NewVertex(Vertex::Vote(signed)) => signed.wire_vote.clone(),
        _ => panic!("expected a witness vote"),
    };
    assert!(matches!(effects[1], Effect::ScheduleTimer(24)));
    assert_eq!(witness.values, None);
    assert_eq!(witness.sender, ValidatorIndex(1));
    assert_eq!(witness.seq_number, 0);
    assert_eq!(&witness.panorama, state.panorama());
    assert!(state.add_vote(witness).is_ok());
    assert!(state.has_vote(&2000));
    // Alice's witness extends her swimlane.
    let effects = alice.step(&state, 13, &TestHasher);
    match &effects[0] {
        Effect::NewVertex(Vertex::Vote(signed)) => {
            assert_eq!(signed.wire_vote.seq_number, 1);
            assert!(state.add_vote(signed.wire_vote.clone()).is_ok());
        }
        _ => panic!("expected a witness vote"),
    }
    assert_eq!(state.panorama(), &Panorama(vec![Observation::Correct(1001), Observation::Correct(2000)]));
}

#[test]
fn signed_vote_keeps_vote_and_signs_hash() {
    let wire_vote: WireVote<u8> = WireVote {
        hash: 0x0102,
        panorama: Panorama(vec![Observation::Unseen]),
        sender: ValidatorIndex(0),
        values: Some(vec![3]),
        seq_number: 0,
    };
    let signed = SignedWireVote::new(wire_vote.clone(), &TestSecret(0));
    assert_eq!(signed.hash(), 0x0102);
    assert_eq!(signed.wire_vote, wire_vote);
    assert_eq!(signed.signature, vec![2, 1, 0, 0, 0, 0, 0, 0]);
    let vertex = Vertex::Vote(signed);
    assert_eq!(vertex.values(), &[3]);
}

/// Hashes a vote by its sender and sequence number.
struct TestHasher;

impl<V> VoteHasher<V> for TestHasher {
    fn hash_vote(&self, wvote: &WireVote<V>) -> u64 {
        1000 * (wvote.sender.0 as u64 + 1) + wvote.seq_number
    }
}

#[test]
fn proposals_extend_own_swimlane_and_are_accepted() {
    let mut state: State<&'static str> = State::new(&[Weight(1), Weight(1)]);
    let alice = ActiveValidator::new(ValidatorIndex(0), TestSecret(7), 3);
    let bob = ActiveValidator::new(ValidatorIndex(1), TestSecret(9), 3);
    for (validator, values, hash, seq) in [(&alice, vec!["a"], 1000, 0), (&bob, vec!["b"], 2000, 0), (&alice, vec!["c"], 1001, 1)] {
        let effects = validator.propose(&state, values.clone(), &TestHasher);
        assert_eq!(effects.len(), 1);
        let signed = match &effects[0] {
            Effect::NewVertex(Vertex::Vote(signed)) => signed.clone(),
            _ => panic!("expected a new vote"),
        };
        assert_eq!(signed.hash(), hash);
        assert_eq!(signed.wire_vote.seq_number, seq);
        assert_eq!(signed.wire_vote.values, Some(values));
        assert_eq!(&signed.wire_vote.panorama, state.panorama());
        assert!(state.add_vote(signed.wire_vote).is_ok());
        assert!(state.has_vote(&hash));
    }
    assert_eq!(state.panorama(), &Panorama(vec![Observation::Correct(1001), Observation::Correct(2000)]));
    assert_eq!(state.block(&1001).parent, Some(2000));
}

#[test]
fn faulty_validator_proposes_nothing() {
    let mut state: State<&'static str> = State::new(&[Weight(1), Weight(1)]);
    let mk = |hash, seq| WireVote {
        hash,
        panorama: Panorama(vec![Observation::Unseen, Observation::Unseen]),
        sender: ValidatorIndex(0),
        values: Some(vec!["x"]),
        seq_number: seq,
    };
    assert!(state.add_vote(mk(1, 0)).is_ok());
    assert!(state.add_vote(mk(2, 0)).is_ok());
    let alice = ActiveValidator::new(ValidatorIndex(0), TestSecret(7), 3);
    assert!(alice.propose(&state, vec!["y"], &TestHasher).is_empty());
}
